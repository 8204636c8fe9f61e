use vstd::prelude::*;

use crate::record::{text_view, OriginView};

verus! {

/// The origin that a request was resolved to: where to send it, and how to
/// alert about it.
#[derive(Debug)]
pub struct Origin {
    /// The upstream address: the origin's scheme and authority, then the
    /// request's path and query.
    pub uri: String,
    /// Milliseconds that one try may take.
    pub timeout: u32,
    pub alert_threshold: Option<u16>,
    pub alert_email: Option<String>,
    pub smtp_host: Option<String>,
    pub smtp_port: Option<u16>,
    pub smtp_username: Option<String>,
    pub smtp_password: Option<String>,
    pub smtp_tls: bool,
}

/// The contents of a resolved `Origin` as text and numbers.
pub struct ResolvedView {
    pub uri: Seq<char>,
    pub timeout: u32,
    pub alert_threshold: Option<u16>,
    pub alert_email: Option<Seq<char>>,
    pub smtp_host: Option<Seq<char>>,
    pub smtp_port: Option<u16>,
    pub smtp_username: Option<Seq<char>>,
    pub smtp_password: Option<Seq<char>>,
    pub smtp_tls: bool,
}

impl View for Origin {
    type V = ResolvedView;

    open spec fn view(&self) -> ResolvedView {
        ResolvedView {
            uri: self.uri@,
            timeout: self.timeout,
            alert_threshold: self.alert_threshold,
            alert_email: text_view(self.alert_email),
            smtp_host: text_view(self.smtp_host),
            smtp_port: self.smtp_port,
            smtp_username: text_view(self.smtp_username),
            smtp_password: text_view(self.smtp_password),
            smtp_tls: self.smtp_tls,
        }
    }
}

impl Origin {
    /// Whether alerts for this origin can be sent: an SMTP host, an SMTP port
    /// and an alert address are all set.
    pub fn alerting_configured(&self) -> (r: bool)
        ensures
            r == (self.smtp_host is Some && self.smtp_port is Some && self.alert_email is Some),
    {
        self.smtp_host.is_some() && self.smtp_port.is_some() && self.alert_email.is_some()
    }
}

/// The resolved form of a configured origin, with its upstream address.
pub open spec fn resolved(o: OriginView, uri: Seq<char>) -> ResolvedView {
    ResolvedView {
        uri,
        timeout: o.timeout,
        alert_threshold: o.alert_threshold,
        alert_email: o.alert_email,
        smtp_host: o.smtp_host,
        smtp_port: o.smtp_port,
        smtp_username: o.smtp_username,
        smtp_password: o.smtp_password,
        smtp_tls: o.smtp_tls,
    }
}

} // verus!
