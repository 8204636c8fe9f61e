use vstd::prelude::*;
use vstd::string::{StrSliceExecFns, StringExecFns};

verus! {

/// The shortest management secret that startup accepts, in characters.
pub const MIN_SECRET_CHARS: usize = 32;

/// Where the store lives.
#[derive(Debug)]
pub struct Database {
    pub url: String,
}

/// Where ingest listens.
#[derive(Debug)]
pub struct Proxy {
    pub listen: String,
}

/// Where management listens, and the secret that it requires.
#[derive(Debug)]
pub struct Management {
    pub listen: String,
    pub secret: String,
}

/// Whether ingest serves TLS, and with which files.
#[derive(Debug)]
pub struct Tls {
    pub enable: bool,
    pub cert_path: Option<String>,
    pub key_path: Option<String>,
}

/// The settings of the service.
#[derive(Debug)]
pub struct Config {
    pub database: Database,
    pub management: Management,
    pub proxy: Proxy,
    pub tls: Tls,
}

/// Why startup refuses a configuration.
#[derive(Clone, Copy, Debug, PartialEq, Eq, Structural)]
pub enum ConfigError {
    /// The management secret has fewer than `MIN_SECRET_CHARS` characters.
    SecretTooShort,
}

impl Config {
    /// Checks the configuration before startup.
    pub fn validate(&self) -> (r: Result<(), ConfigError>)
        ensures
            r is Ok <==> self.management.secret@.len() >= MIN_SECRET_CHARS,
            r is Err ==> r == Err::<(), ConfigError>(ConfigError::SecretTooShort),
    {
        if self.management.secret.as_str().unicode_len() < MIN_SECRET_CHARS {
            Err(ConfigError::SecretTooShort)
        } else {
            Ok(())
        }
    }
}

impl Default for Config {
    /// The built-in settings: an in-memory store, ingest on port 3000,
    /// management on port 3443 with no secret, no TLS.
    fn default() -> (r: Config)
        ensures
            r.database.url@ == "sqlite::memory:"@,
            r.proxy.listen@ == "0.0.0.0:3000"@,
            r.management.listen@ == "0.0.0.0:3443"@,
            r.management.secret@.len() == 0,
            !r.tls.enable,
    {
        Config {
            database: Database { url: String::from_str("sqlite::memory:") },
            management: Management {
                listen: String::from_str("0.0.0.0:3443"),
                secret: String::new(),
            },
            proxy: Proxy { listen: String::from_str("0.0.0.0:3000") },
            tls: Tls { enable: false, cert_path: None, key_path: None },
        }
    }
}

} // verus!
