use vstd::prelude::*;

use crate::record::{Origin, OriginView};
use crate::text::str_eq;

verus! {

/// The origins by domain that a list gives: each domain maps to the last
/// origin of the list that carries it.
pub open spec fn domain_map(s: Seq<OriginView>) -> Map<Seq<char>, OriginView>
    decreases s.len(),
{
    if s.len() == 0 {
        Map::empty()
    } else {
        domain_map(s.drop_last()).insert(s.last().domain, s.last())
    }
}

/// A domain that no origin of the list carries is not in its map.
proof fn lemma_domain_map_absent(s: Seq<OriginView>, d: Seq<char>)
    requires
        forall|k: int| 0 <= k < s.len() ==> (#[trigger] s[k]).domain != d,
    ensures
        !domain_map(s).contains_key(d),
    decreases s.len(),
{
    if s.len() > 0 {
        lemma_domain_map_absent(s.drop_last(), d);
    }
}

/// A domain maps to the last origin of the list that carries it.
proof fn lemma_domain_map_last(s: Seq<OriginView>, d: Seq<char>, k: int)
    requires
        0 <= k < s.len(),
        s[k].domain == d,
        forall|j: int| k < j < s.len() ==> (#[trigger] s[j]).domain != d,
    ensures
        domain_map(s).contains_key(d),
        domain_map(s)[d] == s[k],
    decreases s.len(),
{
    if k < s.len() - 1 {
        lemma_domain_map_last(s.drop_last(), d, k);
    }
}

/// After a refresh with a list, a domain is mapped exactly when an origin of
/// the list carries it, and an origin whose domain no other origin of the
/// list carries is what that domain maps to: nothing of an earlier mapping
/// survives.
pub proof fn lemma_refresh_maps_exactly_the_list(s: Seq<OriginView>, d: Seq<char>)
    ensures
        domain_map(s).contains_key(d) <==> exists|k: int| 0 <= k < s.len() && (#[trigger] s[k]).domain == d,
        forall|k: int|
            0 <= k < s.len() && (#[trigger] s[k]).domain == d && (forall|j: int| 0 <= j < s.len() && j != k ==> s[j].domain != d)
                ==> domain_map(s)[d] == s[k],
{
    if exists|k: int| 0 <= k < s.len() && (#[trigger] s[k]).domain == d {
        let k = choose|k: int| 0 <= k < s.len() && (#[trigger] s[k]).domain == d;
        lemma_domain_map_some(s, d, k);
    } else {
        lemma_domain_map_absent(s, d);
    }
    assert forall|k: int|
        0 <= k < s.len() && (#[trigger] s[k]).domain == d && (forall|j: int| 0 <= j < s.len() && j != k ==> s[j].domain != d)
            implies domain_map(s)[d] == s[k] by {
        lemma_domain_map_last(s, d, k);
    }
}

/// A domain that some origin of the list carries is in its map.
proof fn lemma_domain_map_some(s: Seq<OriginView>, d: Seq<char>, k: int)
    requires
        0 <= k < s.len(),
        s[k].domain == d,
    ensures
        domain_map(s).contains_key(d),
    decreases s.len(),
{
    if k < s.len() - 1 {
        lemma_domain_map_some(s.drop_last(), d, k);
    }
}

/// The origins by the domain that requests for them carry. A miss means that
/// no origin is configured for the domain.
pub struct OriginCache {
    origins: Vec<Origin>,
}

impl View for OriginCache {
    type V = Map<Seq<char>, OriginView>;

    closed spec fn view(&self) -> Map<Seq<char>, OriginView> {
        domain_map(self.origins@.map_values(|o: Origin| o@))
    }
}

impl OriginCache {
    /// A cache that knows no origin.
    pub fn new() -> (r: OriginCache)
        ensures
            r@ == Map::<Seq<char>, OriginView>::empty(),
    {
        let r = OriginCache { origins: Vec::new() };
        assert(r.origins@.map_values(|o: Origin| o@) =~= Seq::<OriginView>::empty());
        r
    }

    /// Replaces the whole mapping by the one that `new_origins` gives; nothing
    /// of the previous mapping remains.
    pub fn refresh(&mut self, new_origins: Vec<Origin>)
        ensures
            final(self)@ == domain_map(new_origins@.map_values(|o: Origin| o@)),
    {
        self.origins = new_origins;
    }

    /// A copy of the origin for `domain`; domains match case-sensitively.
    pub fn get(&self, domain: &str) -> (r: Option<Origin>)
        ensures
            r is None <==> !self@.contains_key(domain@),
            r matches Some(o) ==> self@[domain@] == o@,
    {
        let ghost s = self.origins@.map_values(|o: Origin| o@);
        let mut j = self.origins.len();
        while j > 0
            invariant
                j <= s.len(),
                s == self.origins@.map_values(|o: Origin| o@),
                forall|k: int| j <= k < s.len() ==> (#[trigger] s[k]).domain != domain@,
            decreases j,
        {
            if str_eq(self.origins[j - 1].domain.as_str(), domain) {
                proof {
                    lemma_domain_map_last(s, domain@, j - 1);
                }
                return Some(self.origins[j - 1].copy());
            }
            j = j - 1;
        }
        proof {
            lemma_domain_map_absent(s, domain@);
        }
        None
    }
}

} // verus!
