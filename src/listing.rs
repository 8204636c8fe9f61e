use vstd::prelude::*;

use crate::mgmt::Order;
use crate::text::str_eq;

verus! {

/// The columns by which requests may be listed.
#[derive(Clone, Copy, Debug, PartialEq, Eq, Structural)]
pub enum RequestColumn {
    Id,
    State,
    CreatedAt,
    RetryMsAt,
    FromRequestId,
}

/// The columns by which attempts may be listed.
#[derive(Clone, Copy, Debug, PartialEq, Eq, Structural)]
pub enum AttemptColumn {
    Id,
    RequestId,
    ResponseStatus,
    CreatedAt,
}

/// The columns by which origins may be listed.
#[derive(Clone, Copy, Debug, PartialEq, Eq, Structural)]
pub enum OriginColumn {
    Id,
    Timeout,
    CreatedAt,
    UpdatedAt,
}

/// The request column that a sort field names.
pub open spec fn request_column_of(f: Seq<char>) -> Option<RequestColumn> {
    if f == "id"@ {
        Some(RequestColumn::Id)
    } else if f == "state"@ {
        Some(RequestColumn::State)
    } else if f == "created_at"@ {
        Some(RequestColumn::CreatedAt)
    } else if f == "retry_ms_at"@ {
        Some(RequestColumn::RetryMsAt)
    } else if f == "from_request_id"@ {
        Some(RequestColumn::FromRequestId)
    } else {
        None
    }
}

/// The attempt column that a sort field names.
pub open spec fn attempt_column_of(f: Seq<char>) -> Option<AttemptColumn> {
    if f == "id"@ {
        Some(AttemptColumn::Id)
    } else if f == "request_id"@ {
        Some(AttemptColumn::RequestId)
    } else if f == "response_status"@ {
        Some(AttemptColumn::ResponseStatus)
    } else if f == "created_at"@ {
        Some(AttemptColumn::CreatedAt)
    } else {
        None
    }
}

/// The origin column that a sort field names.
pub open spec fn origin_column_of(f: Seq<char>) -> Option<OriginColumn> {
    if f == "id"@ {
        Some(OriginColumn::Id)
    } else if f == "timeout"@ {
        Some(OriginColumn::Timeout)
    } else if f == "created_at"@ {
        Some(OriginColumn::CreatedAt)
    } else if f == "updated_at"@ {
        Some(OriginColumn::UpdatedAt)
    } else {
        None
    }
}

/// The request column that a sort field names; other fields are refused.
pub fn request_column(field: &str) -> (r: Option<RequestColumn>)
    ensures
        r == request_column_of(field@),
{
    if str_eq(field, "id") {
        Some(RequestColumn::Id)
    } else if str_eq(field, "state") {
        Some(RequestColumn::State)
    } else if str_eq(field, "created_at") {
        Some(RequestColumn::CreatedAt)
    } else if str_eq(field, "retry_ms_at") {
        Some(RequestColumn::RetryMsAt)
    } else if str_eq(field, "from_request_id") {
        Some(RequestColumn::FromRequestId)
    } else {
        None
    }
}

/// The attempt column that a sort field names; other fields are refused.
pub fn attempt_column(field: &str) -> (r: Option<AttemptColumn>)
    ensures
        r == attempt_column_of(field@),
{
    if str_eq(field, "id") {
        Some(AttemptColumn::Id)
    } else if str_eq(field, "request_id") {
        Some(AttemptColumn::RequestId)
    } else if str_eq(field, "response_status") {
        Some(AttemptColumn::ResponseStatus)
    } else if str_eq(field, "created_at") {
        Some(AttemptColumn::CreatedAt)
    } else {
        None
    }
}

/// The origin column that a sort field names; other fields are refused.
pub fn origin_column(field: &str) -> (r: Option<OriginColumn>)
    ensures
        r == origin_column_of(field@),
{
    if str_eq(field, "id") {
        Some(OriginColumn::Id)
    } else if str_eq(field, "timeout") {
        Some(OriginColumn::Timeout)
    } else if str_eq(field, "created_at") {
        Some(OriginColumn::CreatedAt)
    } else if str_eq(field, "updated_at") {
        Some(OriginColumn::UpdatedAt)
    } else {
        None
    }
}

impl RequestColumn {
    pub open spec fn spec_name(self) -> Seq<char> {
        match self {
            RequestColumn::Id => "id"@,
            RequestColumn::State => "state"@,
            RequestColumn::CreatedAt => "created_at"@,
            RequestColumn::RetryMsAt => "retry_ms_at"@,
            RequestColumn::FromRequestId => "from_request_id"@,
        }
    }

    /// The column's name in the store.
    pub fn name(self) -> (r: &'static str)
        ensures
            r@ == self.spec_name(),
    {
        match self {
            RequestColumn::Id => "id",
            RequestColumn::State => "state",
            RequestColumn::CreatedAt => "created_at",
            RequestColumn::RetryMsAt => "retry_ms_at",
            RequestColumn::FromRequestId => "from_request_id",
        }
    }
}

impl AttemptColumn {
    pub open spec fn spec_name(self) -> Seq<char> {
        match self {
            AttemptColumn::Id => "id"@,
            AttemptColumn::RequestId => "request_id"@,
            AttemptColumn::ResponseStatus => "response_status"@,
            AttemptColumn::CreatedAt => "created_at"@,
        }
    }

    /// The column's name in the store.
    pub fn name(self) -> (r: &'static str)
        ensures
            r@ == self.spec_name(),
    {
        match self {
            AttemptColumn::Id => "id",
            AttemptColumn::RequestId => "request_id",
            AttemptColumn::ResponseStatus => "response_status",
            AttemptColumn::CreatedAt => "created_at",
        }
    }
}

impl OriginColumn {
    pub open spec fn spec_name(self) -> Seq<char> {
        match self {
            OriginColumn::Id => "id"@,
            OriginColumn::Timeout => "timeout"@,
            OriginColumn::CreatedAt => "created_at"@,
            OriginColumn::UpdatedAt => "updated_at"@,
        }
    }

    /// The column's name in the store.
    pub fn name(self) -> (r: &'static str)
        ensures
            r@ == self.spec_name(),
    {
        match self {
            OriginColumn::Id => "id",
            OriginColumn::Timeout => "timeout",
            OriginColumn::CreatedAt => "created_at",
            OriginColumn::UpdatedAt => "updated_at",
        }
    }
}

/// The sort key of an optional column: an absent value sorts before every
/// present one.
pub open spec fn optional_key(o: Option<i64>) -> int {
    match o {
        Some(x) => x as int,
        None => i64::MIN - 1,
    }
}

pub fn optional_key_of(o: Option<i64>) -> (r: i128)
    ensures
        r == optional_key(o),
{
    match o {
        Some(x) => x as i128,
        None => i64::MIN as i128 - 1,
    }
}

/// Row `i` comes before row `k` in the listing: by key in the given
/// direction, rows with equal keys in store order, or in reverse store order
/// when descending.
pub open spec fn ranks_before(keys: Seq<int>, order: Order, i: int, k: int) -> bool {
    match order {
        Order::Asc => keys[i] < keys[k] || (keys[i] == keys[k] && i < k),
        Order::Desc => keys[i] > keys[k] || (keys[i] == keys[k] && i > k),
    }
}

/// `sel` lists, in listing order, the first `limit` rows among those that
/// `cand` admits, or all of them if there are fewer.
pub open spec fn is_first_in_order(keys: Seq<int>, cand: Seq<bool>, order: Order, limit: int, sel: Seq<int>) -> bool {
    &&& sel.len() <= limit
    &&& forall|k: int| 0 <= k < sel.len() ==> 0 <= #[trigger] sel[k] < keys.len() && cand[sel[k]]
    &&& forall|k: int, l: int| 0 <= k < l < sel.len() ==> ranks_before(keys, order, #[trigger] sel[k], #[trigger] sel[l])
    &&& forall|x: int|
        0 <= x < keys.len() && #[trigger] cand[x] && !sel.contains(x) ==> sel.len() == limit
            && ranks_before(keys, order, sel[limit - 1], x)
}

/// The keys as integers.
pub open spec fn int_keys(keys: Seq<i128>) -> Seq<int> {
    keys.map_values(|k: i128| k as int)
}

/// The positions as integers.
pub open spec fn int_positions(sel: Seq<usize>) -> Seq<int> {
    sel.map_values(|x: usize| x as int)
}

fn before_in(keys: &Vec<i128>, order: Order, i: usize, k: usize) -> (r: bool)
    requires
        i < keys@.len(),
        k < keys@.len(),
    ensures
        r == ranks_before(int_keys(keys@), order, i as int, k as int),
{
    let a = keys[i];
    let b = keys[k];
    match order {
        Order::Asc => a < b || (a == b && i < k),
        Order::Desc => a > b || (a == b && i > k),
    }
}

/// The positions of the first `last + 1` admitted rows in listing order.
pub fn select_in_order(keys: &Vec<i128>, cand: &Vec<bool>, order: Order, last: u32) -> (r: Vec<usize>)
    requires
        keys@.len() == cand@.len(),
    ensures
        is_first_in_order(int_keys(keys@), cand@, order, last + 1, int_positions(r@)),
{
    let ghost ks = int_keys(keys@);
    let n = keys.len();
    let mut chosen: Vec<usize> = Vec::new();
    let mut exhausted = false;
    while (chosen.len() as u64) <= (last as u64) && !exhausted
        invariant
            ks == int_keys(keys@),
            n == keys@.len(),
            n == cand@.len(),
            chosen@.len() <= last + 1,
            forall|k: int| 0 <= k < chosen@.len() ==> (#[trigger] chosen@[k]) < n && cand@[chosen@[k] as int],
            forall|k: int, l: int| 0 <= k < l < chosen@.len() ==> ranks_before(ks, order, #[trigger] chosen@[k] as int, #[trigger] chosen@[l] as int),
            forall|x: int| 0 <= x < n && #[trigger] cand@[x] && !int_positions(chosen@).contains(x)
                ==> !exhausted && chosen@.len() > 0 ==> ranks_before(ks, order, chosen@[chosen@.len() - 1] as int, x),
            forall|x: int| 0 <= x < n && #[trigger] cand@[x] && exhausted ==> int_positions(chosen@).contains(x),
        decreases last + 1 - chosen@.len(), if exhausted { 0int } else { 1int },
    {
        let mut best: Option<usize> = None;
        let mut j: usize = 0;
        while j < n
            invariant
                ks == int_keys(keys@),
                n == keys@.len(),
                n == cand@.len(),
                j <= n,
                forall|k: int| 0 <= k < chosen@.len() ==> (#[trigger] chosen@[k]) < n && cand@[chosen@[k] as int],
                best matches Some(b) ==> b < j && cand@[b as int] && (chosen@.len() == 0 || ranks_before(ks, order, chosen@[chosen@.len() - 1] as int, b as int)),
                forall|y: int| 0 <= y < j && #[trigger] cand@[y] && (chosen@.len() == 0 || ranks_before(ks, order, chosen@[chosen@.len() - 1] as int, y))
                    ==> (best matches Some(b) && (y == b || ranks_before(ks, order, b as int, y))),
            decreases n - j,
        {
            if cand[j] {
                let after_last = chosen.len() == 0 || before_in(keys, order, chosen[chosen.len() - 1], j);
                if after_last {
                    match best {
                        None => {
                            best = Some(j);
                        },
                        Some(b) => {
                            if before_in(keys, order, j, b) {
                                best = Some(j);
                            }
                        },
                    }
                }
            }
            j = j + 1;
        }
        match best {
            None => {
                exhausted = true;
                proof {
                    assert forall|x: int| 0 <= x < n && #[trigger] cand@[x]
                        implies int_positions(chosen@).contains(x) by {
                        if !int_positions(chosen@).contains(x) {
                            assert(chosen@.len() == 0 || ranks_before(ks, order, chosen@[chosen@.len() - 1] as int, x));
                        }
                    }
                }
            },
            Some(b) => {
                let ghost old_chosen = chosen@;
                chosen.push(b);
                proof {
                    assert forall|x: int| 0 <= x < n && #[trigger] cand@[x] && !int_positions(chosen@).contains(x)
                        implies ranks_before(ks, order, chosen@[chosen@.len() - 1] as int, x) by {
                        let now_sel = int_positions(chosen@);
                        let old_sel = int_positions(old_chosen);
                        assert(now_sel =~= old_sel.push(b as int));
                        assert(now_sel[now_sel.len() - 1] == b as int);
                        assert(x != b as int);
                        if old_sel.contains(x) {
                            let k = choose|k: int| 0 <= k < old_sel.len() && old_sel[k] == x;
                            assert(now_sel[k] == x);
                        }
                    }
                    assert forall|k: int, l: int| 0 <= k < l < chosen@.len() implies ranks_before(ks, order, #[trigger] chosen@[k] as int, #[trigger] chosen@[l] as int) by {
                        if l == chosen@.len() - 1 && k < l - 1 {
                            assert(ranks_before(ks, order, old_chosen[k] as int, old_chosen[old_chosen.len() - 1] as int));
                        }
                    }
                }
            },
        }
    }
    let ghost sel = int_positions(chosen@);
    proof {
        assert forall|k: int| 0 <= k < sel.len() implies 0 <= #[trigger] sel[k] < ks.len() && cand@[sel[k]] by {
            assert(sel[k] == chosen@[k] as int);
        }
        assert forall|k: int, l: int| 0 <= k < l < sel.len() implies ranks_before(ks, order, #[trigger] sel[k], #[trigger] sel[l]) by {
            assert(sel[k] == chosen@[k] as int);
            assert(sel[l] == chosen@[l] as int);
        }
        assert forall|x: int| 0 <= x < ks.len() && #[trigger] cand@[x] && !sel.contains(x)
            implies sel.len() == last + 1 && ranks_before(ks, order, sel[last + 1 - 1], x) by {
            assert(!exhausted);
        }
    }
    chosen
}

} // verus!
