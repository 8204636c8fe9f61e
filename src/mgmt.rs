use vstd::prelude::*;

use crate::error::AppError;
use crate::state::RequestState;
use crate::text::{chars_of, parse_u32, parse_u32_spec, str_eq, strip, strip_bounds, CharClass};
use vstd::string::StringExecFns;

verus! {

/// The widest page, `end - start`, that a listing serves.
pub const MAX_RANGE_SPAN: u32 = 50;

/// The deepest offset that a listing serves; past it a filter is expected.
pub const MAX_RANGE_OFFSET: u32 = 1000;

/// A page of a listing, both ends included.
#[derive(Clone, Copy, Debug, PartialEq, Eq, Structural)]
pub struct Range {
    pub start: u32,
    pub end: u32,
}

/// The `range` query parameter of a listing, such as `[0,9]`.
pub struct RangeParams {
    pub range: Option<String>,
}

/// `k` is the position of the one comma in `t`.
pub open spec fn is_sole_comma(t: Seq<char>, k: int) -> bool {
    &&& 0 <= k < t.len()
    &&& t[k] == ','
    &&& forall|j: int| 0 <= j < t.len() && j != k ==> t[j] != ','
}

/// The two bounds written in a range parameter: brackets at both ends are
/// dropped, the rest splits at its one comma, and each side, trimmed of
/// white space, is an unsigned 32-bit integer.
pub open spec fn range_bounds(s: Seq<char>) -> Option<(u32, u32)> {
    let t = strip(s, CharClass::Bracket);
    if exists|k: int| is_sole_comma(t, k) {
        let k = choose|k: int| is_sole_comma(t, k);
        let a = parse_u32_spec(strip(t.subrange(0, k), CharClass::Whitespace));
        let b = parse_u32_spec(strip(t.subrange(k + 1, t.len() as int), CharClass::Whitespace));
        if a.is_some() && b.is_some() {
            Some((a.unwrap(), b.unwrap()))
        } else {
            None
        }
    } else {
        None
    }
}

/// The page that a range parameter selects, or why it is refused. Without a
/// parameter the first ten items are served.
pub open spec fn range_outcome(range: Option<Seq<char>>) -> Result<(u32, u32), AppError> {
    match range {
        None => Ok((0, 9)),
        Some(s) => match range_bounds(s) {
            None => Err(AppError::InvalidRange),
            Some((start, end)) => {
                if start > end {
                    Err(AppError::RangeStartAfterEnd)
                } else if end - start > MAX_RANGE_SPAN {
                    Err(AppError::RangeTooWide)
                } else if start > MAX_RANGE_OFFSET {
                    Err(AppError::RangeStartTooLarge)
                } else {
                    Ok((start, end))
                }
            },
        },
    }
}

/// The position of the one comma of `v[lo..hi]`, if it has exactly one.
fn sole_comma(v: &Vec<char>, lo: usize, hi: usize) -> (r: Option<usize>)
    requires
        lo <= hi <= v@.len(),
    ensures
        r matches Some(k) ==> lo <= k < hi && is_sole_comma(
            v@.subrange(lo as int, hi as int),
            k - lo,
        ),
        r is None ==> !exists|k: int| is_sole_comma(v@.subrange(lo as int, hi as int), k),
{
    let ghost t = v@.subrange(lo as int, hi as int);
    let mut first: usize = hi;
    let mut second: usize = hi;
    let mut i = lo;
    while i < hi && second == hi
        invariant
            lo <= i <= hi <= v@.len(),
            t == v@.subrange(lo as int, hi as int),
            first == hi || (lo <= first < i && v@[first as int] == ','),
            second == hi || (first < second < i && v@[second as int] == ','),
            forall|j: int| lo <= j < i && j != first && j != second ==> v@[j] != ',',
        decreases hi - i,
    {
        if v[i] == ',' {
            if first == hi {
                first = i;
            } else if second == hi {
                second = i;
            }
        }
        i = i + 1;
    }
    if first == hi {
        proof {
            assert forall|k: int| !is_sole_comma(t, k) by {
                if 0 <= k < t.len() {
                    assert(i == hi);
                    assert(t[k] == v@[lo + k]);
                }
            }
        }
        None
    } else if second == hi {
        proof {
            assert forall|j: int| 0 <= j < t.len() && j != first - lo implies t[j] != ',' by {
                assert(i == hi);
                assert(t[j] == v@[lo + j]);
            }
        }
        Some(first)
    } else {
        proof {
            assert forall|k: int| !is_sole_comma(t, k) by {
                if is_sole_comma(t, k) {
                    assert(t[first - lo] == ',');
                    assert(t[second - lo] == ',');
                }
            }
        }
        None
    }
}

/// The bounds written in `s`, as `range_bounds` reads them.
fn read_range_bounds(s: &str) -> (r: Option<(u32, u32)>)
    ensures
        r == range_bounds(s@),
{
    let v = chars_of(s);
    let (lo, hi) = strip_bounds(&v, 0, v.len(), CharClass::Bracket);
    let ghost t = strip(s@, CharClass::Bracket);
    assert(v@.subrange(0, v@.len() as int) =~= s@);
    assert(t == v@.subrange(lo as int, hi as int));
    match sole_comma(&v, lo, hi) {
        None => None,
        Some(k) => {
            let ghost kk = k - lo;
            proof {
                assert(is_sole_comma(t, kk));
                let c = choose|c: int| is_sole_comma(t, c);
                assert(c == kk);
                assert(t.subrange(0, kk) =~= v@.subrange(lo as int, k as int));
                assert(t.subrange(kk + 1, t.len() as int) =~= v@.subrange(k + 1, hi as int));
            }
            let (a_lo, a_hi) = strip_bounds(&v, lo, k, CharClass::Whitespace);
            let (b_lo, b_hi) = strip_bounds(&v, k + 1, hi, CharClass::Whitespace);
            let a = parse_u32(&v, a_lo, a_hi);
            let b = parse_u32(&v, b_lo, b_hi);
            match (a, b) {
                (Some(a), Some(b)) => Some((a, b)),
                _ => None,
            }
        },
    }
}

impl RangeParams {
    /// The parameter's text, if it was given.
    pub open spec fn range_text(&self) -> Option<Seq<char>> {
        match self.range {
            Some(s) => Some(s@),
            None => None,
        }
    }

    /// The page that this parameter selects, or why it is refused.
    pub fn parse_range(&self) -> (r: Result<Range, AppError>)
        ensures
            r matches Ok(p) ==> range_outcome(self.range_text()) == Ok::<
                (u32, u32),
                AppError,
            >((p.start, p.end)),
            r matches Err(e) ==> range_outcome(self.range_text()) == Err::<
                (u32, u32),
                AppError,
            >(e),
    {
        match &self.range {
            None => Ok(Range { start: 0, end: 9 }),
            Some(range) => match read_range_bounds(range.as_str()) {
                None => Err(AppError::InvalidRange),
                Some((start, end)) => {
                    if start > end {
                        Err(AppError::RangeStartAfterEnd)
                    } else if end - start > MAX_RANGE_SPAN {
                        Err(AppError::RangeTooWide)
                    } else if start > MAX_RANGE_OFFSET {
                        Err(AppError::RangeStartTooLarge)
                    } else {
                        Ok(Range { start, end })
                    }
                },
            },
        }
    }
}

/// The direction of a listing's order.
#[derive(Clone, Copy, Debug, PartialEq, Eq, Structural)]
pub enum Order {
    Asc,
    Desc,
}

impl Order {
    /// The keyword of this direction.
    pub open spec fn keyword(self) -> Seq<char> {
        match self {
            Order::Asc => "ASC"@,
            Order::Desc => "DESC"@,
        }
    }

    /// The keyword of this direction, `ASC` or `DESC`.
    pub fn as_str(&self) -> (r: &'static str)
        ensures
            r@ == self.keyword(),
    {
        match self {
            Order::Asc => "ASC",
            Order::Desc => "DESC",
        }
    }
}

/// The field and direction by which a listing is ordered.
#[derive(Debug)]
pub struct Sort {
    pub field: String,
    pub order: Order,
}

/// The `sort` query parameter of a listing: a JSON list of a field name and
/// an order keyword, such as `["id","ASC"]`.
pub struct SortParams {
    pub sort: Option<String>,
}

/// What a JSON text decodes to when read as a list of strings.
pub uninterp spec fn json_string_list(s: Seq<char>) -> Option<Seq<Seq<char>>>;

/// Relies on `serde_json::from_str::<Vec<String>>`: it succeeds exactly on the
/// texts that are a JSON array of strings, and gives their decoded contents.
#[verifier::external_body]
fn parse_string_list(s: &str) -> (r: Option<Vec<String>>)
    ensures
        r is Some <==> json_string_list(s@) is Some,
        r matches Some(v) ==> v@.map_values(|x: String| x@) == json_string_list(s@).unwrap(),
{
    serde_json::from_str::<Vec<String>>(s).ok()
}

/// The field and direction that a decoded sort list names, or why it is
/// refused.
pub open spec fn sort_outcome(values: Seq<Seq<char>>) -> Result<(Seq<char>, Order), AppError> {
    if values.len() != 2 {
        Err(AppError::InvalidSort)
    } else if values[1] == "ASC"@ {
        Ok((values[0], Order::Asc))
    } else if values[1] == "DESC"@ {
        Ok((values[0], Order::Desc))
    } else {
        Err(AppError::InvalidSortOrder)
    }
}

/// The sort that a decoded sort list names, or why it is refused.
pub fn sort_from_values(values: Vec<String>) -> (r: Result<Sort, AppError>)
    ensures
        r matches Ok(s) ==> sort_outcome(values@.map_values(|x: String| x@)) == Ok::<
            (Seq<char>, Order),
            AppError,
        >((s.field@, s.order)),
        r matches Err(e) ==> sort_outcome(values@.map_values(|x: String| x@)) == Err::<
            (Seq<char>, Order),
            AppError,
        >(e),
{
    let ghost vs = values@.map_values(|x: String| x@);
    if values.len() != 2 {
        return Err(AppError::InvalidSort);
    }
    assert(vs[1] == values@[1]@);
    assert(vs[0] == values@[0]@);
    let order = if str_eq(values[1].as_str(), "ASC") {
        Order::Asc
    } else if str_eq(values[1].as_str(), "DESC") {
        Order::Desc
    } else {
        return Err(AppError::InvalidSortOrder);
    };
    let field = values[0].clone();
    Ok(Sort { field, order })
}

impl SortParams {
    /// The sort that this parameter names, or why it is refused. Without a
    /// parameter, listings run from the newest id down.
    pub fn parse_sort(&self) -> (r: Result<Sort, AppError>)
        ensures
            self.sort is None ==> (r matches Ok(s) && s.field@ == "id"@ && s.order == Order::Desc),
            self.sort matches Some(t) ==> match json_string_list(t@) {
                None => r == Err::<Sort, AppError>(AppError::InvalidSort),
                Some(vs) => {
                    &&& r matches Ok(s) ==> sort_outcome(vs) == Ok::<(Seq<char>, Order), AppError>(
                        (s.field@, s.order),
                    )
                    &&& r matches Err(e) ==> sort_outcome(vs) == Err::<
                        (Seq<char>, Order),
                        AppError,
                    >(e)
                },
            },
    {
        match &self.sort {
            None => Ok(Sort { field: String::from_str("id"), order: Order::Desc }),
            Some(text) => match parse_string_list(text.as_str()) {
                None => Err(AppError::InvalidSort),
                Some(values) => sort_from_values(values),
            },
        }
    }
}

/// The states named by a filter's state codes; codes that name no state are
/// left out.
pub fn states_from_codes(codes: &Vec<i8>) -> (r: Vec<RequestState>)
    ensures
        r@ == codes@.filter(|c: i8| 0 <= c <= 8).map_values(|c: i8| state_of_code(c)),
{
    let mut r: Vec<RequestState> = Vec::new();
    let mut i: usize = 0;
    while i < codes.len()
        invariant
            i <= codes@.len(),
            r@ == codes@.subrange(0, i as int).filter(|c: i8| 0 <= c <= 8).map_values(
                |c: i8| state_of_code(c),
            ),
        decreases codes@.len() - i,
    {
        let ghost before = codes@.subrange(0, i as int);
        assert(codes@.subrange(0, i + 1).drop_last() =~= before);
        proof {
            reveal(Seq::filter);
        }
        match RequestState::from_code(codes[i]) {
            Some(s) => {
                r.push(s);
            },
            None => {},
        }
        i = i + 1;
        assert(r@ =~= codes@.subrange(0, i as int).filter(|c: i8| 0 <= c <= 8).map_values(
            |c: i8| state_of_code(c),
        ));
    }
    assert(codes@.subrange(0, codes@.len() as int) =~= codes@);
    r
}

/// The state stored under a code in `0..=8`.
pub open spec fn state_of_code(c: i8) -> RequestState {
    match c {
        0 => RequestState::Received,
        1 => RequestState::Created,
        2 => RequestState::Enqueued,
        3 => RequestState::Active,
        4 => RequestState::Completed,
        5 => RequestState::Failed,
        6 => RequestState::Panic,
        7 => RequestState::Timeout,
        _ => RequestState::Skipped,
    }
}

/// The body of an enqueue-now call.
#[derive(Clone, Copy, Debug, PartialEq, Eq, Structural)]
pub struct NewQueueRequest {
    pub req_id: i64,
}

/// The character of a decimal digit.
pub open spec fn digit_char(d: nat) -> char {
    if d == 0 { '0' } else if d == 1 { '1' } else if d == 2 { '2' } else if d == 3 { '3' }
    else if d == 4 { '4' } else if d == 5 { '5' } else if d == 6 { '6' } else if d == 7 { '7' }
    else if d == 8 { '8' } else { '9' }
}

/// A number in decimal, without leading zeros.
pub open spec fn decimal(n: nat) -> Seq<char>
    decreases n,
{
    if n < 10 {
        seq![digit_char(n)]
    } else {
        decimal(n / 10).push(digit_char(n % 10))
    }
}

/// An integer in decimal, with a `-` when negative.
pub open spec fn signed_decimal(n: int) -> Seq<char> {
    if n < 0 {
        seq!['-'] + decimal((-n) as nat)
    } else {
        decimal(n as nat)
    }
}

/// The `Content-Range` value for a page of `len` items out of `total`:
/// `0-<last>/<total>`, where `<last>` is the last index of the page, or 0 for
/// an empty page.
pub open spec fn content_range_text(len: nat, total: int) -> Seq<char> {
    seq!['0', '-'] + decimal(if len == 0 { 0 } else { (len - 1) as nat }) + seq!['/'] + signed_decimal(total)
}

fn digit_str(d: u64) -> (r: &'static str)
    requires
        d < 10,
    ensures
        r@ == seq![digit_char(d as nat)],
{
    proof {
        reveal_strlit("0");
        reveal_strlit("1");
        reveal_strlit("2");
        reveal_strlit("3");
        reveal_strlit("4");
        reveal_strlit("5");
        reveal_strlit("6");
        reveal_strlit("7");
        reveal_strlit("8");
        reveal_strlit("9");
    }
    let r = match d {
        0 => "0",
        1 => "1",
        2 => "2",
        3 => "3",
        4 => "4",
        5 => "5",
        6 => "6",
        7 => "7",
        8 => "8",
        _ => "9",
    };
    assert(r@ =~= seq![digit_char(d as nat)]);
    r
}

fn append_decimal(s: &mut String, n: u64)
    ensures
        final(s)@ == old(s)@ + decimal(n as nat),
    decreases n,
{
    if n >= 10 {
        append_decimal(s, n / 10);
    }
    s.append(digit_str(n % 10));
    assert(decimal(n as nat) =~= if n < 10 { seq![digit_char(n as nat)] } else { decimal((n / 10) as nat).push(digit_char((n % 10) as nat)) });
}

/// The `Content-Range` value for a page of `len` items out of `total`.
pub fn content_range(len: usize, total: i64) -> (r: String)
    ensures
        r@ == content_range_text(len as nat, total as int),
{
    proof {
        reveal_strlit("0-");
        reveal_strlit("/");
        reveal_strlit("-");
    }
    let mut r = String::from_str("0-");
    let last: u64 = if len == 0 { 0 } else { (len - 1) as u64 };
    append_decimal(&mut r, last);
    r.append("/");
    if total < 0 {
        r.append("-");
        append_decimal(&mut r, (-(total as i128)) as u64);
    } else {
        append_decimal(&mut r, total as u64);
    }
    assert(r@ =~= content_range_text(len as nat, total as int));
    r
}

} // verus!
