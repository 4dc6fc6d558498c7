//! Path queries such as `$.a.b[0]`: their segments and how a query string is
//! split into them.

use vstd::prelude::*;

use crate::parser::QueryError;
use crate::text::slice_range;
use crate::text::{
    all_digits, decimal_value, is_digit, parse_u32, parse_u32_spec, trim_end_index,
    trim_start_index, trim_whitespace, trim_ws, ws_width_at, ws_width_before,
};

verus! {

/// One segment of a path query.
#[derive(Debug, PartialEq, Eq)]
pub enum QueryKey {
    /// `[i]`: the element at position `i` of an array.
    ArrayIndex(u32),
    /// `.k`: the value under key `k` of an object (the key's bytes, unquoted).
    ObjectKey(Vec<u8>),
}

/// The mathematical value of a [`QueryKey`].
pub enum QuerySegment {
    ArrayIndex(u32),
    ObjectKey(Seq<u8>),
}

impl View for QueryKey {
    type V = QuerySegment;

    open spec fn view(&self) -> QuerySegment {
        match self {
            QueryKey::ArrayIndex(i) => QuerySegment::ArrayIndex(*i),
            QueryKey::ObjectKey(k) => QuerySegment::ObjectKey(k@),
        }
    }
}

/// The segments of a sequence of query keys.
pub open spec fn segments(q: Seq<QueryKey>) -> Seq<QuerySegment> {
    q.map_values(|k: QueryKey| k@)
}


/// `[`
pub const INDEX_OPEN: u8 = 0x5B;

/// `]`
pub const INDEX_CLOSE: u8 = 0x5D;

/// `.`
pub const KEY_MARK: u8 = 0x2E;

/// First position at or after `i` holding `]`, or the end of `q`.
pub open spec fn index_end(q: Seq<u8>, i: int) -> int
    decreases q.len() - i,
{
    if i < 0 || i >= q.len() || q[i] == INDEX_CLOSE {
        i
    } else {
        index_end(q, i + 1)
    }
}

/// First position at or after `i` holding `.` or `[`, or the end of `q`.
pub open spec fn key_end(q: Seq<u8>, i: int) -> int
    decreases q.len() - i,
{
    if i < 0 || i >= q.len() || q[i] == KEY_MARK || q[i] == INDEX_OPEN {
        i
    } else {
        key_end(q, i + 1)
    }
}

pub proof fn lemma_index_end_bounds(q: Seq<u8>, i: int)
    requires
        0 <= i <= q.len(),
    ensures
        i <= index_end(q, i) <= q.len(),
    decreases q.len() - i,
{
    if i < q.len() && q[i] != INDEX_CLOSE {
        lemma_index_end_bounds(q, i + 1);
    }
}

pub proof fn lemma_key_end_bounds(q: Seq<u8>, i: int)
    requires
        0 <= i <= q.len(),
    ensures
        i <= key_end(q, i) <= q.len(),
    decreases q.len() - i,
{
    if i < q.len() && q[i] != KEY_MARK && q[i] != INDEX_OPEN {
        lemma_key_end_bounds(q, i + 1);
    }
}

/// `p` followed by the segments in `o`, if there are any.
pub open spec fn prepend_segments(p: Seq<QuerySegment>, o: Option<Seq<QuerySegment>>) -> Option<
    Seq<QuerySegment>,
> {
    match o {
        Some(rest) => Some(p + rest),
        None => None,
    }
}

/// The segments of the query text `q` from position `i` on: `[` opens an
/// array index that runs to the next `]` (trimmed, then read as a decimal
/// `u32`); `.` opens an object key that runs to the next `.` or `[`
/// (trimmed); every other byte is passed over. `None` when an array index
/// is not a decimal `u32`.
pub open spec fn parse_query_from(q: Seq<u8>, i: int) -> Option<Seq<QuerySegment>>
    decreases q.len() - i,
{
    if i < 0 || i >= q.len() {
        Some(Seq::empty())
    } else if q[i] == INDEX_OPEN {
        let e = index_end(q, i + 1);
        proof {
            lemma_index_end_bounds(q, i + 1);
        }
        match parse_u32_spec(trim_ws(q.subrange(i + 1, e))) {
            None => None,
            Some(n) => prepend_segments(
                seq![QuerySegment::ArrayIndex(n)],
                parse_query_from(q, e),
            ),
        }
    } else if q[i] == KEY_MARK {
        let e = key_end(q, i + 1);
        proof {
            lemma_key_end_bounds(q, i + 1);
        }
        prepend_segments(
            seq![QuerySegment::ObjectKey(trim_ws(q.subrange(i + 1, e)))],
            parse_query_from(q, e),
        )
    } else {
        parse_query_from(q, i + 1)
    }
}

proof fn lemma_prepend_assoc(a: Seq<QuerySegment>, b: Seq<QuerySegment>, o: Option<Seq<QuerySegment>>)
    ensures
        prepend_segments(a, prepend_segments(b, o)) == prepend_segments(a + b, o),
{
    if let Some(rest) = o {
        assert(a + (b + rest) =~= (a + b) + rest);
    }
}

/// Splits a query such as `$.a.b[0]` into its segments: `[i]` is an array
/// index, `.k` an object key; the root marker `$` and anything else outside
/// a segment is passed over. Fails with `InvalidArrayIndex` exactly when an
/// array index is not a decimal `u32`.
pub fn parse_query(query: &[u8]) -> (r: Result<Vec<QueryKey>, QueryError>)
    ensures
        match parse_query_from(query@, 0) {
            Some(s) => r is Ok && segments(r->Ok_0@) == s,
            None => r == Err::<Vec<QueryKey>, QueryError>(QueryError::InvalidArrayIndex),
        },
{
    let n = query.len();
    let mut parsed_query: Vec<QueryKey> = Vec::new();
    let mut i: usize = 0;
    assert(segments(parsed_query@) =~= Seq::<QuerySegment>::empty());
    assert(prepend_segments(Seq::empty(), parse_query_from(query@, 0)) == parse_query_from(query@, 0)) by {
        if let Some(rest) = parse_query_from(query@, 0) {
            assert(Seq::<QuerySegment>::empty() + rest =~= rest);
        }
    }
    while i < n
        invariant
            i <= n,
            n == query@.len(),
            parse_query_from(query@, 0) == prepend_segments(
                segments(parsed_query@),
                parse_query_from(query@, i as int),
            ),
        decreases n - i,
    {
        let current_char = query[i];
        if current_char == INDEX_OPEN {
            let start = i + 1;
            let mut e = start;
            while e < n && query[e] != INDEX_CLOSE
                invariant
                    start <= e <= n,
                    n == query@.len(),
                    index_end(query@, e as int) == index_end(query@, start as int),
                decreases n - e,
            {
                e = e + 1;
            }
            let text = trim_whitespace(slice_range(query, start, e));
            match parse_u32(text) {
                None => {
                    return Err(QueryError::InvalidArrayIndex);
                },
                Some(index) => {
                    let ghost before = segments(parsed_query@);
                    parsed_query.push(QueryKey::ArrayIndex(index));
                    proof {
                        assert(segments(parsed_query@) =~= before + seq![
                            QuerySegment::ArrayIndex(index),
                        ]);
                        lemma_prepend_assoc(
                            before,
                            seq![QuerySegment::ArrayIndex(index)],
                            parse_query_from(query@, e as int),
                        );
                    }
                },
            }
            i = e;
        } else if current_char == KEY_MARK {
            let start = i + 1;
            let mut e = start;
            while e < n && query[e] != KEY_MARK && query[e] != INDEX_OPEN
                invariant
                    start <= e <= n,
                    n == query@.len(),
                    key_end(query@, e as int) == key_end(query@, start as int),
                decreases n - e,
            {
                e = e + 1;
            }
            let key = vstd::slice::slice_to_vec(trim_whitespace(slice_range(query, start, e)));
            let ghost before = segments(parsed_query@);
            let ghost seg = QuerySegment::ObjectKey(key@);
            parsed_query.push(QueryKey::ObjectKey(key));
            proof {
                assert(segments(parsed_query@) =~= before + seq![seg]);
                lemma_prepend_assoc(before, seq![seg], parse_query_from(query@, e as int));
            }
            i = e;
        } else {
            i = i + 1;
        }
    }
    proof {
        if let Some(rest) = parse_query_from(query@, 0) {
            assert(segments(parsed_query@) + Seq::<QuerySegment>::empty() =~= segments(parsed_query@));
        }
    }
    Ok(parsed_query)
}

/// `$`
pub const ROOT_MARK: u8 = 0x24;

/// The decimal digits of `n`, most significant first, without leading
/// zeros.
pub open spec fn decimal_digits(n: nat) -> Seq<u8>
    decreases n,
{
    if n < 10 {
        seq![(n + 0x30) as u8]
    } else {
        decimal_digits(n / 10).push(((n % 10) + 0x30) as u8)
    }
}

/// The query text of one segment: `[i]` or `.k`.
pub open spec fn render_segment(s: QuerySegment) -> Seq<u8> {
    match s {
        QuerySegment::ArrayIndex(i) => seq![INDEX_OPEN] + decimal_digits(i as nat) + seq![
            INDEX_CLOSE,
        ],
        QuerySegment::ObjectKey(k) => seq![KEY_MARK] + k,
    }
}

/// The query text of a sequence of segments, one after the other.
pub open spec fn render_query(q: Seq<QuerySegment>) -> Seq<u8>
    decreases q.len(),
{
    if q.len() == 0 {
        Seq::empty()
    } else {
        render_segment(q[0]) + render_query(q.drop_first())
    }
}

/// A key that can be written in a query as it is: no `.` or `[` in it, and
/// no white space around it.
pub open spec fn plain_key(k: Seq<u8>) -> bool {
    &&& forall|i: int| 0 <= i < k.len() ==> #[trigger] k[i] != KEY_MARK && k[i] != INDEX_OPEN
    &&& trim_ws(k) == k
}

/// Every key among the segments is plain.
pub open spec fn plain_segments(q: Seq<QuerySegment>) -> bool {
    forall|i: int|
        0 <= i < q.len() ==> (#[trigger] q[i] matches QuerySegment::ObjectKey(k) ==> plain_key(k))
}

proof fn lemma_decimal_digits(n: nat)
    ensures
        decimal_digits(n).len() >= 1,
        all_digits(decimal_digits(n)),
        decimal_value(decimal_digits(n)) == n,
    decreases n,
{
    let s = decimal_digits(n);
    if n >= 10 {
        lemma_decimal_digits(n / 10);
        assert(s.drop_last() =~= decimal_digits(n / 10));
        vstd::arithmetic::div_mod::lemma_fundamental_div_mod(n as int, 10);
        vstd::arithmetic::div_mod::lemma_mod_bound(n as int, 10);
        assert(s.last() == ((n % 10) + 0x30) as u8);
        assert(decimal_value(s) == decimal_value(decimal_digits(n / 10)) * 10 + (n % 10));
        assert forall|i: int| 0 <= i < s.len() implies is_digit(#[trigger] s[i]) by {
            if i < s.len() - 1 {
                assert(s[i] == decimal_digits(n / 10)[i]);
            }
        }
    } else {
        assert(s.drop_last() =~= Seq::<u8>::empty());
        assert(decimal_value(Seq::<u8>::empty()) == 0);
    }
}

proof fn lemma_trim_digits(s: Seq<u8>)
    requires
        s.len() >= 1,
        all_digits(s),
    ensures
        trim_ws(s) == s,
{
    assert(is_digit(s[0]));
    assert(is_digit(s[s.len() - 1]));
    assert(ws_width_at(s, 0) == 0);
    assert(trim_start_index(s, 0) == 0);
    if s.len() >= 2 {
        assert(is_digit(s[s.len() - 2]));
    }
    if s.len() >= 3 {
        assert(is_digit(s[s.len() - 3]));
    }
    assert(ws_width_before(s, s.len() as int) == 0);
    assert(trim_end_index(s, 0, s.len() as int) == s.len());
    assert(s.subrange(0, s.len() as int) =~= s);
}

proof fn lemma_index_end_over(t: Seq<u8>, i: int, k: int)
    requires
        0 <= i <= k < t.len(),
        t[k] == INDEX_CLOSE,
        forall|j: int| i <= j < k ==> #[trigger] t[j] != INDEX_CLOSE,
    ensures
        index_end(t, i) == k,
    decreases k - i,
{
    if i < k {
        lemma_index_end_over(t, i + 1, k);
    }
}

proof fn lemma_key_end_over(t: Seq<u8>, i: int, k: int)
    requires
        0 <= i <= k <= t.len(),
        k < t.len() ==> t[k] == KEY_MARK || t[k] == INDEX_OPEN,
        forall|j: int| i <= j < k ==> #[trigger] t[j] != KEY_MARK && t[j] != INDEX_OPEN,
    ensures
        key_end(t, i) == k,
    decreases k - i,
{
    if i < k {
        lemma_key_end_over(t, i + 1, k);
    }
}

proof fn lemma_render_starts_with_mark(q: Seq<QuerySegment>)
    requires
        q.len() > 0,
    ensures
        render_query(q).len() > 0,
        render_query(q)[0] == KEY_MARK || render_query(q)[0] == INDEX_OPEN,
{
    match q[0] {
        QuerySegment::ArrayIndex(_) => {},
        QuerySegment::ObjectKey(_) => {},
    }
}

proof fn lemma_parse_rendered_from(t: Seq<u8>, i: int, q: Seq<QuerySegment>)
    requires
        0 <= i <= t.len(),
        t.subrange(i, t.len() as int) == render_query(q),
        plain_segments(q),
    ensures
        parse_query_from(t, i) == Some(q),
    decreases q.len(),
{
    if q.len() == 0 {
        assert(t.subrange(i, t.len() as int).len() == 0);
        assert(q =~= Seq::<QuerySegment>::empty());
    } else {
        let rest = q.drop_first();
        let head = render_segment(q[0]);
        let full = render_query(q);
        assert(full == head + render_query(rest));
        assert(full.len() == t.len() - i);
        assert forall|j: int| 0 <= j < full.len() implies #[trigger] t[i + j] == full[j] by {
            assert(t.subrange(i, t.len() as int)[j] == t[i + j]);
        }
        assert forall|j: int| 0 <= j < head.len() implies #[trigger] full[j] == head[j] by {}
        assert(plain_segments(rest)) by {
            assert forall|j: int| 0 <= j < rest.len() implies (#[trigger] rest[j]
                matches QuerySegment::ObjectKey(k) ==> plain_key(k)) by {
                assert(rest[j] == q[j + 1]);
            }
        }
        assert(q =~= seq![q[0]] + rest);
        match q[0] {
            QuerySegment::ArrayIndex(n) => {
                let digits = decimal_digits(n as nat);
                lemma_decimal_digits(n as nat);
                let e = i + 1 + digits.len();
                assert(t[i + 0] == full[0]);
                assert(full[0] == head[0]);
                assert forall|j: int| i + 1 <= j < e implies #[trigger] t[j] != INDEX_CLOSE by {
                    assert(t[i + (j - i)] == full[j - i]);
                    assert(full[j - i] == head[j - i]);
                    assert(head[j - i] == digits[j - i - 1]);
                    assert(is_digit(digits[j - i - 1]));
                }
                assert(t[i + (e - i)] == full[e - i]);
                assert(full[e - i] == head[e - i]);
                lemma_index_end_over(t, i + 1, e);
                assert(t.subrange(i + 1, e) =~= digits) by {
                    assert forall|j: int| 0 <= j < digits.len() implies t.subrange(i + 1, e)[j]
                        == digits[j] by {
                        assert(t[i + (1 + j)] == full[1 + j]);
                        assert(full[1 + j] == head[1 + j]);
                    }
                }
                lemma_trim_digits(digits);
                assert(parse_u32_spec(digits) == Some(n)) by {
                    assert(is_digit(digits[0]));
                }
                assert(t.subrange(e + 1, t.len() as int) =~= render_query(rest)) by {
                    assert forall|j: int| 0 <= j < render_query(rest).len() implies t.subrange(
                        e + 1,
                        t.len() as int,
                    )[j] == render_query(rest)[j] by {
                        assert(t[i + (e + 1 + j - i)] == full[e + 1 + j - i]);
                    }
                }
                lemma_parse_rendered_from(t, e + 1, rest);
                if e < t.len() {
                    assert(parse_query_from(t, e) == parse_query_from(t, e + 1));
                }
            },
            QuerySegment::ObjectKey(k) => {
                assert(plain_key(k)) by {
                    assert(q[0] matches QuerySegment::ObjectKey(k2) ==> plain_key(k2));
                }
                let e = i + 1 + k.len();
                assert(t[i + 0] == full[0]);
                assert(full[0] == head[0]);
                assert forall|j: int| i + 1 <= j < e implies #[trigger] t[j] != KEY_MARK && t[j]
                    != INDEX_OPEN by {
                    assert(t[i + (j - i)] == full[j - i]);
                    assert(full[j - i] == head[j - i]);
                    assert(head[j - i] == k[j - i - 1]);
                }
                assert(t.subrange(e, t.len() as int) =~= render_query(rest)) by {
                    assert forall|j: int| 0 <= j < render_query(rest).len() implies t.subrange(
                        e,
                        t.len() as int,
                    )[j] == render_query(rest)[j] by {
                        assert(t[i + (e + j - i)] == full[e + j - i]);
                    }
                }
                if e < t.len() {
                    lemma_render_starts_with_mark(rest);
                    assert(t[i + (e - i)] == full[e - i]);
                }
                lemma_key_end_over(t, i + 1, e);
                assert(t.subrange(i + 1, e) =~= k) by {
                    assert forall|j: int| 0 <= j < k.len() implies t.subrange(i + 1, e)[j] == k[j] by {
                        assert(t[i + (1 + j)] == full[1 + j]);
                        assert(full[1 + j] == head[1 + j]);
                    }
                }
                lemma_parse_rendered_from(t, e, rest);
            },
        }
    }
}

/// Splitting the text of a query gives back its segments: `$` followed by
/// `[i]` for each array index (in decimal) and `.k` for each key, with keys
/// free of `.`, `[` and surrounding white space.
pub proof fn lemma_parse_query_round_trip(q: Seq<QuerySegment>)
    requires
        plain_segments(q),
    ensures
        parse_query_from(seq![ROOT_MARK] + render_query(q), 0) == Some(q),
{
    let t = seq![ROOT_MARK] + render_query(q);
    assert(t.subrange(1, t.len() as int) =~= render_query(q));
    lemma_parse_rendered_from(t, 1, q);
}

} // verus!
