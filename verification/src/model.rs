//! A model of JSON documents and their indexes, and the law that a query
//! answers with the text of the primitive value at its path.
//!
//! A document holds a JSON value when its structural index lists, in
//! document order, the brackets, braces, commas and colons of the value's
//! text, and what lies between them is what the grammar puts there: a key
//! in double quotes before each `:` (white space around it allowed), and
//! each primitive's text, with any white space around it. Structural
//! characters inside strings are not listed. The pairing index holds, at
//! the rank of each opening bracket, the rank of its closing bracket.
//! Where a member's value is an array or object, it opens right after the
//! `:`. White space may come before the value, and the indexes may carry
//! padding after the value's entries: nothing is asked of the ranks past
//! the value's closing bracket.

use vstd::prelude::*;

use crate::parser::{
    char_boundary, quoted, Document, QueryError, COLON, COMMA, OPEN_BRACE, OPEN_BRACKET, QUOTE,
};
use crate::query::{
    plain_segments, render_query, parse_query_from, QuerySegment, ROOT_MARK,
    lemma_parse_query_round_trip,
};
use crate::text::{is_ws3, is_ws2_tail, trim_end_index, trim_start_index, trim_ws, ws_width_at, ws_width_before};

verus! {

/// `]`
pub const CLOSE_BRACKET: u8 = 0x5D;

/// `}`
pub const CLOSE_BRACE: u8 = 0x7D;

/// A JSON value.
pub enum JsonTree {
    /// A string, number, `true`, `false` or `null`, as its text (in a document,
    /// with any white space around it).
    Primitive(Seq<u8>),
    Array(JsonList),
    Object(JsonMembers),
}

/// The elements of an array.
pub enum JsonList {
    Nil,
    Cons(Box<JsonTree>, Box<JsonList>),
}

/// The members of an object: key (unquoted) and value.
pub enum JsonMembers {
    Nil,
    Cons(Seq<u8>, Box<JsonTree>, Box<JsonMembers>),
}

/// How many structural characters a value's text holds.
pub open spec fn tree_count(v: JsonTree) -> nat
    decreases v,
{
    match v {
        JsonTree::Primitive(_) => 0,
        JsonTree::Array(l) => 2 + list_count(l),
        JsonTree::Object(m) => 2 + members_count(m),
    }
}

/// How many structural characters the elements of an array and the commas
/// between them hold.
pub open spec fn list_count(l: JsonList) -> nat
    decreases l,
{
    match l {
        JsonList::Nil => 0,
        JsonList::Cons(h, t) => tree_count(*h) + if *t is Nil {
            0
        } else {
            1 + list_count(*t)
        },
    }
}

/// How many structural characters the members of an object and the commas
/// between them hold.
pub open spec fn members_count(m: JsonMembers) -> nat
    decreases m,
{
    match m {
        JsonMembers::Nil => 0,
        JsonMembers::Cons(_, v, t) => 1 + tree_count(*v) + if *t is Nil {
            0
        } else {
            1 + members_count(*t)
        },
    }
}

/// One of `{ } [ ] : ,`.
pub open spec fn is_structural_byte(b: u8) -> bool {
    b == COMMA || b == COLON || b == OPEN_BRACKET || b == CLOSE_BRACKET || b == OPEN_BRACE || b
        == CLOSE_BRACE
}

/// Each of the first `n` ranks of the structural index names a structural
/// character of the document, after which a character starts. Ranks past
/// `n` (padding after the value, say) are left free.
pub open spec fn ranks_name_structurals(d: Document, n: int) -> bool {
    &&& n <= d.structural.len()
    &&& forall|i: int|
        0 <= i < n ==> {
            &&& #[trigger] d.structural[i] < d.json.len()
            &&& is_structural_byte(d.json[d.structural[i] as int])
            &&& char_boundary(d.json, d.structural[i] + 1)
        }
}

/// One past the last rank that the layout of `v` at rank `r` mentions.
spec fn extent(v: JsonTree, r: int) -> int {
    if v is Primitive {
        r + 1
    } else {
        r + tree_count(v)
    }
}

/// The bytes strictly between the structural characters at ranks `i - 1`
/// and `i`.
pub open spec fn text_before(d: Document, i: int) -> Seq<u8> {
    d.json.subrange(d.structural[i - 1] + 1, d.structural[i] as int)
}

/// The document holds value `v` at rank `r`: for an array or object, the
/// rank of its opening bracket; for a primitive, the rank of the
/// structural character just after it, the primitive's text (with any
/// white space around it) being all that lies between that character and
/// the one before.
pub open spec fn placed(d: Document, v: JsonTree, r: int) -> bool
    decreases v,
{
    match v {
        JsonTree::Primitive(t) => {
            &&& 1 <= r < d.structural.len()
            &&& d.structural[r - 1] < d.structural[r]
            &&& text_before(d, r) == t
        },
        JsonTree::Array(l) => {
            &&& 0 <= r < d.structural.len()
            &&& r < d.pairs.len()
            &&& d.json[d.structural[r] as int] == OPEN_BRACKET
            &&& d.pairs[r] == r + tree_count(v) - 1
            &&& placed_list(d, l, r + 1)
        },
        JsonTree::Object(m) => {
            &&& 0 <= r < d.structural.len()
            &&& r < d.pairs.len()
            &&& d.json[d.structural[r] as int] == OPEN_BRACE
            &&& d.pairs[r] == r + tree_count(v) - 1
            &&& placed_members(d, m, r + 1)
        },
    }
}

/// The document holds the elements `l` of an array from rank `r` on (the
/// rank after the `[` or `,` before them): each element followed by `,`
/// or, the last, by `]`.
pub open spec fn placed_list(d: Document, l: JsonList, r: int) -> bool
    decreases l,
{
    match l {
        JsonList::Nil => {
            &&& 0 <= r < d.structural.len()
            &&& d.json[d.structural[r] as int] == CLOSE_BRACKET
        },
        JsonList::Cons(h, t) => {
            let sr = r + tree_count(*h);
            &&& placed(d, *h, r)
            &&& 0 <= sr < d.structural.len()
            &&& if *t is Nil {
                d.json[d.structural[sr] as int] == CLOSE_BRACKET
            } else {
                d.json[d.structural[sr] as int] == COMMA && placed_list(d, *t, sr + 1)
            }
        },
    }
}

/// The document holds the members `m` of an object from rank `r` on (the
/// rank after the `{` or `,` before them): the key in double quotes, with
/// any white space around it, then `:`, the value, and `,` or, after the
/// last, `}`. A value that is an array or object opens right after its
/// `:`, and a primitive value's text is not empty: the lookup tells the two
/// apart by whether the next structural character follows the `:` at once.
pub open spec fn placed_members(d: Document, m: JsonMembers, r: int) -> bool
    decreases m,
{
    match m {
        JsonMembers::Nil => {
            &&& 0 <= r < d.structural.len()
            &&& d.json[d.structural[r] as int] == CLOSE_BRACE
        },
        JsonMembers::Cons(k, v, t) => {
            let sr = r + 1 + tree_count(*v);
            &&& 1 <= r < d.structural.len()
            &&& d.structural[r - 1] < d.structural[r]
            &&& trim_ws(text_before(d, r)) == quoted(k)
            &&& d.json[d.structural[r] as int] == COLON
            &&& placed(d, *v, r + 1)
            &&& if *v is Primitive {
                d.structural[r] + 1 < d.structural[r + 1]
            } else {
                d.structural[r + 1] == d.structural[r] + 1
            }
            &&& 0 <= sr < d.structural.len()
            &&& if *t is Nil {
                d.json[d.structural[sr] as int] == CLOSE_BRACE
            } else {
                d.json[d.structural[sr] as int] == COMMA && placed_members(d, *t, sr + 1)
            }
        },
    }
}

/// Element `i` of an array.
pub open spec fn list_get(l: JsonList, i: nat) -> Option<JsonTree>
    decreases l,
{
    match l {
        JsonList::Nil => None,
        JsonList::Cons(h, t) => if i == 0 {
            Some(*h)
        } else {
            list_get(*t, (i - 1) as nat)
        },
    }
}

/// The value of the first member named `k`.
pub open spec fn member_get(m: JsonMembers, k: Seq<u8>) -> Option<JsonTree>
    decreases m,
{
    match m {
        JsonMembers::Nil => None,
        JsonMembers::Cons(mk, v, t) => if mk == k {
            Some(*v)
        } else {
            member_get(*t, k)
        },
    }
}

/// The text of the primitive value that the path `q` names in `v`, if
/// there is one.
pub open spec fn value_at(v: JsonTree, q: Seq<QuerySegment>) -> Option<Seq<u8>>
    decreases q.len(),
{
    if q.len() == 0 {
        match v {
            JsonTree::Primitive(t) => Some(t),
            _ => None,
        }
    } else {
        match q[0] {
            QuerySegment::ArrayIndex(i) => match v {
                JsonTree::Array(l) => match list_get(l, i as nat) {
                    Some(c) => value_at(c, q.drop_first()),
                    None => None,
                },
                _ => None,
            },
            QuerySegment::ObjectKey(k) => match v {
                JsonTree::Object(m) => match member_get(m, k) {
                    Some(c) => value_at(c, q.drop_first()),
                    None => None,
                },
                _ => None,
            },
        }
    }
}

proof fn lemma_structural_at(d: Document, n: int, i: int)
    requires
        ranks_name_structurals(d, n),
        0 <= i < n,
    ensures
        d.structural_at(i) == Ok::<u8, QueryError>(d.json[d.structural[i] as int]),
{
    assert(d.structural[i] < d.json.len());
}

proof fn lemma_between(d: Document, n: int, i: int)
    requires
        ranks_name_structurals(d, n),
        0 <= i,
        i + 1 < n,
        d.structural[i] + 1 <= d.structural[i + 1],
    ensures
        d.between(i) == Ok::<Seq<u8>, QueryError>(
            d.json.subrange(d.structural[i] + 1, d.structural[i + 1] as int),
        ),
{
    assert(d.structural[i] < d.json.len());
    assert(d.structural[i + 1] < d.json.len());
}

proof fn lemma_trim_quoted(k: Seq<u8>)
    ensures
        trim_ws(quoted(k)) == quoted(k),
{
    let s = quoted(k);
    assert(s[0] == QUOTE);
    assert(s[s.len() - 1] == QUOTE);
    assert(ws_width_at(s, 0) == 0);
    assert(trim_start_index(s, 0) == 0);
    assert(ws_width_before(s, s.len() as int) == 0) by {
        assert(!is_ws2_tail(QUOTE));
        if s.len() >= 3 {
            assert(!is_ws3(s[s.len() - 3], s[s.len() - 2], QUOTE));
        }
    }
    assert(trim_end_index(s, 0, s.len() as int) == s.len());
    assert(s.subrange(0, s.len() as int) =~= s);
}

proof fn lemma_quoted_injective(a: Seq<u8>, b: Seq<u8>)
    requires
        quoted(a) == quoted(b),
    ensures
        a == b,
{
    assert(a =~= quoted(a).subrange(1, quoted(a).len() - 1));
    assert(b =~= quoted(b).subrange(1, quoted(b).len() - 1));
}

/// The rank of a container's opening bracket leads, through the pairing
/// index, to the rank just after it.
proof fn lemma_container_jump(d: Document, n: int, v: JsonTree, r: int, sr: int)
    requires
        n <= u32::MAX + 1,
        placed(d, v, r),
        !(v is Primitive),
        sr == r + tree_count(v),
        sr < n,
    ensures
        d.jump_target(r - 1) == Ok::<int, QueryError>(sr),
{
}

/// Passing `j` elements of a laid-out array from the rank before element 0
/// reaches the rank before element `j`, which is laid out at the rank
/// returned.
proof fn lemma_skip(d: Document, n: int, l: JsonList, r: int, j: nat) -> (res: int)
    requires
        ranks_name_structurals(d, n),
        n <= u32::MAX + 1,
        placed_list(d, l, r),
        r >= 1,
        r + list_count(l) < n,
        list_get(l, j) is Some,
    ensures
        d.skip_elements(r - 1, j) == Ok::<int, QueryError>(res - 1),
        placed(d, list_get(l, j).unwrap(), res),
        res >= 1,
        extent(list_get(l, j).unwrap(), res) <= r + list_count(l) + 1,
    decreases l,
{
    match l {
        JsonList::Nil => {
            assert(false);
            0
        },
        JsonList::Cons(h, t) => {
            if j == 0 {
                r
            } else {
                let sr = r + tree_count(*h);
                assert(list_get(*t, (j - 1) as nat) is Some);
                assert(!(*t is Nil));
                lemma_structural_at(d, n, r);
                let res = lemma_skip(d, n, *t, sr + 1, (j - 1) as nat);
                match *h {
                    JsonTree::Primitive(_) => {
                        assert(d.structural_at(r) == Ok::<u8, QueryError>(COMMA));
                    },
                    JsonTree::Array(hl) => {
                        assert(placed(d, JsonTree::Array(hl), r));
                        assert(d.structural_at(r) == Ok::<u8, QueryError>(OPEN_BRACKET));
                        lemma_container_jump(d, n, *h, r, sr);
                    },
                    JsonTree::Object(hm) => {
                        assert(placed(d, JsonTree::Object(hm), r));
                        assert(d.structural_at(r) == Ok::<u8, QueryError>(OPEN_BRACE));
                        lemma_container_jump(d, n, *h, r, sr);
                    },
                }
                res
            }
        },
    }
}

/// Searching a laid-out object's members for a key it has, from the rank
/// before the first member, ends at the rank before the member with that
/// key, two ranks before its value, which is laid out at the rank
/// returned.
proof fn lemma_find(d: Document, n: int, m: JsonMembers, r: int, k: Seq<u8>, budget: nat) -> (res:
    int)
    requires
        ranks_name_structurals(d, n),
        n <= u32::MAX + 1,
        placed_members(d, m, r),
        r >= 1,
        r + members_count(m) < n,
        member_get(m, k) is Some,
        budget + r - 1 >= d.structural.len(),
    ensures
        d.find_key(r - 1, k, budget) == Ok::<int, QueryError>(res - 2),
        placed(d, member_get(m, k).unwrap(), res),
        res >= 2,
        d.structural_at(res - 1) == Ok::<u8, QueryError>(COLON),
        extent(member_get(m, k).unwrap(), res) <= r + members_count(m) + 1,
    decreases m,
{
    match m {
        JsonMembers::Nil => {
            assert(false);
            0
        },
        JsonMembers::Cons(mk, v, t) => {
            let sr = r + 1 + tree_count(*v);
            lemma_between(d, n, r - 1);
            lemma_structural_at(d, n, r);
            assert(d.key_at(r - 1) == Ok::<Seq<u8>, QueryError>(quoted(mk)));
            if mk == k {
                r + 1
            } else {
                if quoted(mk) == quoted(k) {
                    lemma_quoted_injective(mk, k);
                }
                assert(member_get(*t, k) is Some);
                assert(!(*t is Nil));
                let res = lemma_find(d, n, *t, sr + 1, k, (budget - 1) as nat);
                match *v {
                    JsonTree::Primitive(pt) => {
                        assert(sr == r + 1);
                        assert(d.member_end(r) == Ok::<int, QueryError>(sr));
                    },
                    JsonTree::Array(vl) => {
                        assert(placed(d, JsonTree::Array(vl), r + 1));
                        lemma_container_jump(d, n, *v, r + 1, sr);
                        assert(d.member_end(r) == Ok::<int, QueryError>(sr));
                    },
                    JsonTree::Object(vm) => {
                        assert(placed(d, JsonTree::Object(vm), r + 1));
                        lemma_container_jump(d, n, *v, r + 1, sr);
                        assert(d.member_end(r) == Ok::<int, QueryError>(sr));
                    },
                }
                res
            }
        },
    }
}

/// Following a path that names a primitive, from the rank where a value is
/// laid out, reaches the rank just after that primitive, where it is laid
/// out.
proof fn lemma_walk_to_value(d: Document, n: int, v: JsonTree, r: int, q: Seq<QuerySegment>) -> (res:
    int)
    requires
        ranks_name_structurals(d, n),
        n <= u32::MAX + 1,
        placed(d, v, r),
        extent(v, r) <= n,
        value_at(v, q) is Some,
    ensures
        d.walk(r, q) == Ok::<int, QueryError>(res),
        placed(d, JsonTree::Primitive(value_at(v, q).unwrap()), res),
        res < n,
    decreases q.len(),
{
    if q.len() == 0 {
        r
    } else {
        let rest = q.drop_first();
        match q[0] {
            QuerySegment::ArrayIndex(i) => {
                let l = v->Array_0;
                lemma_structural_at(d, n, r);
                let e = lemma_skip(d, n, l, r + 1, i as nat);
                lemma_structural_at(d, n, e);
                assert(d.step(r, q[0]) == Ok::<int, QueryError>(e));
                lemma_walk_to_value(d, n, list_get(l, i as nat).unwrap(), e, rest)
            },
            QuerySegment::ObjectKey(k) => {
                let m = v->Object_0;
                lemma_structural_at(d, n, r);
                let e = lemma_find(d, n, m, r + 1, k, d.structural.len());
                lemma_structural_at(d, n, e);
                assert(d.step(r, q[0]) == Ok::<int, QueryError>(e));
                lemma_walk_to_value(d, n, member_get(m, k).unwrap(), e, rest)
            },
        }
    }
}

/// A query answers with the text of the value at its path: in a document
/// that holds a JSON array or object at its first structural rank, with
/// its structural and pairing indexes, following a path that names a
/// primitive value from that rank gives the primitive's text, trimmed.
/// Where the path's keys are free of `.`, `[` and surrounding white space,
/// the query text `$` followed by `[i]` and `.k` segments splits back into
/// that path, so `run_query` on that text returns the same.
pub proof fn lemma_query_finds_value(d: Document, root: JsonTree, q: Seq<QuerySegment>)
    requires
        ranks_name_structurals(d, tree_count(root) as int),
        placed(d, root, 0),
        value_at(root, q) is Some,
    ensures
        d.query_value(0, q) == Ok::<Seq<u8>, QueryError>(trim_ws(value_at(root, q).unwrap())),
        plain_segments(q) ==> parse_query_from(seq![ROOT_MARK] + render_query(q), 0) == Some(q),
{
    let n = tree_count(root) as int;
    assert(n <= u32::MAX + 1) by {
        assert(d.pairs[0] == n - 1);
    }
    let res = lemma_walk_to_value(d, n, root, 0, q);
    let t = value_at(root, q).unwrap();
    lemma_between(d, n, res - 1);
    assert(d.between(res - 1) == Ok::<Seq<u8>, QueryError>(t));
    if plain_segments(q) {
        lemma_parse_query_round_trip(q);
    }
}

/// The JSON text of a value, with no white space outside primitives and
/// keys.
pub open spec fn render(v: JsonTree) -> Seq<u8>
    decreases v,
{
    match v {
        JsonTree::Primitive(t) => t,
        JsonTree::Array(l) => seq![OPEN_BRACKET] + render_list(l) + seq![CLOSE_BRACKET],
        JsonTree::Object(m) => seq![OPEN_BRACE] + render_members(m) + seq![CLOSE_BRACE],
    }
}

/// The text of an array's elements, separated by `,`.
pub open spec fn render_list(l: JsonList) -> Seq<u8>
    decreases l,
{
    match l {
        JsonList::Nil => Seq::empty(),
        JsonList::Cons(h, t) => render(*h) + if *t is Nil {
            Seq::empty()
        } else {
            seq![COMMA] + render_list(*t)
        },
    }
}

/// The text of an object's members (`"key":value`), separated by `,`.
pub open spec fn render_members(m: JsonMembers) -> Seq<u8>
    decreases m,
{
    match m {
        JsonMembers::Nil => Seq::empty(),
        JsonMembers::Cons(k, v, t) => quoted(k) + seq![COLON] + render(*v) + if *t is Nil {
            Seq::empty()
        } else {
            seq![COMMA] + render_members(*t)
        },
    }
}

/// No byte of `s` is a structural character.
pub open spec fn no_structural(s: Seq<u8>) -> bool {
    forall|i: int| 0 <= i < s.len() ==> !is_structural_byte(#[trigger] s[i])
}

/// A value whose primitives are non-empty and, like its keys, hold no
/// structural character outside the JSON grammar's own.
pub open spec fn well_formed(v: JsonTree) -> bool
    decreases v,
{
    match v {
        JsonTree::Primitive(t) => t.len() >= 1 && no_structural(t),
        JsonTree::Array(l) => list_well_formed(l),
        JsonTree::Object(m) => members_well_formed(m),
    }
}

/// Every element is well formed.
pub open spec fn list_well_formed(l: JsonList) -> bool
    decreases l,
{
    match l {
        JsonList::Nil => true,
        JsonList::Cons(h, t) => well_formed(*h) && list_well_formed(*t),
    }
}

/// Every key is free of structural characters and every value well formed.
pub open spec fn members_well_formed(m: JsonMembers) -> bool
    decreases m,
{
    match m {
        JsonMembers::Nil => true,
        JsonMembers::Cons(k, v, t) => no_structural(k) && well_formed(*v) && members_well_formed(
            *t,
        ),
    }
}

/// How many structural characters the first `n` bytes of `s` hold.
pub open spec fn structural_count(s: Seq<u8>, n: int) -> nat
    decreases n,
{
    if n <= 0 {
        0
    } else {
        structural_count(s, n - 1) + if is_structural_byte(s[n - 1]) {
            1nat
        } else {
            0nat
        }
    }
}

/// The structural index of `json`: one entry per structural character, in
/// document order, holding its position, and any padding after them.
pub open spec fn lists_structurals(json: Seq<u8>, structural: Seq<u32>) -> bool {
    &&& structural.len() >= structural_count(json, json.len() as int)
    &&& forall|p: int|
        0 <= p < json.len() && is_structural_byte(json[p]) ==> structural[structural_count(
            json,
            p,
        ) as int] == p
}

/// The pairing index holds, at the rank of each opening bracket of `v`
/// (whose first structural character has rank `r`), the rank of its
/// closing bracket.
pub open spec fn pairs_follow(pairs: Seq<u32>, v: JsonTree, r: int) -> bool
    decreases v,
{
    match v {
        JsonTree::Primitive(_) => true,
        JsonTree::Array(l) => {
            &&& 0 <= r < pairs.len()
            &&& pairs[r] == r + tree_count(v) - 1
            &&& pairs_follow_list(pairs, l, r + 1)
        },
        JsonTree::Object(m) => {
            &&& 0 <= r < pairs.len()
            &&& pairs[r] == r + tree_count(v) - 1
            &&& pairs_follow_members(pairs, m, r + 1)
        },
    }
}

/// The same for each element of an array, from rank `r` on.
pub open spec fn pairs_follow_list(pairs: Seq<u32>, l: JsonList, r: int) -> bool
    decreases l,
{
    match l {
        JsonList::Nil => true,
        JsonList::Cons(h, t) => pairs_follow(pairs, *h, r) && (*t is Nil || pairs_follow_list(
            pairs,
            *t,
            r + tree_count(*h) + 1,
        )),
    }
}

/// The same for each member value of an object, from rank `r` on.
pub open spec fn pairs_follow_members(pairs: Seq<u32>, m: JsonMembers, r: int) -> bool
    decreases m,
{
    match m {
        JsonMembers::Nil => true,
        JsonMembers::Cons(_, v, t) => pairs_follow(pairs, *v, r + 1) && (*t is Nil
            || pairs_follow_members(pairs, *t, r + 1 + tree_count(*v) + 1)),
    }
}

proof fn lemma_count_flat(s: Seq<u8>, a: int, b: int)
    requires
        0 <= a <= b <= s.len(),
        forall|i: int| a <= i < b ==> !is_structural_byte(#[trigger] s[i]),
    ensures
        structural_count(s, b) == structural_count(s, a),
    decreases b - a,
{
    if a < b {
        lemma_count_flat(s, a, b - 1);
    }
}

proof fn lemma_count_mono(s: Seq<u8>, a: int, b: int)
    requires
        0 <= a <= b,
    ensures
        structural_count(s, a) <= structural_count(s, b),
    decreases b - a,
{
    if a < b {
        lemma_count_mono(s, a, b - 1);
    }
}

proof fn lemma_rank_of(d: Document, p: int)
    requires
        lists_structurals(d.json, d.structural),
        0 <= p < d.json.len(),
        is_structural_byte(d.json[p]),
    ensures
        structural_count(d.json, p + 1) == structural_count(d.json, p) + 1,
        structural_count(d.json, p) < d.structural.len(),
        d.structural[structural_count(d.json, p) as int] == p,
{
    lemma_count_mono(d.json, p + 1, d.json.len() as int);
}

proof fn lemma_chunk(s: Seq<u8>, o: int, x: Seq<u8>, y: Seq<u8>)
    requires
        0 <= o,
        o + x.len() + y.len() <= s.len(),
        s.subrange(o, o + x.len() + y.len()) == x + y,
    ensures
        s.subrange(o, o + x.len()) == x,
        s.subrange(o + x.len(), o + x.len() + y.len()) == y,
{
    assert(s.subrange(o, o + x.len()) =~= x) by {
        assert forall|i: int| 0 <= i < x.len() implies s.subrange(o, o + x.len())[i] == x[i] by {
            assert(s.subrange(o, o + x.len() + y.len())[i] == (x + y)[i]);
        }
    }
    assert(s.subrange(o + x.len(), o + x.len() + y.len()) =~= y) by {
        assert forall|i: int| 0 <= i < y.len() implies s.subrange(
            o + x.len(),
            o + x.len() + y.len(),
        )[i] == y[i] by {
            let w = s.subrange(o, o + x.len() + y.len());
            assert(w[x.len() + i] == (x + y)[x.len() + i]);
            assert((x + y)[x.len() + i] == y[i]);
            assert(w[x.len() + i] == s[o + x.len() + i]);
        }
    }
}

proof fn lemma_byte(s: Seq<u8>, o: int, x: Seq<u8>, i: int)
    requires
        0 <= o,
        o + x.len() <= s.len(),
        s.subrange(o, o + x.len()) == x,
        0 <= i < x.len(),
    ensures
        s[o + i] == x[i],
{
    assert(s.subrange(o, o + x.len())[i] == s[o + i]);
}

proof fn lemma_render_placed(d: Document, v: JsonTree, o: int)
    requires
        well_formed(v),
        lists_structurals(d.json, d.structural),
        0 <= o,
        o + render(v).len() <= d.json.len(),
        d.json.subrange(o, o + render(v).len()) == render(v),
        pairs_follow(d.pairs, v, structural_count(d.json, o) as int),
        v is Primitive ==> {
            &&& o >= 1
            &&& is_structural_byte(d.json[o - 1])
            &&& o + render(v).len() < d.json.len()
            &&& is_structural_byte(d.json[o + render(v).len()])
        },
    ensures
        placed(d, v, structural_count(d.json, o) as int),
        structural_count(d.json, o + render(v).len()) == structural_count(d.json, o) + tree_count(
            v,
        ),
        d.structural[structural_count(d.json, o) as int] == if v is Primitive {
            o + render(v).len()
        } else {
            o
        },
    decreases v,
{
    let j = d.json;
    match v {
        JsonTree::Primitive(t) => {
            assert forall|i: int| o <= i < o + t.len() implies !is_structural_byte(#[trigger] j[i]) by {
                lemma_byte(j, o, t, i - o);
            }
            lemma_count_flat(j, o, o + t.len());
            lemma_rank_of(d, o - 1);
            lemma_rank_of(d, o + t.len());
        },
        JsonTree::Array(l) => {
            let rl = render_list(l);
            assert(render(v) == seq![OPEN_BRACKET] + rl + seq![CLOSE_BRACKET]);
            lemma_chunk(j, o, seq![OPEN_BRACKET] + rl, seq![CLOSE_BRACKET]);
            lemma_chunk(j, o, seq![OPEN_BRACKET], rl);
            lemma_byte(j, o, seq![OPEN_BRACKET], 0);
            lemma_byte(j, o + 1 + rl.len(), seq![CLOSE_BRACKET], 0);
            lemma_rank_of(d, o);
            lemma_render_list_placed(d, l, o + 1);
            lemma_rank_of(d, o + 1 + rl.len());
        },
        JsonTree::Object(m) => {
            let rm = render_members(m);
            assert(render(v) == seq![OPEN_BRACE] + rm + seq![CLOSE_BRACE]);
            lemma_chunk(j, o, seq![OPEN_BRACE] + rm, seq![CLOSE_BRACE]);
            lemma_chunk(j, o, seq![OPEN_BRACE], rm);
            lemma_byte(j, o, seq![OPEN_BRACE], 0);
            lemma_byte(j, o + 1 + rm.len(), seq![CLOSE_BRACE], 0);
            lemma_rank_of(d, o);
            lemma_render_members_placed(d, m, o + 1);
            lemma_rank_of(d, o + 1 + rm.len());
        },
    }
}

proof fn lemma_render_list_placed(d: Document, l: JsonList, o: int)
    requires
        list_well_formed(l),
        lists_structurals(d.json, d.structural),
        1 <= o,
        is_structural_byte(d.json[o - 1]),
        o + render_list(l).len() < d.json.len(),
        d.json.subrange(o, o + render_list(l).len()) == render_list(l),
        d.json[o + render_list(l).len()] == CLOSE_BRACKET,
        pairs_follow_list(d.pairs, l, structural_count(d.json, o) as int),
    ensures
        placed_list(d, l, structural_count(d.json, o) as int),
        structural_count(d.json, o + render_list(l).len()) == structural_count(d.json, o)
            + list_count(l),
    decreases l,
{
    let j = d.json;
    match l {
        JsonList::Nil => {
            lemma_rank_of(d, o);
        },
        JsonList::Cons(h, t) => {
            let rh = render(*h);
            let rest = if *t is Nil {
                Seq::empty()
            } else {
                seq![COMMA] + render_list(*t)
            };
            assert(render_list(l) == rh + rest);
            lemma_chunk(j, o, rh, rest);
            let so = o + rh.len();
            if *t is Nil {
                assert(rest.len() == 0);
            } else {
                lemma_chunk(j, so, seq![COMMA], render_list(*t));
                lemma_byte(j, so, seq![COMMA], 0);
            }
            lemma_render_placed(d, *h, o);
            lemma_rank_of(d, so);
            if !(*t is Nil) {
                lemma_render_list_placed(d, *t, so + 1);
            }
        },
    }
}

proof fn lemma_render_members_placed(d: Document, m: JsonMembers, o: int)
    requires
        members_well_formed(m),
        lists_structurals(d.json, d.structural),
        1 <= o,
        is_structural_byte(d.json[o - 1]),
        o + render_members(m).len() < d.json.len(),
        d.json.subrange(o, o + render_members(m).len()) == render_members(m),
        d.json[o + render_members(m).len()] == CLOSE_BRACE,
        pairs_follow_members(d.pairs, m, structural_count(d.json, o) as int),
    ensures
        placed_members(d, m, structural_count(d.json, o) as int),
        structural_count(d.json, o + render_members(m).len()) == structural_count(d.json, o)
            + members_count(m),
    decreases m,
{
    let j = d.json;
    let r = structural_count(j, o) as int;
    match m {
        JsonMembers::Nil => {
            lemma_rank_of(d, o);
        },
        JsonMembers::Cons(k, v, t) => {
            let qk = quoted(k);
            let rv = render(*v);
            let rest = if *t is Nil {
                Seq::empty()
            } else {
                seq![COMMA] + render_members(*t)
            };
            assert(render_members(m) == qk + seq![COLON] + rv + rest);
            lemma_chunk(j, o, qk + seq![COLON] + rv, rest);
            lemma_chunk(j, o, qk + seq![COLON], rv);
            lemma_chunk(j, o, qk, seq![COLON]);
            let c = o + k.len() + 2;
            lemma_byte(j, c, seq![COLON], 0);
            assert forall|i: int| o <= i < c implies !is_structural_byte(#[trigger] j[i]) by {
                lemma_byte(j, o, qk, i - o);
                if 1 <= i - o <= k.len() {
                    assert(qk[i - o] == k[i - o - 1]);
                }
            }
            lemma_count_flat(j, o, c);
            lemma_rank_of(d, o - 1);
            lemma_rank_of(d, c);
            lemma_trim_quoted(k);
            assert(text_before(d, r) == qk);
            let so = c + 1 + rv.len();
            if *t is Nil {
                assert(rest.len() == 0);
            } else {
                lemma_chunk(j, so, seq![COMMA], render_members(*t));
                lemma_byte(j, so, seq![COMMA], 0);
            }
            lemma_render_placed(d, *v, c + 1);
            lemma_rank_of(d, so);
            if !(*t is Nil) {
                lemma_render_members_placed(d, *t, so + 1);
            }
            assert(placed(d, *v, r + 1));
            assert(structural_count(j, c + 1) == r + 1);
            assert(d.structural[r] == c);
            match *v {
                JsonTree::Primitive(pt) => {
                    assert(rv == pt);
                    assert(pt.len() >= 1);
                },
                _ => {},
            }
        },
    }
}

/// The JSON text of a well-formed array or object, with anything free of
/// structural characters (white space, say) before and after it, and with
/// its structural index (padding allowed after its entries) and its pairing
/// index, holds the value at its first structural rank.
pub proof fn lemma_rendered_json_holds_value(d: Document, root: JsonTree, lead: Seq<u8>, trail: Seq<
    u8,
>)
    requires
        !(root is Primitive),
        well_formed(root),
        no_structural(lead),
        no_structural(trail),
        d.json == lead + render(root) + trail,
        lists_structurals(d.json, d.structural),
        pairs_follow(d.pairs, root, 0),
    ensures
        placed(d, root, 0),
{
    let o = lead.len() as int;
    let j = d.json;
    assert(j.subrange(o, o + render(root).len()) =~= render(root));
    assert forall|i: int| 0 <= i < o implies !is_structural_byte(#[trigger] j[i]) by {
        assert(j[i] == lead[i]);
    }
    lemma_count_flat(j, 0, o);
    lemma_render_placed(d, root, o);
}

/// A query on JSON text answers with the value at its path: for the text of
/// a well-formed array or object, with anything free of structural
/// characters before and after it, with its structural and pairing indexes
/// (the structural index may carry padding after its entries; after each
/// structural character a new character starts, as in any UTF-8 text),
/// following a path that names a primitive from the first rank gives that
/// primitive's text, trimmed.
pub proof fn lemma_query_on_json_text(
    d: Document,
    root: JsonTree,
    lead: Seq<u8>,
    trail: Seq<u8>,
    q: Seq<QuerySegment>,
)
    requires
        !(root is Primitive),
        well_formed(root),
        no_structural(lead),
        no_structural(trail),
        d.json == lead + render(root) + trail,
        lists_structurals(d.json, d.structural),
        ranks_name_structurals(d, tree_count(root) as int),
        pairs_follow(d.pairs, root, 0),
        value_at(root, q) is Some,
    ensures
        d.query_value(0, q) == Ok::<Seq<u8>, QueryError>(trim_ws(value_at(root, q).unwrap())),
{
    lemma_rendered_json_holds_value(d, root, lead, trail);
    lemma_query_finds_value(d, root, q);
}
} // verus!
