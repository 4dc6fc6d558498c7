//! The query engine: walks the structural index (byte positions of the
//! structural characters `{ } [ ] : ,` outside strings) and the pairing index
//! (for an opening bracket, the rank of its closing bracket) of a JSON
//! document to find the value a path query names.

use vstd::prelude::*;

use crate::query::{parse_query, parse_query_from, segments, QueryKey, QuerySegment};
use crate::text::{slice_range, trim_quotes, trim_quotes_spec, trim_whitespace, trim_ws};
use vstd::string::StringSliceAdditionalSpecFns;

verus! {

/// `,`
pub const COMMA: u8 = 0x2C;

/// `:`
pub const COLON: u8 = 0x3A;

/// `[`
pub const OPEN_BRACKET: u8 = 0x5B;

/// `{`
pub const OPEN_BRACE: u8 = 0x7B;

/// `"`
pub const QUOTE: u8 = 0x22;

/// Why a query could not be answered.
#[derive(Debug, Clone, Copy, PartialEq, Eq)]
pub enum QueryError {
    /// A rank past the end of the structural or pairing index, a byte
    /// position past the end of the document, or a reversed byte range.
    IndexOutOfRange,
    /// A byte range of the document starts or ends inside a multi-byte
    /// character.
    NotCharBoundary,
    /// The structural character at the current rank is not `:`.
    ExpectedColon { found: u8 },
    /// The structural character at the current rank is not `[`.
    ExpectedBracket { found: u8 },
    /// The structural character at the current rank is not `{`.
    ExpectedBrace { found: u8 },
    /// Inside an array, the next structural character is neither `,` nor an
    /// opening bracket.
    UnexpectedStructural { found: u8 },
    /// The structural position after a `:` lies before the `:` itself.
    DecreasingStructuralIndex,
    /// A pairing entry is `u32::MAX`, so the rank after it does not fit.
    PairingOverflow,
    /// The search for a key has come back to a rank it already passed, so it
    /// would never end.
    KeySearchCycles,
    /// There is no structural character before the current one to read a
    /// value after.
    NoPrecedingStructural,
    /// An array index in the query is not a decimal `u32`.
    InvalidArrayIndex,
}

/// A continuation byte of UTF-8 (`10xxxxxx`).
pub open spec fn is_continuation(b: u8) -> bool {
    0x80 <= b && b < 0xC0
}

/// Whether byte position `p` of `s` is a character boundary, as
/// `str::is_char_boundary` decides it.
pub open spec fn char_boundary(s: Seq<u8>, p: int) -> bool {
    p == 0 || p == s.len() || (0 <= p < s.len() && !is_continuation(s[p]))
}

/// Why the byte range `a..b` of `s` cannot be sliced out as a `str`, if it
/// cannot.
pub open spec fn slice_error(s: Seq<u8>, a: int, b: int) -> Option<QueryError> {
    if a > b || b > s.len() {
        Some(QueryError::IndexOutOfRange)
    } else if !char_boundary(s, a) || !char_boundary(s, b) {
        Some(QueryError::NotCharBoundary)
    } else {
        None
    }
}

/// A key as it appears in the document: between double quotes.
pub open spec fn quoted(key: Seq<u8>) -> Seq<u8> {
    seq![QUOTE] + key + seq![QUOTE]
}

/// A document with its structural and pairing indexes, and a cursor (a rank
/// in the structural index).
pub struct Parser {
    /// The JSON document, UTF-8 encoded.
    pub json_string: Vec<u8>,
    /// Byte position of each structural character, in document order.
    pub structural_indexes: Vec<u32>,
    /// For each rank that holds an opening bracket, the rank of the matching
    /// closing bracket.
    pub open_close_pairs: Vec<u32>,
    /// The cursor.
    pub current_structural_index: usize,
}

impl Parser {
    /// The document and indexes this parser walks.
    pub open spec fn doc(self) -> Document {
        Document {
            json: self.json_string@,
            structural: self.structural_indexes@,
            pairs: self.open_close_pairs@,
        }
    }
}

/// A document with its structural and pairing indexes, as sequences.
pub struct Document {
    pub json: Seq<u8>,
    pub structural: Seq<u32>,
    pub pairs: Seq<u32>,
}

impl Document {

    /// The structural character at rank `i`.
    pub open spec fn structural_at(self, i: int) -> Result<u8, QueryError> {
        if !(0 <= i < self.structural.len()) {
            Err(QueryError::IndexOutOfRange)
        } else {
            let b = self.structural[i] as int;
            match slice_error(self.json, b, b + 1) {
                Some(e) => Err(e),
                None => Ok(self.json[b]),
            }
        }
    }

    /// The bytes strictly between the structural characters at ranks `i`
    /// and `i + 1`.
    pub open spec fn between(self, i: int) -> Result<Seq<u8>, QueryError> {
        if !(0 <= i && i + 1 < self.structural.len()) {
            Err(QueryError::IndexOutOfRange)
        } else {
            let a = self.structural[i] + 1;
            let b = self.structural[i + 1] as int;
            match slice_error(self.json, a, b) {
                Some(e) => Err(e),
                None => Ok(self.json.subrange(a, b)),
            }
        }
    }

    /// The key text after the structural character at rank `i`, trimmed.
    pub open spec fn key_at(self, i: int) -> Result<Seq<u8>, QueryError> {
        match self.between(i) {
            Ok(s) => Ok(trim_ws(s)),
            Err(e) => Err(e),
        }
    }

    /// The rank just past the closing bracket paired with rank `i + 1`.
    pub open spec fn jump_target(self, i: int) -> Result<int, QueryError> {
        if !(0 <= i + 1 < self.pairs.len()) {
            Err(QueryError::IndexOutOfRange)
        } else if self.pairs[i + 1] == u32::MAX {
            Err(QueryError::PairingOverflow)
        } else {
            Ok(self.pairs[i + 1] + 1)
        }
    }

    /// From rank `cur` (an array's `[` or one of its `,`), the rank reached
    /// after passing `remaining` elements: a primitive element is passed by
    /// its following `,`, a nested one by jumping past its closing bracket.
    pub open spec fn skip_elements(self, cur: int, remaining: nat) -> Result<int, QueryError>
        decreases remaining,
    {
        if remaining == 0 {
            Ok(cur)
        } else {
            match self.structural_at(cur + 1) {
                Err(e) => Err(e),
                Ok(c) => if c == COMMA {
                    self.skip_elements(cur + 1, (remaining - 1) as nat)
                } else if c == OPEN_BRACE || c == OPEN_BRACKET {
                    match self.jump_target(cur) {
                        Err(e) => Err(e),
                        Ok(t) => self.skip_elements(t, (remaining - 1) as nat),
                    }
                } else {
                    Err(QueryError::UnexpectedStructural { found: c })
                },
            }
        }
    }

    /// The rank reached by the segment `[index]` from rank `cur`.
    pub open spec fn array_step(self, cur: int, index: u32) -> Result<int, QueryError> {
        match self.structural_at(cur) {
            Err(e) => Err(e),
            Ok(c) => if c != OPEN_BRACKET {
                Err(QueryError::ExpectedBracket { found: c })
            } else {
                match self.skip_elements(cur, index as nat) {
                    Err(e) => Err(e),
                    Ok(c2) => match self.structural_at(c2 + 1) {
                        Err(e) => Err(e),
                        Ok(_) => Ok(c2 + 1),
                    },
                }
            },
        }
    }

    /// From rank `cur` (an object's `{` or one of its `,`), the rank whose
    /// following key is `key`, passing each other member: its value is
    /// jumped over when it opens right after the `:`, and otherwise passed
    /// by the structural character after the `:`. Each member passed uses up
    /// one of `budget` steps; when none is left and the key still does not
    /// match, the search has visited more ranks than there are, so it has
    /// come back to a rank it already left and would go round for ever.
    pub open spec fn find_key(self, cur: int, key: Seq<u8>, budget: nat) -> Result<
        int,
        QueryError,
    >
        decreases budget,
    {
        match self.key_at(cur) {
            Err(e) => Err(e),
            Ok(k) => if k == quoted(key) {
                Ok(cur)
            } else if budget == 0 {
                Err(QueryError::KeySearchCycles)
            } else {
                match self.member_skip(cur) {
                    Err(e) => Err(e),
                    Ok(t) => self.find_key(t, key, (budget - 1) as nat),
                }
            },
        }
    }

    /// From rank `cur` (an object's `{` or one of its `,`), the rank of the
    /// `,` or `}` after the member that follows: the next rank must hold its
    /// `:`, and the member's value is passed by `member_end`.
    pub open spec fn member_skip(self, cur: int) -> Result<int, QueryError> {
        match self.structural_at(cur + 1) {
            Err(e) => Err(e),
            Ok(c) => if c != COLON {
                Err(QueryError::ExpectedColon { found: c })
            } else if cur + 2 >= self.structural.len() {
                Err(QueryError::IndexOutOfRange)
            } else if self.structural[cur + 2] < self.structural[cur + 1] {
                Err(QueryError::DecreasingStructuralIndex)
            } else {
                self.member_end(cur + 1)
            },
        }
    }

    /// The rank the key search reaches from rank `cur` after passing `n`
    /// members (`-1` once a member cannot be passed).
    pub open spec fn passed(self, cur: int, n: nat) -> int
        decreases n,
    {
        if n == 0 {
            cur
        } else {
            match self.member_skip(cur) {
                Ok(t) => self.passed(t, (n - 1) as nat),
                Err(_) => -1,
            }
        }
    }

    /// From the rank `colon` of a member's `:`, the rank just past the
    /// member's value: past the paired closing bracket when the value opens
    /// right after the `:`, and otherwise the next rank.
    pub open spec fn member_end(self, colon: int) -> Result<int, QueryError> {
        if self.structural[colon + 1] - self.structural[colon] == 1 {
            self.jump_target(colon)
        } else {
            Ok(colon + 1)
        }
    }

    /// The rank reached by the segment `.key` from rank `cur`: the
    /// structural character after the `:` that follows the key.
    pub open spec fn object_step(self, cur: int, key: Seq<u8>) -> Result<int, QueryError> {
        match self.structural_at(cur) {
            Err(e) => Err(e),
            Ok(c) => if c != OPEN_BRACE {
                Err(QueryError::ExpectedBrace { found: c })
            } else {
                match self.find_key(cur, key, self.structural.len()) {
                    Err(e) => Err(e),
                    Ok(f) => match self.structural_at(f + 1) {
                        Err(e) => Err(e),
                        Ok(c1) => if c1 != COLON {
                            Err(QueryError::ExpectedColon { found: c1 })
                        } else {
                            match self.structural_at(f + 2) {
                                Err(e) => Err(e),
                                Ok(_) => Ok(f + 2),
                            }
                        },
                    },
                }
            },
        }
    }

    /// The rank reached by one query segment from rank `cur`.
    pub open spec fn step(self, cur: int, s: QuerySegment) -> Result<int, QueryError> {
        match s {
            QuerySegment::ArrayIndex(i) => self.array_step(cur, i),
            QuerySegment::ObjectKey(k) => self.object_step(cur, k),
        }
    }

    /// The rank reached by the query segments `q`, in order, from rank `cur`.
    pub open spec fn walk(self, cur: int, q: Seq<QuerySegment>) -> Result<int, QueryError>
        decreases q.len(),
    {
        if q.len() == 0 {
            Ok(cur)
        } else {
            match self.step(cur, q[0]) {
                Err(e) => Err(e),
                Ok(c) => self.walk(c, q.drop_first()),
            }
        }
    }

    /// The text of the value that the query `q` names from the cursor: the
    /// trimmed bytes between the structural character before the rank the
    /// walk reaches and the one at it.
    pub open spec fn query_value(self, cur: int, q: Seq<QuerySegment>) -> Result<
        Seq<u8>,
        QueryError,
    > {
        match self.walk(cur, q) {
            Err(e) => Err(e),
            Ok(c) => if c == 0 {
                Err(QueryError::NoPrecedingStructural)
            } else {
                match self.between(c - 1) {
                    Err(e) => Err(e),
                    Ok(v) => Ok(trim_ws(v)),
                }
            },
        }
    }
}

/// Why `s[a..b]` cannot be sliced out as a `str`, if it cannot.
fn check_slice(s: &[u8], a: u64, b: u64) -> (r: Option<QueryError>)
    ensures
        r == slice_error(s@, a as int, b as int),
{
    let n = s.len() as u64;
    if a > b || b > n {
        Some(QueryError::IndexOutOfRange)
    } else {
        let ab = a == 0 || a == n || !(0x80 <= s[a as usize] && s[a as usize] < 0xC0);
        let bb = b == 0 || b == n || !(0x80 <= s[b as usize] && s[b as usize] < 0xC0);
        if !ab || !bb {
            Some(QueryError::NotCharBoundary)
        } else {
            None
        }
    }
}

/// Whether `k` is `key` between double quotes.
fn is_quoted_key(k: &[u8], key: &[u8]) -> (r: bool)
    ensures
        r == (k@ == quoted(key@)),
{
    if k.len() < 2 || k.len() - 2 != key.len() || k[0] != QUOTE || k[k.len() - 1] != QUOTE {
        proof {
            if k@ == quoted(key@) {
                assert(k@[0] == QUOTE);
                assert(k@[k@.len() - 1] == QUOTE);
            }
        }
        return false;
    }
    let mut i: usize = 0;
    while i < key.len()
        invariant
            i <= key.len(),
            k.len() == key.len() + 2,
            forall|j: int| 0 <= j < i ==> k@[j + 1] == key@[j],
        decreases key.len() - i,
    {
        if k[i + 1] != key[i] {
            proof {
                if k@ == quoted(key@) {
                    assert(k@[i + 1] == quoted(key@)[i + 1]);
                }
            }
            return false;
        }
        i = i + 1;
    }
    assert(k@ =~= quoted(key@));
    true
}

impl Parser {
    /// The structural character at rank `i`.
    fn structural_byte(&self, i: usize) -> (r: Result<u8, QueryError>)
        ensures
            r == self.doc().structural_at(i as int),
    {
        if i >= self.structural_indexes.len() {
            return Err(QueryError::IndexOutOfRange);
        }
        let b = self.structural_indexes[i] as u64;
        match check_slice(self.json_string.as_slice(), b, b + 1) {
            Some(e) => Err(e),
            None => Ok(self.json_string[b as usize]),
        }
    }

    /// The structural character at rank `i + 1`.
    fn structural_byte_after(&self, i: usize) -> (r: Result<u8, QueryError>)
        ensures
            r == self.doc().structural_at(i + 1),
    {
        if i >= self.structural_indexes.len() || self.structural_indexes.len() - i < 2 {
            return Err(QueryError::IndexOutOfRange);
        }
        self.structural_byte(i + 1)
    }

    /// The structural character at the cursor.
    pub fn get_current_structural(&self) -> (r: Result<u8, QueryError>)
        ensures
            r == self.doc().structural_at(self.current_structural_index as int),
    {
        self.structural_byte(self.current_structural_index)
    }

    /// The structural character just after the cursor; the cursor stays.
    pub fn peek_next_structural(&self) -> (r: Result<u8, QueryError>)
        ensures
            r == self.doc().structural_at(self.current_structural_index + 1),
    {
        self.structural_byte_after(self.current_structural_index)
    }

    /// Moves the cursor one rank forward and returns the structural
    /// character there. The cursor stays when there is no next rank.
    pub fn next_structural(&mut self) -> (r: Result<u8, QueryError>)
        ensures
            r == old(self).doc().structural_at(old(self).current_structural_index + 1),
            final(self).doc() == old(self).doc(),
            final(self).current_structural_index == if old(self).current_structural_index + 1
                < old(self).structural_indexes@.len() {
                old(self).current_structural_index + 1
            } else {
                old(self).current_structural_index as int
            },
    {
        let i = self.current_structural_index;
        if i >= self.structural_indexes.len() || self.structural_indexes.len() - i < 2 {
            return Err(QueryError::IndexOutOfRange);
        }
        self.current_structural_index = i + 1;
        self.structural_byte(i + 1)
    }

    /// The bytes strictly between the structural characters at ranks `k`
    /// and `k + 1`, untrimmed.
    pub fn get_value(&self, k: usize) -> (r: Result<&[u8], QueryError>)
        ensures
            (match r {
                Ok(v) => Ok(v@),
                Err(e) => Err(e),
            }) == self.doc().between(k as int),
    {
        if k >= self.structural_indexes.len() || self.structural_indexes.len() - k < 2 {
            return Err(QueryError::IndexOutOfRange);
        }
        let a = self.structural_indexes[k] as u64 + 1;
        let b = self.structural_indexes[k + 1] as u64;
        match check_slice(self.json_string.as_slice(), a, b) {
            Some(e) => Err(e),
            None => Ok(slice_range(self.json_string.as_slice(), a as usize, b as usize)),
        }
    }

    /// The key after the structural character at the cursor, trimmed but
    /// still between its quotes.
    pub fn get_object_key_slice(&self) -> (r: Result<&[u8], QueryError>)
        ensures
            (match r {
                Ok(v) => Ok(v@),
                Err(e) => Err(e),
            }) == self.doc().key_at(self.current_structural_index as int),
    {
        match self.get_value(self.current_structural_index) {
            Ok(v) => Ok(trim_whitespace(v)),
            Err(e) => Err(e),
        }
    }

    /// Checks that the structural character at the cursor is `:`.
    pub fn assert_current_is_colon(&self) -> (r: Result<(), QueryError>)
        ensures
            r == match self.doc().structural_at(self.current_structural_index as int) {
                Err(e) => Err(e),
                Ok(c) => if c == COLON {
                    Ok(())
                } else {
                    Err(QueryError::ExpectedColon { found: c })
                },
            },
    {
        match self.get_current_structural() {
            Err(e) => Err(e),
            Ok(c) => if c == COLON {
                Ok(())
            } else {
                Err(QueryError::ExpectedColon { found: c })
            },
        }
    }

    /// Checks that the structural character at the cursor is `[`.
    pub fn assert_current_is_bracket(&self) -> (r: Result<(), QueryError>)
        ensures
            r == match self.doc().structural_at(self.current_structural_index as int) {
                Err(e) => Err(e),
                Ok(c) => if c == OPEN_BRACKET {
                    Ok(())
                } else {
                    Err(QueryError::ExpectedBracket { found: c })
                },
            },
    {
        match self.get_current_structural() {
            Err(e) => Err(e),
            Ok(c) => if c == OPEN_BRACKET {
                Ok(())
            } else {
                Err(QueryError::ExpectedBracket { found: c })
            },
        }
    }

    /// Checks that the structural character at the cursor is `{`.
    pub fn assert_current_is_brace(&self) -> (r: Result<(), QueryError>)
        ensures
            r == match self.doc().structural_at(self.current_structural_index as int) {
                Err(e) => Err(e),
                Ok(c) => if c == OPEN_BRACE {
                    Ok(())
                } else {
                    Err(QueryError::ExpectedBrace { found: c })
                },
            },
    {
        match self.get_current_structural() {
            Err(e) => Err(e),
            Ok(c) => if c == OPEN_BRACE {
                Ok(())
            } else {
                Err(QueryError::ExpectedBrace { found: c })
            },
        }
    }

    /// Moves the cursor past the object or array that opens at the next
    /// rank: to the rank after its paired closing bracket.
    pub fn jump_object_or_array(&mut self) -> (r: Result<(), QueryError>)
        ensures
            final(self).doc() == old(self).doc(),
            match old(self).doc().jump_target(old(self).current_structural_index as int) {
                Ok(t) => r is Ok && final(self).current_structural_index == t,
                Err(e) => r == Err::<(), QueryError>(e) && final(self).current_structural_index
                    == old(self).current_structural_index,
            },
    {
        let i = self.current_structural_index;
        if i >= self.open_close_pairs.len() || self.open_close_pairs.len() - i < 2 {
            return Err(QueryError::IndexOutOfRange);
        }
        let idx_of_close = self.open_close_pairs[i + 1];
        if idx_of_close == u32::MAX {
            return Err(QueryError::PairingOverflow);
        }
        self.current_structural_index = (idx_of_close + 1) as usize;
        Ok(())
    }
}

impl Parser {
    /// Applies the segment `[index]`: from the `[` at the cursor, passes
    /// `index` elements and moves onto the structural character after them.
    fn apply_array_index(&mut self, index: u32) -> (r: Result<(), QueryError>)
        ensures
            final(self).doc() == old(self).doc(),
            match old(self).doc().array_step(old(self).current_structural_index as int, index) {
                Ok(c) => r is Ok && final(self).current_structural_index == c,
                Err(e) => r == Err::<(), QueryError>(e),
            },
    {
        let ghost start = *self;
        match self.assert_current_is_bracket() {
            Err(e) => return Err(e),
            Ok(()) => {},
        }
        let ghost target = start.doc().skip_elements(
            start.current_structural_index as int,
            index as nat,
        );
        let mut looked_at_index: u32 = 0;
        while looked_at_index < index
            invariant
                start == *old(self),
                self.doc() == start.doc(),
                looked_at_index <= index,
                target == start.doc().skip_elements(
                    start.current_structural_index as int,
                    index as nat,
                ),
                start.doc().structural_at(start.current_structural_index as int) == Ok::<
                    u8,
                    QueryError,
                >(OPEN_BRACKET),
                target == self.doc().skip_elements(
                    self.current_structural_index as int,
                    (index - looked_at_index) as nat,
                ),
            decreases index - looked_at_index,
        {
            let c = match self.peek_next_structural() {
                Err(e) => return Err(e),
                Ok(c) => c,
            };
            if c == COMMA {
                let _ = self.next_structural();
            } else if c == OPEN_BRACE || c == OPEN_BRACKET {
                match self.jump_object_or_array() {
                    Err(e) => return Err(e),
                    Ok(()) => {},
                }
            } else {
                return Err(QueryError::UnexpectedStructural { found: c });
            }
            looked_at_index = looked_at_index + 1;
        }
        match self.next_structural() {
            Err(e) => Err(e),
            Ok(_) => Ok(()),
        }
    }

    /// Applies the segment `.key`: from the `{` at the cursor, finds the
    /// member named `key` and moves onto the structural character after its
    /// `:`.
    fn apply_object_key(&mut self, key: &Vec<u8>) -> (r: Result<(), QueryError>)
        ensures
            final(self).doc() == old(self).doc(),
            match old(self).doc().object_step(old(self).current_structural_index as int, key@) {
                Ok(c) => r is Ok && final(self).current_structural_index == c,
                Err(e) => r == Err::<(), QueryError>(e),
            },
    {
        let ghost start = *self;
        match self.assert_current_is_brace() {
            Err(e) => return Err(e),
            Ok(()) => {},
        }
        let len = self.structural_indexes.len();
        let ghost target = start.doc().find_key(
            start.current_structural_index as int,
            key@,
            len as nat,
        );
        let mut budget: usize = len;
        loop
            invariant
                start == *old(self),
                self.doc() == start.doc(),
                len == self.structural_indexes@.len(),
                target == start.doc().find_key(
                    start.current_structural_index as int,
                    key@,
                    len as nat,
                ),
                start.doc().structural_at(start.current_structural_index as int) == Ok::<
                    u8,
                    QueryError,
                >(OPEN_BRACE),
                target == self.doc().find_key(
                    self.current_structural_index as int,
                    key@,
                    budget as nat,
                ),
            ensures
                self.doc() == start.doc(),
                target == start.doc().find_key(
                    start.current_structural_index as int,
                    key@,
                    len as nat,
                ),
                start.doc().structural_at(start.current_structural_index as int) == Ok::<
                    u8,
                    QueryError,
                >(OPEN_BRACE),
                target == Ok::<int, QueryError>(self.current_structural_index as int),
            decreases budget,
        {
            match self.get_object_key_slice() {
                Err(e) => return Err(e),
                Ok(k) => {
                    if is_quoted_key(k, key.as_slice()) {
                        break;
                    }
                },
            }
            if budget == 0 {
                return Err(QueryError::KeySearchCycles);
            }
            budget = budget - 1;
            match self.next_structural() {
                Err(e) => return Err(e),
                Ok(_) => {},
            }
            match self.assert_current_is_colon() {
                Err(e) => return Err(e),
                Ok(()) => {},
            }
            let colon = self.current_structural_index;
            if colon + 1 >= len {
                return Err(QueryError::IndexOutOfRange);
            }
            let end_struct_idx = self.structural_indexes[colon];
            let next_in_structural_idx = self.structural_indexes[colon + 1];
            if next_in_structural_idx < end_struct_idx {
                return Err(QueryError::DecreasingStructuralIndex);
            }
            if next_in_structural_idx - end_struct_idx == 1 {
                match self.jump_object_or_array() {
                    Err(e) => return Err(e),
                    Ok(()) => {},
                }
            } else {
                self.current_structural_index = colon + 1;
            }
        }
        match self.next_structural() {
            Err(e) => return Err(e),
            Ok(_) => {},
        }
        match self.assert_current_is_colon() {
            Err(e) => return Err(e),
            Ok(()) => {},
        }
        match self.next_structural() {
            Err(e) => Err(e),
            Ok(_) => Ok(()),
        }
    }

    /// Follows the query from the cursor and returns the trimmed text of the
    /// value it names (a primitive's text, quotes included for a string). The
    /// cursor ends on the structural character after that value.
    pub fn parse(&mut self, query: &Vec<QueryKey>) -> (r: Result<Vec<u8>, QueryError>)
        ensures
            final(self).doc() == old(self).doc(),
            (match r {
                Ok(v) => Ok(v@),
                Err(e) => Err(e),
            }) == old(self).doc().query_value(old(self).current_structural_index as int, segments(query@)),
            r is Ok ==> old(self).doc().walk(
                old(self).current_structural_index as int,
                segments(query@),
            ) == Ok::<int, QueryError>(final(self).current_structural_index as int),
    {
        let ghost start = *self;
        let ghost q = segments(query@);
        assert(q.skip(0) =~= q);
        let mut i: usize = 0;
        while i < query.len()
            invariant
                start == *old(self),
                self.doc() == start.doc(),
                i <= query@.len(),
                q == segments(query@),
                start.doc().walk(start.current_structural_index as int, q) == self.doc().walk(
                    self.current_structural_index as int,
                    q.skip(i as int),
                ),
            decreases query.len() - i,
        {
            proof {
                assert(q.skip(i as int)[0] == query@[i as int]@);
                assert(q.skip(i as int).drop_first() =~= q.skip(i + 1));
            }
            let outcome = match &query[i] {
                QueryKey::ArrayIndex(index) => self.apply_array_index(*index),
                QueryKey::ObjectKey(key) => self.apply_object_key(key),
            };
            match outcome {
                Err(e) => return Err(e),
                Ok(()) => {},
            }
            i = i + 1;
        }
        proof {
            assert(q.skip(i as int).len() == 0);
        }
        let cur = self.current_structural_index;
        if cur == 0 {
            return Err(QueryError::NoPrecedingStructural);
        }
        match self.get_value(cur - 1) {
            Err(e) => Err(e),
            Ok(v) => Ok(vstd::slice::slice_to_vec(trim_whitespace(v))),
        }
    }
}

/// A primitive JSON value. A number keeps its text: whether a text reads
/// as a floating-point number is decided by the caller.
#[derive(Debug, PartialEq)]
pub enum JsonPrimitive {
    /// A string, its surrounding quotes removed (not unescaped).
    String(Vec<u8>),
    Null,
    Bool(bool),
    /// A number, as written.
    Number(Vec<u8>),
}

/// `true`
pub open spec fn true_text() -> Seq<u8> {
    seq![0x74u8, 0x72u8, 0x75u8, 0x65u8]
}

/// `false`
pub open spec fn false_text() -> Seq<u8> {
    seq![0x66u8, 0x61u8, 0x6Cu8, 0x73u8, 0x65u8]
}

/// `null`
pub open spec fn null_text() -> Seq<u8> {
    seq![0x6Eu8, 0x75u8, 0x6Cu8, 0x6Cu8]
}

/// Reads a trimmed value text: `true`, `false` and `null` are themselves;
/// any other text is a number when `parses_as_number` says it reads as one,
/// and otherwise a string with its surrounding quotes trimmed.
pub fn classify_primitive(text: &[u8], parses_as_number: bool) -> (r: JsonPrimitive)
    ensures
        text@ == true_text() ==> r == JsonPrimitive::Bool(true),
        text@ == false_text() ==> r == JsonPrimitive::Bool(false),
        text@ == null_text() ==> r == JsonPrimitive::Null,
        text@ != true_text() && text@ != false_text() && text@ != null_text() ==> if parses_as_number {
            r is Number && r->Number_0@ == text@
        } else {
            r is String && r->String_0@ == trim_quotes_spec(text@)
        },
{
    let n = text.len();
    if n == 4 && text[0] == 0x74 && text[1] == 0x72 && text[2] == 0x75 && text[3] == 0x65 {
        assert(text@ =~= true_text());
        JsonPrimitive::Bool(true)
    } else if n == 5 && text[0] == 0x66 && text[1] == 0x61 && text[2] == 0x6C && text[3] == 0x73
        && text[4] == 0x65 {
        assert(text@ =~= false_text());
        JsonPrimitive::Bool(false)
    } else if n == 4 && text[0] == 0x6E && text[1] == 0x75 && text[2] == 0x6C && text[3] == 0x6C {
        assert(text@ =~= null_text());
        JsonPrimitive::Null
    } else {
        proof {
            if text@ == true_text() {
                assert(text@[0] == 0x74 && text@[1] == 0x72 && text@[2] == 0x75 && text@[3] == 0x65);
            }
            if text@ == false_text() {
                assert(text@[0] == 0x66 && text@[1] == 0x61 && text@[2] == 0x6C && text@[3] == 0x73
                    && text@[4] == 0x65);
            }
            if text@ == null_text() {
                assert(text@[0] == 0x6E && text@[1] == 0x75 && text@[2] == 0x6C && text@[3] == 0x6C);
            }
        }
        if parses_as_number {
            JsonPrimitive::Number(vstd::slice::slice_to_vec(text))
        } else {
            JsonPrimitive::String(vstd::slice::slice_to_vec(trim_quotes(text)))
        }
    }
}

/// Answers `query` on a document given its pairing and structural indexes:
/// splits the query, then walks it from the first structural character and
/// returns the trimmed text of the value it names.
pub fn run_query(
    json_string: &str,
    oc_pairs: Vec<u32>,
    structural_indexes: Vec<u32>,
    query: &str,
) -> (r: Result<Vec<u8>, QueryError>)
    ensures
        match parse_query_from(query.spec_bytes(), 0) {
            None => r == Err::<Vec<u8>, QueryError>(QueryError::InvalidArrayIndex),
            Some(q) => (match r {
                Ok(v) => Ok(v@),
                Err(e) => Err(e),
            }) == (Document {
                json: json_string.spec_bytes(),
                structural: structural_indexes@,
                pairs: oc_pairs@,
            }).query_value(0, q),
        },
{
    let parsed_query = match parse_query(query.as_bytes()) {
        Err(e) => return Err(e),
        Ok(q) => q,
    };
    let mut parser = Parser {
        json_string: vstd::slice::slice_to_vec(json_string.as_bytes()),
        open_close_pairs: oc_pairs,
        structural_indexes: structural_indexes,
        current_structural_index: 0,
    };
    parser.parse(&parsed_query)
}

/// A key the lookup settles on is the requested key: when the search for
/// `key` from rank `cur` succeeds, it ends at a rank whose key text is `key`
/// in quotes.
pub proof fn lemma_find_key_sound(d: Document, cur: int, key: Seq<u8>, budget: nat)
    ensures
        d.find_key(cur, key, budget) matches Ok(j) ==> d.key_at(j) == Ok::<Seq<u8>, QueryError>(
            quoted(key),
        ),
    decreases budget,
{
    if let Ok(k) = d.key_at(cur) {
        if k != quoted(key) && budget > 0 {
            if let Ok(t) = d.member_skip(cur) {
                lemma_find_key_sound(d, t, key, (budget - 1) as nat);
            }
        }
    }
}

/// A member lookup lands on the value of the requested key: when `.key`
/// takes rank `cur` to rank `c`, the key text two ranks back is `key` in
/// quotes and the structural character just before `c` is its `:`.
pub proof fn lemma_object_step_lands_after_key(d: Document, cur: int, key: Seq<u8>)
    ensures
        d.object_step(cur, key) matches Ok(c) ==> {
            &&& d.key_at(c - 2) == Ok::<Seq<u8>, QueryError>(quoted(key))
            &&& d.structural_at(c - 1) == Ok::<u8, QueryError>(COLON)
        },
{
    lemma_find_key_sound(d, cur, key, d.structural.len());
}

/// Passing `a + b` array elements is passing `a` elements, then `b` more.
pub proof fn lemma_skip_elements_split(d: Document, cur: int, a: nat, b: nat)
    ensures
        d.skip_elements(cur, a + b) == match d.skip_elements(cur, a) {
            Ok(c) => d.skip_elements(c, b),
            Err(e) => Err(e),
        },
    decreases a,
{
    if a > 0 {
        assert((a + b - 1) as nat == (a - 1) as nat + b);
        if let Ok(c) = d.structural_at(cur + 1) {
            if c == COMMA {
                lemma_skip_elements_split(d, cur + 1, (a - 1) as nat, b);
            } else if c == OPEN_BRACE || c == OPEN_BRACKET {
                if let Ok(t) = d.jump_target(cur) {
                    lemma_skip_elements_split(d, t, (a - 1) as nat, b);
                }
            }
        }
    }
}

/// Following a query in two parts gives what following it whole gives:
/// the second part continues from where the first one ends.
pub proof fn lemma_walk_append(d: Document, cur: int, q1: Seq<QuerySegment>, q2: Seq<QuerySegment>)
    ensures
        d.walk(cur, q1 + q2) == match d.walk(cur, q1) {
            Ok(c) => d.walk(c, q2),
            Err(e) => Err(e),
        },
    decreases q1.len(),
{
    if q1.len() == 0 {
        assert(q1 + q2 =~= q2);
    } else {
        assert((q1 + q2)[0] == q1[0]);
        assert((q1 + q2).drop_first() =~= q1.drop_first() + q2);
        if let Ok(c) = d.step(cur, q1[0]) {
            lemma_walk_append(d, c, q1.drop_first(), q2);
        }
    }
}


proof fn lemma_cycle_ranks(d: Document, cur: int, key: Seq<u8>, b: nat)
    requires
        d.find_key(cur, key, b) == Err::<int, QueryError>(QueryError::KeySearchCycles),
    ensures
        forall|i: nat|
            i <= b ==> {
                &&& 0 <= #[trigger] d.passed(cur, i)
                &&& d.passed(cur, i) + 1 < d.structural.len()
                &&& d.key_at(d.passed(cur, i)) is Ok
                &&& d.key_at(d.passed(cur, i)) != Ok::<Seq<u8>, QueryError>(quoted(key))
            },
    decreases b,
{
    if b > 0 {
        let t = d.member_skip(cur)->Ok_0;
        lemma_cycle_ranks(d, t, key, (b - 1) as nat);
        assert forall|i: nat| i <= b implies {
            &&& 0 <= #[trigger] d.passed(cur, i)
            &&& d.passed(cur, i) + 1 < d.structural.len()
            &&& d.key_at(d.passed(cur, i)) is Ok
            &&& d.key_at(d.passed(cur, i)) != Ok::<Seq<u8>, QueryError>(quoted(key))
        } by {
            if i > 0 {
                assert(d.passed(cur, i) == d.passed(t, (i - 1) as nat));
            }
        }
    }
}

/// A key search gives up only where it would never end: when it runs out
/// of steps, two different numbers of members passed have led it to the
/// same rank, no key along the way matched, and since each step depends on
/// the rank alone, it would go round that loop for ever.
pub proof fn lemma_key_search_gives_up_only_on_cycles(d: Document, cur: int, key: Seq<u8>)
    requires
        d.find_key(cur, key, d.structural.len()) == Err::<int, QueryError>(
            QueryError::KeySearchCycles,
        ),
    ensures
        exists|i: nat, j: nat|
            i < j <= d.structural.len() && #[trigger] d.passed(cur, i) == #[trigger] d.passed(
                cur,
                j,
            ),
        forall|i: nat|
            i <= d.structural.len() ==> d.key_at(#[trigger] d.passed(cur, i)) != Ok::<
                Seq<u8>,
                QueryError,
            >(quoted(key)),
{
    let n = d.structural.len();
    lemma_cycle_ranks(d, cur, key, n);
    let ranks = Seq::new(n + 1, |i: int| d.passed(cur, i as nat));
    if ranks.no_duplicates() {
        ranks.unique_seq_to_set();
        vstd::set_lib::lemma_int_range(0, n as int);
        assert(ranks.to_set().subset_of(vstd::set_lib::set_int_range(0, n as int))) by {
            assert forall|x: int| ranks.to_set().contains(x) implies vstd::set_lib::set_int_range(
                0,
                n as int,
            ).contains(x) by {
                let i = choose|i: int| 0 <= i < ranks.len() && ranks[i] == x;
                assert(d.passed(cur, i as nat) == x);
            }
        }
        vstd::set_lib::lemma_len_subset(
            ranks.to_set(),
            vstd::set_lib::set_int_range(0, n as int),
        );
        assert(false);
    }
    let (i, j) = choose|i: int, j: int|
        0 <= i < ranks.len() && 0 <= j < ranks.len() && i != j && ranks[i] == ranks[j];
    if i < j {
        assert(d.passed(cur, i as nat) == d.passed(cur, j as nat));
    } else {
        assert(d.passed(cur, j as nat) == d.passed(cur, i as nat));
    }
}
} // verus!
