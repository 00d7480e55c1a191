//! Collects the tokens of a JSON lexer into a byte buffer, so that the value can be
//! queried without building it in memory.
//!
//! Each value is stored as a one-byte tag followed by its contents:
//! - integer: the 8 little-endian bytes of the value;
//! - boolean: one byte, 0 or 1;
//! - string: 8 bytes of length, then the bytes;
//! - list: 8 bytes LEN (number of elements), 8 bytes N_BYTES (size of the whole list),
//!   then the elements;
//! - object: 8 bytes LEN (number of key,value pairs), 8 bytes N_BYTES, then the keys and
//!   values, alternating.
use vstd::prelude::*;
use vstd::bytes::spec_u64_to_le_bytes;
use vstd::string::StringSliceAdditionalSpecFns;
use vstd::utf8::{encode_utf8, valid_utf8};
use crate::byte_vec::{i64_from_le, i64_le_bytes, lemma_i64_le_roundtrip, lemma_le_roundtrip, with_word_at, word_at, ByteVecTrait};
use crate::json_lexer::{lex_step, unicode_escape_ahead, JsonLexer, JsonLexerTrait, JsonToken, ParseState};
use crate::obj_core::{str_from_utf8, u64_at};
use crate::reader::ReaderTrait;
use crate::parser::decimal_value;

verus! {

/// The tag of a list.
pub const LIST: u8 = 0;

/// The tag of an integer.
pub const INT64: u8 = 1;

/// The tag of a string.
pub const STRING: u8 = 2;

/// The tag of an object.
pub const OBJECT: u8 = 3;

/// The tag of a boolean.
pub const BOOL: u8 = 4;

/// Collects JSON values into a byte buffer and reads them back.
pub struct ObjectCollector {}

/// A value read from the buffer.
pub enum Object {
    Int64(i64),
    ListRef(ListRef),
    StringRef(StringRef),
}

/// An object stored at a position of the buffer.
pub struct ObjectRef {
    idx: u64,
}

/// A string stored at a position of the buffer.
pub struct StringRef {
    idx: u64,
}

/// A list stored at a position of the buffer.
pub struct ListRef {
    idx: u64,
}

/// A value of another type than the one asked for.
pub enum ObjectCollectorError {
    InvalidType,
}

// ----- the stored values

/// The number of bytes of the value whose tag is at `p`, as its header says.
pub open spec fn stored_len(v: Seq<u8>, p: int) -> int {
    let tag = v[p];
    if tag == INT64 {
        9
    } else if tag == BOOL {
        2
    } else if tag == STRING {
        9 + u64_at(v, p + 1)
    } else if tag == LIST || tag == OBJECT {
        u64_at(v, p + 9)
    } else {
        0
    }
}

/// The header of the value at `p` can be read: its tag is known, its length fields lie
/// inside the buffer and are not the mark of an unfinished value, and its length fits
/// in a `u64`.
pub open spec fn header_readable(v: Seq<u8>, p: int) -> bool {
    let tag = v[p];
    &&& 0 <= p < v.len()
    &&& (tag == LIST || tag == INT64 || tag == STRING || tag == OBJECT || tag == BOOL)
    &&& tag == STRING ==> p + 9 <= v.len() && u64_at(v, p + 1) != u64::MAX && 9 + u64_at(v, p + 1) <= u64::MAX
    &&& (tag == LIST || tag == OBJECT) ==> p + 17 <= v.len() && u64_at(v, p + 9) != u64::MAX
}

/// A complete value starts at `p` and ends at or before `end`.
pub open spec fn stored_ok(v: Seq<u8>, p: int, end: int) -> bool {
    &&& end <= v.len()
    &&& header_readable(v, p)
    &&& 0 < stored_len(v, p)
    &&& p + stored_len(v, p) <= end
}

/// The values starting at `p` exactly fill the bytes up to `end`.
pub open spec fn stored_tile(v: Seq<u8>, p: int, end: int) -> bool
    decreases end - p,
{
    if p >= end {
        p == end
    } else {
        stored_ok(v, p, end) && stored_tile(v, p + stored_len(v, p), end)
    }
}

/// The number of values that fill the bytes from `p` up to `end`.
pub open spec fn stored_count(v: Seq<u8>, p: int, end: int) -> nat
    decreases end - p,
{
    if p >= end || !stored_ok(v, p, end) {
        0
    } else {
        1 + stored_count(v, p + stored_len(v, p), end)
    }
}

/// The position of the value after the first `n` values from `p`.
pub open spec fn nth_stored(v: Seq<u8>, p: int, n: nat) -> int
    decreases n,
{
    if n == 0 {
        p
    } else {
        let q = nth_stored(v, p, (n - 1) as nat);
        q + stored_len(v, q)
    }
}

/// The first `n` values from `p` have readable headers, and stepping over them stays
/// inside `u64`.
pub open spec fn steps_readable(v: Seq<u8>, p: int, n: nat) -> bool {
    forall|k: nat|
        k < n ==> header_readable(v, #[trigger] nth_stored(v, p, k)) && nth_stored(v, p, k + 1) <= u64::MAX
}

/// The bytes of the string whose tag is at `p`.
pub open spec fn string_bytes(v: Seq<u8>, p: int) -> Seq<u8> {
    v.subrange(p + 9, p + 9 + u64_at(v, p + 1))
}

/// The value at `p` is a string whose recorded length, as a `usize`, is that of `key`,
/// and whose first bytes are those of `key`.
pub open spec fn key_matches(v: Seq<u8>, p: int, key: Seq<u8>) -> bool {
    &&& v[p] == STRING
    &&& (u64_at(v, p + 1) as usize) as int == key.len()
    &&& v.subrange(p + 9, p + 9 + key.len()) == key
}

/// Where the pairs from `p` on first have a key that matches `key`: the position of its
/// value.
pub open spec fn find_key(v: Seq<u8>, p: int, end: int, key: Seq<u8>) -> Option<int>
    decreases end - p,
{
    if p >= end {
        None
    } else {
        let klen = stored_len(v, p);
        let next = p + klen + stored_len(v, p + klen);
        if key_matches(v, p, key) {
            Some(p + klen)
        } else if next <= p || next >= end {
            None
        } else {
            find_key(v, next, end, key)
        }
    }
}

/// Stepping over `m + 2` values is stepping over two, then `m` more.
proof fn lemma_nth_stored_shift(v: Seq<u8>, p: int, m: nat)
    ensures
        nth_stored(v, p, m + 2) == nth_stored(v, nth_stored(v, p, 2), m),
    decreases m,
{
    if m > 0 {
        lemma_nth_stored_shift(v, p, (m - 1) as nat);
    } else {
        reveal_with_fuel(nth_stored, 3);
    }
}

/// A key lookup, stepping over the pairs from `p` two values at a time, finds the value
/// of the first pair whose key is a string with exactly the bytes of `key`; where it
/// finds nothing, no pair it stepped over has that key.
pub proof fn lemma_find_key_finds_equal_key(v: Seq<u8>, p: int, end: int, key: Seq<u8>)
    ensures
        find_key(v, p, end, key) matches Some(x) ==> exists|j: nat|
            {
                let k = #[trigger] nth_stored(v, p, 2 * j);
                &&& p <= k < end
                &&& v[k] == STRING
                &&& (u64_at(v, k + 1) as usize) as int == key.len()
                &&& v.subrange(k + 9, k + 9 + key.len()) == key
                &&& u64_at(v, k + 1) <= usize::MAX ==> v.subrange(k + 9, k + 9 + u64_at(v, k + 1)) == key
                &&& x == k + stored_len(v, k)
                &&& forall|i: nat|
                    i < j ==> !({
                        let k2 = #[trigger] nth_stored(v, p, 2 * i);
                        &&& v[k2] == STRING
                        &&& (u64_at(v, k2 + 1) as usize) as int == key.len()
                        &&& v.subrange(k2 + 9, k2 + 9 + key.len()) == key
                    })
            },
        find_key(v, p, end, key) is None ==> forall|j: nat|
            p < end && (forall|i: nat| i < j ==> nth_stored(v, p, 2 * i) < #[trigger] nth_stored(v, p, 2 * i + 2) < end)
                ==> !({
                let k = #[trigger] nth_stored(v, p, 2 * j);
                &&& v[k] == STRING
                &&& (u64_at(v, k + 1) as usize) as int == key.len()
                &&& v.subrange(k + 9, k + 9 + key.len()) == key
            }),
    decreases end - p,
{
    reveal_with_fuel(nth_stored, 3);
    assert(nth_stored(v, p, 0) == p);
    if p < end {
        let klen = stored_len(v, p);
        let next = p + klen + stored_len(v, p + klen);
        assert(nth_stored(v, p, 2) == next);
        if key_matches(v, p, key) {
            assert(nth_stored(v, p, 2 * 0) == p);
        } else if next <= p || next >= end {
            assert forall|j: nat|
                p < end && (forall|i: nat| i < j ==> nth_stored(v, p, 2 * i) < #[trigger] nth_stored(v, p, 2 * i + 2) < end)
                    implies !({
                    let k = #[trigger] nth_stored(v, p, 2 * j);
                    &&& v[k] == STRING
                    &&& (u64_at(v, k + 1) as usize) as int == key.len()
                    &&& v.subrange(k + 9, k + 9 + key.len()) == key
                }) by {
                if j > 0 {
                    assert(nth_stored(v, p, 2 * 0nat) < nth_stored(v, p, 2 * 0nat + 2) < end);
                }
            }
        } else {
            lemma_find_key_finds_equal_key(v, next, end, key);
            if let Some(x) = find_key(v, p, end, key) {
                let j2 = choose|j2: nat|
                    {
                        let k = #[trigger] nth_stored(v, next, 2 * j2);
                        &&& next <= k < end
                        &&& v[k] == STRING
                        &&& (u64_at(v, k + 1) as usize) as int == key.len()
                        &&& v.subrange(k + 9, k + 9 + key.len()) == key
                        &&& u64_at(v, k + 1) <= usize::MAX ==> v.subrange(k + 9, k + 9 + u64_at(v, k + 1)) == key
                        &&& x == k + stored_len(v, k)
                        &&& forall|i: nat|
                            i < j2 ==> !({
                                let k2 = #[trigger] nth_stored(v, next, 2 * i);
                                &&& v[k2] == STRING
                                &&& (u64_at(v, k2 + 1) as usize) as int == key.len()
                                &&& v.subrange(k2 + 9, k2 + 9 + key.len()) == key
                            })
                    };
                let j: nat = j2 + 1;
                lemma_nth_stored_shift(v, p, 2 * j2);
                assert(2 * j == 2 * j2 + 2);
                assert forall|i: nat| i < j implies !({
                    let k2 = #[trigger] nth_stored(v, p, 2 * i);
                    &&& v[k2] == STRING
                    &&& (u64_at(v, k2 + 1) as usize) as int == key.len()
                    &&& v.subrange(k2 + 9, k2 + 9 + key.len()) == key
                }) by {
                    if i > 0 {
                        let i2: nat = (i - 1) as nat;
                        lemma_nth_stored_shift(v, p, 2 * i2);
                        assert(2 * i == 2 * i2 + 2);
                        assert(nth_stored(v, p, 2 * i) == nth_stored(v, next, 2 * i2));
                    }
                }
                assert(nth_stored(v, p, 2 * j) == nth_stored(v, next, 2 * j2));
            } else {
                assert forall|j: nat|
                    p < end && (forall|i: nat| i < j ==> nth_stored(v, p, 2 * i) < #[trigger] nth_stored(v, p, 2 * i + 2) < end)
                        implies !({
                        let k = #[trigger] nth_stored(v, p, 2 * j);
                        &&& v[k] == STRING
                        &&& (u64_at(v, k + 1) as usize) as int == key.len()
                        &&& v.subrange(k + 9, k + 9 + key.len()) == key
                    }) by {
                    if j > 0 {
                        let j2: nat = (j - 1) as nat;
                        lemma_nth_stored_shift(v, p, 2 * j2);
                        assert(2 * j == 2 * j2 + 2);
                        assert forall|i: nat| i < j2 implies nth_stored(v, next, 2 * i) < #[trigger] nth_stored(v, next, 2 * i + 2)
                            < end by {
                            lemma_nth_stored_shift(v, p, 2 * i);
                            lemma_nth_stored_shift(v, p, 2 * i + 2);
                            assert(nth_stored(v, p, 2 * (i + 1)) < nth_stored(v, p, 2 * (i + 1) + 2) < end);
                            assert(2 * (i + 1) == 2 * i + 2);
                            assert(2 * (i + 1) + 2 == (2 * i + 2) + 2);
                        }
                        assert(nth_stored(v, p, 2 * 0nat) < nth_stored(v, p, 2 * 0nat + 2) < end);
                    }
                }
            }
        }
    }
}

/// Searching the pairs from `p` on for `key` reads only readable headers and bytes
/// inside the buffer, steps forward, and stays inside `u64`.
pub open spec fn key_search_ok(v: Seq<u8>, p: int, end: int, key: Seq<u8>) -> bool
    decreases end - p,
{
    if p >= end {
        true
    } else {
        let klen = stored_len(v, p);
        let next = p + klen + stored_len(v, p + klen);
        &&& header_readable(v, p)
        &&& p + klen <= u64::MAX
        &&& (v[p] == STRING && (u64_at(v, p + 1) as usize) as int == key.len()) ==> p + 9 + key.len() <= v.len()
        &&& !key_matches(v, p, key) ==> {
            &&& header_readable(v, p + klen)
            &&& p < next <= u64::MAX
            &&& next < end ==> key_search_ok(v, next, end, key)
        }
    }
}

// ----- reading stored values

impl ObjectCollector {
    pub fn new() -> (r: Self) {
        ObjectCollector {  }
    }

    /// The number of bytes of the value at `idx`.
    fn get_obj_len_bytes<B: ByteVecTrait>(idx: u64, byte_vec: &B) -> (r: u64)
        requires
            header_readable(byte_vec.bytes(), idx as int),
        ensures
            r == stored_len(byte_vec.bytes(), idx as int),
    {
        proof {
            byte_vec.lemma_len_bound();
        }
        let tag = byte_vec.get_u8(idx);
        if tag == INT64 {
            9
        } else if tag == LIST {
            byte_vec.get_u64(idx + 9)
        } else if tag == STRING {
            let n_chars = byte_vec.get_u64(idx + 1);
            n_chars + 9
        } else if tag == OBJECT {
            byte_vec.get_u64(idx + 9)
        } else {
            2
        }
    }

    /// The list at `idx`.
    pub fn get_list<B: ByteVecTrait>(idx: u64, byte_vec: &B) -> (r: ListRef)
        requires
            idx < byte_vec.bytes().len(),
            byte_vec.bytes()[idx as int] == LIST,
        ensures
            r.idx() == idx,
    {
        ListRef { idx }
    }

    /// The integer at `idx`.
    pub fn get_i64<B: ByteVecTrait>(idx: u64, byte_vec: &B) -> (r: i64)
        requires
            idx + 9 <= byte_vec.bytes().len(),
            byte_vec.bytes()[idx as int] == INT64,
        ensures
            r == i64_from_le(word_at(byte_vec.bytes(), idx + 1)),
    {
        proof {
            byte_vec.lemma_len_bound();
        }
        byte_vec.get_i64(idx + 1)
    }

    /// The string at `idx`.
    pub fn get_string<B: ByteVecTrait>(idx: u64, byte_vec: &B) -> (r: StringRef)
        requires
            idx < byte_vec.bytes().len(),
            byte_vec.bytes()[idx as int] == STRING,
        ensures
            r.idx() == idx,
    {
        StringRef { idx }
    }

    /// The object at `idx`.
    pub fn get_object<B: ByteVecTrait>(idx: u64, byte_vec: &B) -> (r: ObjectRef)
        requires
            idx < byte_vec.bytes().len(),
            byte_vec.bytes()[idx as int] == OBJECT,
        ensures
            r.idx() == idx,
    {
        ObjectRef { idx }
    }
}

impl ListRef {
    /// The position of the list's tag.
    pub closed spec fn idx(&self) -> u64 {
        self.idx
    }

    /// The number of elements of the list.
    pub fn len<B: ByteVecTrait>(&self, byte_vec: &B) -> (r: u64)
        requires
            self.idx() + 9 <= byte_vec.bytes().len(),
        ensures
            r == u64_at(byte_vec.bytes(), self.idx() + 1),
    {
        proof {
            byte_vec.lemma_len_bound();
        }
        byte_vec.get_u64(self.idx + 1)
    }

    /// The position of element `list_idx`, found by stepping over the elements before it.
    pub fn get<B: ByteVecTrait>(&self, list_idx: usize, byte_vec: &B) -> (r: u64)
        requires
            self.idx() + 17 <= byte_vec.bytes().len(),
            list_idx < (i64_from_le(word_at(byte_vec.bytes(), self.idx() + 1)) as usize),
            steps_readable(byte_vec.bytes(), self.idx() + 17, list_idx as nat),
        ensures
            r == nth_stored(byte_vec.bytes(), self.idx() + 17, list_idx as nat),
    {
        proof {
            byte_vec.lemma_len_bound();
        }
        let ghost v = byte_vec.bytes();
        let mut start_idx = self.idx + 17;
        #[verifier::truncate]
        let list_len = byte_vec.get_i64(self.idx + 1) as usize;
        let mut k: usize = 0;
        while k < list_idx
            invariant
                v == byte_vec.bytes(),
                k <= list_idx,
                steps_readable(v, self.idx() + 17, list_idx as nat),
                start_idx == nth_stored(v, self.idx() + 17, k as nat),
            decreases list_idx - k,
        {
            assert(header_readable(v, nth_stored(v, self.idx() + 17, k as nat)));
            start_idx = start_idx + ObjectCollector::get_obj_len_bytes(start_idx, byte_vec);
            k = k + 1;
        }
        start_idx
    }
}

impl StringRef {
    /// The position of the string's tag.
    pub closed spec fn idx(&self) -> u64 {
        self.idx
    }

    /// The number of bytes of the string.
    pub fn len<B: ByteVecTrait>(&self, byte_vec: &B) -> (r: u64)
        requires
            self.idx() + 9 <= byte_vec.bytes().len(),
        ensures
            r == u64_at(byte_vec.bytes(), self.idx() + 1),
    {
        proof {
            byte_vec.lemma_len_bound();
        }
        byte_vec.get_u64(self.idx + 1)
    }

    /// The text of the string; its bytes must be UTF-8.
    pub fn to_string<B: ByteVecTrait>(&self, byte_vec: &B) -> (r: String)
        requires
            self.idx() + 9 <= byte_vec.bytes().len(),
            self.idx() + 9 + u64_at(byte_vec.bytes(), self.idx() + 1) <= byte_vec.bytes().len(),
            valid_utf8(string_bytes(byte_vec.bytes(), self.idx() as int)),
        ensures
            encode_utf8(r@) == string_bytes(byte_vec.bytes(), self.idx() as int),
    {
        proof {
            byte_vec.lemma_len_bound();
        }
        let ghost v = byte_vec.bytes();
        let len = byte_vec.get_u64(self.idx + 1);
        let start_idx = self.idx + 9;
        let mut bytes: Vec<u8> = Vec::new();
        let mut k: u64 = 0;
        while k < len
            invariant
                v == byte_vec.bytes(),
                start_idx == self.idx() + 9,
                len == u64_at(v, self.idx() + 1),
                start_idx + len <= v.len(),
                v.len() <= u64::MAX,
                k <= len,
                bytes@ == v.subrange(start_idx as int, start_idx + k),
            decreases len - k,
        {
            bytes.push(byte_vec.get_u8(start_idx + k));
            proof {
                assert(v.subrange(start_idx as int, start_idx + k + 1) =~= v.subrange(start_idx as int, start_idx + k).push(
                    v[start_idx + k],
                ));
            }
            k = k + 1;
        }
        let text = str_from_utf8(bytes.as_slice());
        text.to_owned()
    }
}

impl ObjectRef {
    /// The position of the object's tag.
    pub closed spec fn idx(&self) -> u64 {
        self.idx
    }

    /// The number of key,value pairs of the object.
    pub fn len<B: ByteVecTrait>(&self, byte_vec: &B) -> (r: u64)
        requires
            self.idx() + 9 <= byte_vec.bytes().len(),
        ensures
            r == u64_at(byte_vec.bytes(), self.idx() + 1),
    {
        proof {
            byte_vec.lemma_len_bound();
        }
        byte_vec.get_u64(self.idx + 1)
    }

    /// The position of the value of the first pair whose key is the string `key`.
    pub fn get_key<B: ByteVecTrait>(&self, byte_vec: &B, key: &str) -> (r: Option<u64>)
        requires
            header_readable(byte_vec.bytes(), self.idx() as int),
            self.idx() + 17 <= u64::MAX,
            self.idx() + stored_len(byte_vec.bytes(), self.idx() as int) <= u64::MAX,
            key_search_ok(
                byte_vec.bytes(),
                self.idx() + 17,
                self.idx() + stored_len(byte_vec.bytes(), self.idx() as int),
                key.spec_bytes(),
            ),
        ensures
            ({
                let found = find_key(
                    byte_vec.bytes(),
                    self.idx() + 17,
                    self.idx() + stored_len(byte_vec.bytes(), self.idx() as int),
                    key.spec_bytes(),
                );
                &&& r is None <==> found is None
                &&& r matches Some(x) ==> found == Some(x as int)
            }),
    {
        proof {
            byte_vec.lemma_len_bound();
        }
        let ghost v = byte_vec.bytes();
        let ghost kb = key.spec_bytes();
        let mut idx = self.idx + 17;
        let end_idx = self.idx + ObjectCollector::get_obj_len_bytes(self.idx, byte_vec);
        let key_bytes = key.as_bytes();
        while idx < end_idx
            invariant
                v == byte_vec.bytes(),
                kb == key.spec_bytes(),
                key_bytes@ == kb,
                end_idx == self.idx() + stored_len(v, self.idx() as int),
                v.len() <= u64::MAX,
                key_search_ok(v, idx as int, end_idx as int, kb),
                find_key(v, self.idx() + 17, end_idx as int, kb) == find_key(v, idx as int, end_idx as int, kb),
            decreases u64::MAX - idx,
        {
            let obj_type = byte_vec.get_u8(idx);
            if obj_type == STRING {
                let search_key = StringRef { idx };
                #[verifier::truncate]
                let n = search_key.len(byte_vec) as usize;
                if n == key_bytes.len() {
                    let mut matches = true;
                    let key_idx = idx + 9;
                    let mut search_idx: usize = 0;
                    proof {
                        assert(v.subrange(key_idx as int, key_idx as int) =~= kb.subrange(0, 0));
                    }
                    while search_idx < key_bytes.len()
                        invariant_except_break
                            matches,
                            v.subrange(key_idx as int, key_idx + search_idx) == kb.subrange(0, search_idx as int),
                        invariant
                            v == byte_vec.bytes(),
                            key_bytes@ == kb,
                            key_idx == idx + 9,
                            key_idx + kb.len() <= v.len(),
                            v.len() <= u64::MAX,
                            0 <= search_idx <= kb.len(),
                        ensures
                            matches ==> search_idx == kb.len() && v.subrange(key_idx as int, key_idx + search_idx)
                                == kb.subrange(0, search_idx as int),
                            !matches ==> v.subrange(key_idx as int, key_idx + kb.len()) != kb,
                        decreases kb.len() - search_idx,
                    {
                        if key_bytes[search_idx] != byte_vec.get_u8(key_idx + (search_idx as u64)) {
                            matches = false;
                            proof {
                                assert(v.subrange(key_idx as int, key_idx + kb.len())[search_idx as int] != kb[search_idx as int]);
                            }
                            break;
                        }
                        proof {
                            assert(v.subrange(key_idx as int, key_idx + search_idx + 1) =~= kb.subrange(0, search_idx + 1));
                        }
                        search_idx = search_idx + 1;
                    }
                    proof {
                        if matches {
                            assert(kb.subrange(0, kb.len() as int) =~= kb);
                        }
                        assert(matches <==> key_matches(v, idx as int, kb));
                    }
                    if matches {
                        idx = idx + ObjectCollector::get_obj_len_bytes(idx, byte_vec);
                        return Some(idx);
                    }
                }
            }
            let ghost p = idx as int;
            proof {
                assert(!key_matches(v, p, kb));
                assert(p < p + stored_len(v, p) + stored_len(v, p + stored_len(v, p)));
            }
            idx = idx + ObjectCollector::get_obj_len_bytes(idx, byte_vec);
            idx = idx + ObjectCollector::get_obj_len_bytes(idx, byte_vec);
            proof {
                assert(idx == p + stored_len(v, p) + stored_len(v, p + stored_len(v, p)));
            }
        }
        None
    }
}

// ----- collecting tokens

/// Which part of a number the collector is reading.
#[derive(Clone, Copy, PartialEq, Eq, Structural)]
pub enum NumberPart {
    Whole,
    Fraction,
    Exponent,
}

/// A number being read: its sign, the value of its whole part so far, and the values of
/// the digits of its fraction and of its exponent so far. Only the whole part is stored.
#[derive(Clone, Copy)]
pub struct NumberState {
    pub is_negative: bool,
    pub value: i64,
    pub part: NumberPart,
    pub decimal: u64,
    pub exponent: u64,
}

/// The state of the collector between tokens: the positions of the lists, objects and
/// strings it is inside, innermost last, and the number it is reading, if any.
pub type CollectState = (Seq<u64>, Option<NumberState>);

/// The value of the digit byte `d`.
pub open spec fn digit_value(d: u8) -> int {
    d - 48
}

/// `n` followed by the digit `d`, if that fits in `max`.
pub open spec fn append_digit(n: int, d: u8, max: int) -> Option<int> {
    if d >= 48 && 10 * n + digit_value(d) <= max {
        Some(10 * n + digit_value(d))
    } else {
        None
    }
}

/// The number that the digits `ds`, read one by one from zero, add up to, or `None`
/// where a step goes past `max`.
pub open spec fn read_digits(ds: Seq<u8>, max: int) -> Option<int>
    decreases ds.len(),
{
    if ds.len() == 0 {
        Some(0)
    } else {
        match read_digits(ds.drop_last(), max) {
            Some(n) => append_digit(n, ds.last(), max),
            None => None,
        }
    }
}

/// Reading decimal digits one by one gives the number they write, as the query parser
/// reads it, as long as no step goes past the limit.
pub proof fn lemma_read_digits_is_decimal(ds: Seq<u8>, max: int)
    requires
        forall|i: int| 0 <= i < ds.len() ==> 48 <= #[trigger] ds[i] <= 57,
        decimal_value(ds) <= max,
    ensures
        read_digits(ds, max) == Some(decimal_value(ds) as int),
    decreases ds.len(),
{
    if ds.len() > 0 {
        let init = ds.drop_last();
        assert forall|i: int| 0 <= i < init.len() implies 48 <= #[trigger] init[i] <= 57 by {
            assert(init[i] == ds[i]);
        }
        assert(ds.last() == ds[ds.len() - 1]);
        assert(decimal_value(init) <= decimal_value(ds));
        lemma_read_digits_is_decimal(init, max);
    }
}

/// Stores the number `n`.
pub open spec fn finish_number(stack: Seq<u64>, n: NumberState, v: Seq<u8>) -> Option<(CollectState, Seq<u8>)> {
    let value = if n.is_negative {
        -n.value
    } else {
        n.value as int
    };
    Some(((stack, None), v + seq![INT64] + i64_le_bytes(value as i64)))
}

/// Opens a list or an object: its position is pushed and its header is stored, with
/// both length fields marked unfinished.
pub open spec fn open_container(stack: Seq<u64>, v: Seq<u8>, tag: u8) -> Option<(CollectState, Seq<u8>)> {
    Some(
        (
            (stack.push(v.len() as u64), None),
            v + seq![tag] + spec_u64_to_le_bytes(u64::MAX) + spec_u64_to_le_bytes(u64::MAX),
        ),
    )
}

/// Closes the innermost list or object: the values stored since its header must exactly
/// fill the bytes after it; the header gets their number (halved for an object, whose
/// values come in key,value pairs and must be even in number) and the container's size.
pub open spec fn close_container(stack: Seq<u64>, v: Seq<u8>, pairs: bool) -> Option<(CollectState, Seq<u8>)> {
    if stack.len() == 0 {
        None
    } else {
        let obj = stack.last() as int;
        let end = v.len() as int;
        let count = stored_count(v, obj + 17, end);
        if !(obj + 17 <= end && stored_tile(v, obj + 17, end)) || (pairs && count % 2 != 0) {
            None
        } else {
            let len: int = if pairs {
                (count / 2) as int
            } else {
                count as int
            };
            Some(
                (
                    (stack.drop_last(), None),
                    with_word_at(
                        with_word_at(v, obj + 1, spec_u64_to_le_bytes(len as u64)),
                        obj + 9,
                        spec_u64_to_le_bytes((end - obj) as u64),
                    ),
                ),
            )
        }
    }
}

/// What the collector does with the token `t`: its next state and buffer, or `None`
/// where it does not handle the token.
pub open spec fn collect_step(c: CollectState, v: Seq<u8>, t: JsonToken) -> Option<(CollectState, Seq<u8>)> {
    let stack = c.0;
    match c.1 {
        Some(n) => match n.part {
            NumberPart::Whole => match t {
                JsonToken::NumberDigit(d) => match append_digit(n.value as int, d, i64::MAX as int) {
                    Some(x) => Some(((stack, Some(NumberState { value: x as i64, ..n })), v)),
                    None => None,
                },
                JsonToken::NumberEnd => finish_number(stack, n, v),
                JsonToken::NumberDecimalPoint => Some(((stack, Some(NumberState { part: NumberPart::Fraction, ..n })), v)),
                JsonToken::NumberExponentStart => Some(((stack, Some(NumberState { part: NumberPart::Exponent, ..n })), v)),
                _ => None,
            },
            NumberPart::Fraction => match t {
                JsonToken::NumberDigit(d) => match append_digit(n.decimal as int, d, u64::MAX as int) {
                    Some(x) => Some(((stack, Some(NumberState { decimal: x as u64, ..n })), v)),
                    None => None,
                },
                JsonToken::NumberEnd => finish_number(stack, n, v),
                JsonToken::NumberExponentStart => Some(((stack, Some(NumberState { part: NumberPart::Exponent, ..n })), v)),
                _ => None,
            },
            NumberPart::Exponent => match t {
                JsonToken::NumberStart { is_negative: _, digit: d } => if d >= 48 {
                    Some(((stack, Some(NumberState { exponent: digit_value(d) as u64, ..n })), v))
                } else {
                    None
                },
                JsonToken::NumberDigit(d) => match append_digit(n.exponent as int, d, u64::MAX as int) {
                    Some(x) => Some(((stack, Some(NumberState { exponent: x as u64, ..n })), v)),
                    None => None,
                },
                JsonToken::NumberEnd => finish_number(stack, n, v),
                _ => None,
            },
        },
        None => match t {
            JsonToken::NumberStart { is_negative, digit } => if digit >= 48 {
                Some(
                    (
                        (
                            stack,
                            Some(
                                NumberState {
                                    is_negative,
                                    value: digit_value(digit) as i64,
                                    part: NumberPart::Whole,
                                    decimal: 0,
                                    exponent: 0,
                                },
                            ),
                        ),
                        v,
                    ),
                )
            } else {
                None
            },
            JsonToken::ListStart => open_container(stack, v, LIST),
            JsonToken::ListEnd => close_container(stack, v, false),
            JsonToken::StringStart => Some(
                ((stack.push(v.len() as u64), None), v + seq![STRING] + spec_u64_to_le_bytes(u64::MAX)),
            ),
            JsonToken::StringUtf8CodePoint(b) => Some(((stack, None), v.push(b))),
            JsonToken::StringEnd => if stack.len() > 0 && stack.last() + 9 <= v.len() {
                Some(
                    (
                        (stack.drop_last(), None),
                        with_word_at(v, stack.last() + 1, spec_u64_to_le_bytes((v.len() - stack.last() - 9) as u64)),
                    ),
                )
            } else {
                None
            },
            JsonToken::ObjectStart => open_container(stack, v, OBJECT),
            JsonToken::ObjectEnd => close_container(stack, v, true),
            JsonToken::False => Some(((stack, None), v + seq![BOOL, 0u8])),
            JsonToken::True => Some(((stack, None), v + seq![BOOL, 1u8])),
            _ => None,
        },
    }
}

/// The buffer that the collector ends with, fed with the tokens of a lexer with stack
/// `ls`, at position `pos` of a reader with `r` ahead, when the lexer hands out `Done`
/// (outside any number) within `fuel` tokens, and neither the lexer nor the collector
/// meets an input it does not handle on the way.
pub open spec fn collect_run(
    ls: Seq<ParseState>,
    r: Seq<u8>,
    pos: int,
    c: CollectState,
    v: Seq<u8>,
    fuel: nat,
) -> Option<Seq<u8>>
    decreases fuel,
{
    if fuel == 0 || unicode_escape_ahead(ls, r) {
        None
    } else {
        let st = lex_step(ls, r, pos);
        if st.2 == JsonToken::Done && c.1 is None {
            Some(v)
        } else {
            match collect_step(c, v, st.2) {
                None => None,
                Some(next) => collect_run(st.0, r.skip(st.1), pos + st.1, next.0, next.1, (fuel - 1) as nat),
            }
        }
    }
}

/// The collector's result does not depend on how much fuel it was given.
pub proof fn lemma_collect_run_unique(
    ls: Seq<ParseState>,
    r: Seq<u8>,
    pos: int,
    c: CollectState,
    v: Seq<u8>,
    f1: nat,
    f2: nat,
)
    requires
        collect_run(ls, r, pos, c, v, f1) is Some,
        collect_run(ls, r, pos, c, v, f2) is Some,
    ensures
        collect_run(ls, r, pos, c, v, f1) == collect_run(ls, r, pos, c, v, f2),
    decreases f1,
{
    let st = lex_step(ls, r, pos);
    if !(st.2 == JsonToken::Done && c.1 is None) {
        let next = collect_step(c, v, st.2)->0;
        lemma_collect_run_unique(st.0, r.skip(st.1), pos + st.1, next.0, next.1, (f1 - 1) as nat, (f2 - 1) as nat);
    }
}

/// A number that the collector finishes is stored as an integer after the bytes already
/// in the buffer, and the integer read there is the number's signed whole part.
pub proof fn lemma_finished_number_reads_back(stack: Seq<u64>, n: NumberState, v: Seq<u8>)
    ensures
        ({
            let w = finish_number(stack, n, v)->0 .1;
            let value: int = if n.is_negative {
                -n.value
            } else {
                n.value as int
            };
            &&& w.len() == v.len() + 9
            &&& w.subrange(0, v.len() as int) == v
            &&& w[v.len() as int] == INT64
            &&& i64_from_le(word_at(w, v.len() + 1int)) == value as i64
        }),
{
    let value: int = if n.is_negative {
        -n.value
    } else {
        n.value as int
    };
    let w = finish_number(stack, n, v)->0 .1;
    lemma_i64_le_roundtrip(value as i64);
    assert(word_at(w, v.len() + 1int) =~= i64_le_bytes(value as i64));
    assert(w.subrange(0, v.len() as int) =~= v);
}

/// Closing a list or an object records, in its header, the number of values stored in
/// it (of key,value pairs for an object) and its size, and leaves its tag and its values
/// as they were.
pub proof fn lemma_closed_container_reads_back(stack: Seq<u64>, v: Seq<u8>, pairs: bool)
    requires
        close_container(stack, v, pairs) is Some,
    ensures
        ({
            let w = close_container(stack, v, pairs)->0 .1;
            let obj = stack.last() as int;
            let count = stored_count(v, obj + 17, v.len() as int);
            let len: int = if pairs {
                (count / 2) as int
            } else {
                count as int
            };
            &&& w.len() == v.len()
            &&& w[obj] == v[obj]
            &&& u64_at(w, obj + 1) == len as u64
            &&& u64_at(w, obj + 9) == (v.len() - obj) as u64
            &&& w.subrange(obj + 17, w.len() as int) == v.subrange(obj + 17, v.len() as int)
        }),
{
    let obj = stack.last() as int;
    let end = v.len() as int;
    let count = stored_count(v, obj + 17, end);
    let len: int = if pairs {
        (count / 2) as int
    } else {
        count as int
    };
    let lw = spec_u64_to_le_bytes(len as u64);
    let sw = spec_u64_to_le_bytes((end - obj) as u64);
    lemma_le_roundtrip(len as u64);
    lemma_le_roundtrip((end - obj) as u64);
    let x = with_word_at(v, obj + 1, lw);
    let w = with_word_at(x, obj + 9, sw);
    assert(word_at(w, obj + 1) =~= lw);
    assert(word_at(w, obj + 9) =~= sw);
    assert(w.subrange(obj + 17, w.len() as int) =~= v.subrange(obj + 17, v.len() as int));
}

/// The collector fed with the tokens `ts`, one after another: its state and buffer
/// after the last, or `None` where it does not handle one of them.
pub open spec fn collect_tokens(c: CollectState, v: Seq<u8>, ts: Seq<JsonToken>) -> Option<(CollectState, Seq<u8>)>
    decreases ts.len(),
{
    if ts.len() == 0 {
        Some((c, v))
    } else {
        match collect_step(c, v, ts[0]) {
            None => None,
            Some(next) => collect_tokens(next.0, next.1, ts.drop_first()),
        }
    }
}

/// The tokens of a string whose bytes are `bytes`.
pub open spec fn string_tokens(bytes: Seq<u8>) -> Seq<JsonToken> {
    seq![JsonToken::StringStart] + bytes.map_values(|b: u8| JsonToken::StringUtf8CodePoint(b)) + seq![
        JsonToken::StringEnd,
    ]
}

proof fn lemma_collect_tokens_append(c: CollectState, v: Seq<u8>, a: Seq<JsonToken>, b: Seq<JsonToken>)
    ensures
        collect_tokens(c, v, a + b) == match collect_tokens(c, v, a) {
            None => None,
            Some(next) => collect_tokens(next.0, next.1, b),
        },
    decreases a.len(),
{
    if a.len() > 0 {
        assert((a + b).drop_first() =~= a.drop_first() + b);
        assert((a + b)[0] == a[0]);
        match collect_step(c, v, a[0]) {
            None => {},
            Some(next) => lemma_collect_tokens_append(next.0, next.1, a.drop_first(), b),
        }
    } else {
        assert(a + b =~= b);
    }
}

proof fn lemma_collect_code_points(stack: Seq<u64>, v: Seq<u8>, bytes: Seq<u8>)
    ensures
        collect_tokens((stack, None), v, bytes.map_values(|b: u8| JsonToken::StringUtf8CodePoint(b)))
            == Some(((stack, None::<NumberState>), v + bytes)),
    decreases bytes.len(),
{
    let ts = bytes.map_values(|b: u8| JsonToken::StringUtf8CodePoint(b));
    if bytes.len() == 0 {
        assert(v + bytes =~= v);
    } else {
        assert(ts.drop_first() =~= bytes.drop_first().map_values(|b: u8| JsonToken::StringUtf8CodePoint(b)));
        lemma_collect_code_points(stack, v.push(bytes[0]), bytes.drop_first());
        assert(v.push(bytes[0]) + bytes.drop_first() =~= v + bytes);
    }
}

/// A string that the collector reads is stored after the bytes already in the buffer,
/// and its recorded length and its bytes, read there, are those of the string.
pub proof fn lemma_collected_string_reads_back(stack: Seq<u64>, v: Seq<u8>, bytes: Seq<u8>)
    requires
        v.len() + 9 + bytes.len() <= u64::MAX,
    ensures
        ({
            let r = collect_tokens((stack, None), v, string_tokens(bytes));
            let w = r->0 .1;
            &&& r is Some
            &&& r->0 .0 == (stack, None::<NumberState>)
            &&& w.len() == v.len() + 9 + bytes.len()
            &&& w.subrange(0, v.len() as int) == v
            &&& w[v.len() as int] == STRING
            &&& u64_at(w, v.len() + 1int) == bytes.len()
            &&& string_bytes(w, v.len() as int) == bytes
        }),
{
    let s = v.len() as u64;
    let head = v + seq![STRING] + spec_u64_to_le_bytes(u64::MAX);
    let cps = bytes.map_values(|b: u8| JsonToken::StringUtf8CodePoint(b));
    let ts = string_tokens(bytes);
    lemma_le_roundtrip(u64::MAX);
    lemma_le_roundtrip(bytes.len() as u64);
    assert(ts =~= seq![JsonToken::StringStart] + (cps + seq![JsonToken::StringEnd]));
    lemma_collect_tokens_append((stack, None), v, seq![JsonToken::StringStart], cps + seq![JsonToken::StringEnd]);
    assert(seq![JsonToken::StringStart].drop_first() =~= Seq::<JsonToken>::empty());
    assert(collect_tokens((stack, None), v, seq![JsonToken::StringStart]) == Some(((stack.push(s), None::<NumberState>), head))) by {
        reveal_with_fuel(collect_tokens, 2);
    }
    lemma_collect_tokens_append((stack.push(s), None), head, cps, seq![JsonToken::StringEnd]);
    lemma_collect_code_points(stack.push(s), head, bytes);
    let x = head + bytes;
    assert(stack.push(s).last() == s);
    assert(stack.push(s).drop_last() =~= stack);
    let w = with_word_at(x, s + 1, spec_u64_to_le_bytes((x.len() - s - 9) as u64));
    assert(seq![JsonToken::StringEnd].drop_first() =~= Seq::<JsonToken>::empty());
    assert(collect_tokens((stack.push(s), None), x, seq![JsonToken::StringEnd]) == Some(((stack, None::<NumberState>), w))) by {
        reveal_with_fuel(collect_tokens, 2);
    }
    assert(x.len() - s - 9 == bytes.len());
    assert(word_at(w, s + 1) =~= spec_u64_to_le_bytes(bytes.len() as u64));
    assert(w.subrange(0, v.len() as int) =~= v);
    assert(string_bytes(w, s as int) =~= bytes);
}

impl ObjectCollector {
    /// The number of values that fill the container at `obj_idx`, and the container's
    /// size, up to the end of the buffer.
    fn count_items<B: ByteVecTrait>(byte_vec: &B, obj_idx: u64) -> (r: (u64, u64))
        requires
            obj_idx + 17 <= byte_vec.bytes().len(),
            stored_tile(byte_vec.bytes(), obj_idx + 17, byte_vec.bytes().len() as int),
        ensures
            r.0 == stored_count(byte_vec.bytes(), obj_idx + 17, byte_vec.bytes().len() as int),
            r.1 == byte_vec.bytes().len() - obj_idx,
    {
        let ghost v = byte_vec.bytes();
        proof {
            byte_vec.lemma_len_bound();
        }
        let end_idx = byte_vec.len();
        let mut len: u64 = 0;
        let mut n_bytes: u64 = 17;
        let mut idx: u64 = obj_idx + 17;
        while idx < end_idx
            invariant
                v == byte_vec.bytes(),
                end_idx == v.len(),
                obj_idx + 17 <= idx <= end_idx,
                stored_tile(v, idx as int, end_idx as int),
                len + stored_count(v, idx as int, end_idx as int) == stored_count(v, obj_idx + 17, end_idx as int),
                n_bytes == idx - obj_idx,
                len <= idx - obj_idx - 17,
            decreases end_idx - idx,
        {
            let elem_n_bytes = ObjectCollector::get_obj_len_bytes(idx, byte_vec);
            len = len + 1;
            n_bytes = n_bytes + elem_n_bytes;
            idx = idx + elem_n_bytes;
        }
        (len, n_bytes)
    }

    /// Stores a finished number.
    fn store_number<B: ByteVecTrait>(n: NumberState, byte_vec: &mut B)
        requires
            n.value >= 0,
        ensures
            final(byte_vec).bytes() == (finish_number(Seq::empty(), n, old(byte_vec).bytes())->0).1,
    {
        let mut value = n.value;
        if n.is_negative {
            value = -value;
        }
        byte_vec.push_u8(INT64);
        byte_vec.push_i64(value);
        proof {
            assert(final(byte_vec).bytes() =~= old(byte_vec).bytes() + seq![INT64] + i64_le_bytes(value));
        }
    }

    /// Opens a list or an object.
    fn open_container<B: ByteVecTrait>(stack: &mut Vec<u64>, byte_vec: &mut B, tag: u8)
        ensures
            open_container(old(stack)@, old(byte_vec).bytes(), tag) == Some(
                ((final(stack)@, None::<NumberState>), final(byte_vec).bytes()),
            ),
    {
        stack.push(byte_vec.len());
        byte_vec.push_u8(tag);
        byte_vec.push_u64(u64::MAX);
        byte_vec.push_u64(u64::MAX);
        proof {
            assert(byte_vec.bytes() =~= old(byte_vec).bytes() + seq![tag] + spec_u64_to_le_bytes(u64::MAX)
                + spec_u64_to_le_bytes(u64::MAX));
        }
    }

    /// Closes the innermost list (`pairs` false) or object.
    fn close_container<B: ByteVecTrait>(stack: &mut Vec<u64>, byte_vec: &mut B, pairs: bool)
        requires
            close_container(old(stack)@, old(byte_vec).bytes(), pairs) is Some,
        ensures
            close_container(old(stack)@, old(byte_vec).bytes(), pairs) == Some(
                ((final(stack)@, None::<NumberState>), final(byte_vec).bytes()),
            ),
    {
        let obj_idx = stack.pop().unwrap();
        proof {
            byte_vec.lemma_len_bound();
        }
        let (len, n_bytes) = ObjectCollector::count_items(byte_vec, obj_idx);
        let len = if pairs {
            len / 2
        } else {
            len
        };
        proof {
            crate::byte_vec::lemma_le_roundtrip(len);
        }
        byte_vec.set_u64(obj_idx + 1, len);
        byte_vec.set_u64(obj_idx + 9, n_bytes);
    }

    /// Hands one token to the collector.
    fn collect_token<B: ByteVecTrait>(
        stack: &mut Vec<u64>,
        num: &mut Option<NumberState>,
        byte_vec: &mut B,
        token: JsonToken,
    )
        requires
            collect_step((old(stack)@, *old(num)), old(byte_vec).bytes(), token) is Some,
            *old(num) matches Some(n) ==> n.value >= 0,
        ensures
            collect_step((old(stack)@, *old(num)), old(byte_vec).bytes(), token) == Some(
                ((final(stack)@, *final(num)), final(byte_vec).bytes()),
            ),
            *final(num) matches Some(n) ==> n.value >= 0,
    {
        proof {
            byte_vec.lemma_len_bound();
        }
        match *num {
            Some(n) => {
                match n.part {
                    NumberPart::Whole => match token {
                        JsonToken::NumberDigit(digit) => {
                            let d = digit - 48;
                            *num = Some(NumberState { value: 10 * n.value + (d as i64), ..n });
                        },
                        JsonToken::NumberEnd => {
                            ObjectCollector::store_number(n, byte_vec);
                            *num = None;
                        },
                        JsonToken::NumberDecimalPoint => {
                            *num = Some(NumberState { part: NumberPart::Fraction, ..n });
                        },
                        JsonToken::NumberExponentStart => {
                            *num = Some(NumberState { part: NumberPart::Exponent, ..n });
                        },
                        _ => vstd::pervasive::unreached(),
                    },
                    NumberPart::Fraction => match token {
                        JsonToken::NumberDigit(digit) => {
                            let d = digit - 48;
                            *num = Some(NumberState { decimal: 10 * n.decimal + (d as u64), ..n });
                        },
                        JsonToken::NumberEnd => {
                            ObjectCollector::store_number(n, byte_vec);
                            *num = None;
                        },
                        JsonToken::NumberExponentStart => {
                            *num = Some(NumberState { part: NumberPart::Exponent, ..n });
                        },
                        _ => vstd::pervasive::unreached(),
                    },
                    NumberPart::Exponent => match token {
                        JsonToken::NumberStart { is_negative: _, digit } => {
                            let d = digit - 48;
                            *num = Some(NumberState { exponent: d as u64, ..n });
                        },
                        JsonToken::NumberDigit(digit) => {
                            let d = digit - 48;
                            *num = Some(NumberState { exponent: 10 * n.exponent + (d as u64), ..n });
                        },
                        JsonToken::NumberEnd => {
                            ObjectCollector::store_number(n, byte_vec);
                            *num = None;
                        },
                        _ => vstd::pervasive::unreached(),
                    },
                }
            },
            None => match token {
                JsonToken::NumberStart { is_negative, digit } => {
                    let d = digit - 48;
                    *num = Some(
                        NumberState { is_negative, value: d as i64, part: NumberPart::Whole, decimal: 0, exponent: 0 },
                    );
                },
                JsonToken::ListStart => {
                    ObjectCollector::open_container(stack, byte_vec, LIST);
                },
                JsonToken::ListEnd => {
                    ObjectCollector::close_container(stack, byte_vec, false);
                },
                JsonToken::StringStart => {
                    stack.push(byte_vec.len());
                    byte_vec.push_u8(STRING);
                    byte_vec.push_u64(u64::MAX);
                    proof {
                        assert(byte_vec.bytes() =~= old(byte_vec).bytes() + seq![STRING] + spec_u64_to_le_bytes(u64::MAX));
                    }
                },
                JsonToken::StringUtf8CodePoint(code_point) => {
                    byte_vec.push_u8(code_point);
                },
                JsonToken::StringEnd => {
                    let obj_idx = stack.pop().unwrap();
                    let n_u8_chars = byte_vec.len() - obj_idx - 1 - 8;
                    byte_vec.set_u64(obj_idx + 1, n_u8_chars);
                },
                JsonToken::ObjectStart => {
                    ObjectCollector::open_container(stack, byte_vec, OBJECT);
                },
                JsonToken::ObjectEnd => {
                    ObjectCollector::close_container(stack, byte_vec, true);
                },
                JsonToken::False => {
                    byte_vec.push_u8(BOOL);
                    byte_vec.push_u8(0);
                    proof {
                        assert(byte_vec.bytes() =~= old(byte_vec).bytes() + seq![BOOL, 0u8]);
                    }
                },
                JsonToken::True => {
                    byte_vec.push_u8(BOOL);
                    byte_vec.push_u8(1);
                    proof {
                        assert(byte_vec.bytes() =~= old(byte_vec).bytes() + seq![BOOL, 1u8]);
                    }
                },
                _ => vstd::pervasive::unreached(),
            },
        }
    }

    /// Reads the tokens of one JSON value from `lexer` and stores the value in `byte_vec`.
    /// The lexer's input must be one that it and the collector handle to the end of the
    /// value; the buffer then ends as `collect_run` says.
    pub fn populate_from_lexer<'a, R: ReaderTrait, B: ByteVecTrait>(lexer: &mut JsonLexer<'a, R>, byte_vec: &mut B)
        requires
            exists|fuel: nat|
                collect_run(
                    old(lexer).stack(),
                    old(lexer).input(),
                    old(lexer).pos() as int,
                    (Seq::empty(), None),
                    old(byte_vec).bytes(),
                    fuel,
                ) is Some,
        ensures
            forall|fuel: nat|
                #[trigger] collect_run(
                    old(lexer).stack(),
                    old(lexer).input(),
                    old(lexer).pos() as int,
                    (Seq::empty(), None),
                    old(byte_vec).bytes(),
                    fuel,
                ) matches Some(b) ==> final(byte_vec).bytes() == b,
            *final(final(lexer).reader) == *final(old(lexer).reader),
    {
        let ghost start: CollectState = (Seq::empty(), None);
        let ghost fuel0 = choose|fuel: nat|
            collect_run(
                old(lexer).stack(),
                old(lexer).input(),
                old(lexer).pos() as int,
                start,
                old(byte_vec).bytes(),
                fuel,
            ) is Some;
        let ghost target = collect_run(
            old(lexer).stack(),
            old(lexer).input(),
            old(lexer).pos() as int,
            start,
            old(byte_vec).bytes(),
            fuel0,
        )->0;
        let mut stack: Vec<u64> = Vec::new();
        let mut num: Option<NumberState> = None;
        let ghost mut fuel: nat = fuel0;
        proof {
            assert(stack@ =~= Seq::<u64>::empty());
        }
        loop
            invariant_except_break
                collect_run(lexer.stack(), lexer.input(), lexer.pos() as int, (stack@, num), byte_vec.bytes(), fuel)
                    == Some(target),
            invariant
                num matches Some(n) ==> n.value >= 0,
                *final(lexer.reader) == *final(old(lexer).reader),
            ensures
                byte_vec.bytes() == target,
                *final(lexer.reader) == *final(old(lexer).reader),
            decreases fuel,
        {
            let token = lexer.next();
            match token {
                JsonToken::Done => {
                    if num.is_none() {
                        break;
                    }
                },
                _ => {},
            }
            ObjectCollector::collect_token(&mut stack, &mut num, byte_vec, token);
            proof {
                fuel = (fuel - 1) as nat;
            }
        }
        proof {
            assert forall|f: nat|
                #[trigger] collect_run(old(lexer).stack(), old(lexer).input(), old(lexer).pos() as int, start, old(byte_vec).bytes(), f)
                    is Some implies byte_vec.bytes() == collect_run(
                    old(lexer).stack(),
                    old(lexer).input(),
                    old(lexer).pos() as int,
                    start,
                    old(byte_vec).bytes(),
                    f,
                )->0 by {
                lemma_collect_run_unique(
                    old(lexer).stack(),
                    old(lexer).input(),
                    old(lexer).pos() as int,
                    start,
                    old(byte_vec).bytes(),
                    f,
                    fuel0,
                );
            }
        }
    }
}

} // verus!
