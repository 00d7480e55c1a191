//! A compact binary encoding of values in a byte vector.
//!
//! Every item starts with a one-byte tag:
//! - unsigned integer: tag, then the 8 little-endian bytes of the value;
//! - signed integer: tag, then the 8 little-endian bytes of the value;
//! - string: tag, 8 bytes of length, then the UTF-8 bytes;
//! - list: tag, 8 bytes LEN, 8 bytes N_BYTES, the items, then one 8-byte offset
//!   (relative to the list's tag) per item;
//! - object: tag, 8 bytes LEN, 8 bytes N_BYTES, the key,value pairs, then one
//!   8-byte offset per key, ordered by key, for binary search.
use vstd::bytes::{spec_u64_from_le_bytes, spec_u64_to_le_bytes, u64_from_le_bytes, u64_to_le_bytes};
use vstd::prelude::*;
use vstd::slice::slice_subrange;
use vstd::string::StringSliceAdditionalSpecFns;
use vstd::utf8::valid_utf8;
use crate::byte_vec::{lemma_le_roundtrip, word_at, with_word_at};

verus! {

pub const INT_U64: u8 = 1;

pub const INT_I64: u8 = 2;

pub const STRING: u8 = 3;

pub const LIST: u8 = 4;

pub const OBJECT: u8 = 5;

/// The size of the header of a list or an object: tag, LEN and N_BYTES.
pub const HEADER_BYTES: usize = 17;

/// The unsigned integer in the 8 bytes at `idx`.
pub open spec fn u64_at(v: Seq<u8>, idx: int) -> int {
    spec_u64_from_le_bytes(word_at(v, idx)) as int
}

/// The signed integer in the 8 bytes at `idx`.
pub open spec fn i64_at(v: Seq<u8>, idx: int) -> i64 {
    spec_u64_from_le_bytes(word_at(v, idx)) as i64
}

/// `n` zero bytes.
pub open spec fn zeros(n: nat) -> Seq<u8> {
    Seq::new(n, |i: int| 0u8)
}

/// The encoding of an unsigned integer item.
pub open spec fn u64_item(val: u64) -> Seq<u8> {
    seq![INT_U64] + spec_u64_to_le_bytes(val)
}

/// The encoding of a signed integer item.
pub open spec fn i64_item(val: i64) -> Seq<u8> {
    seq![INT_I64] + spec_u64_to_le_bytes(val as u64)
}

/// The encoding of a string item.
pub open spec fn string_item(bytes: Seq<u8>) -> Seq<u8> {
    seq![STRING] + spec_u64_to_le_bytes(bytes.len() as u64) + bytes
}

/// The number of bytes of the item whose tag is at `idx`, as its header says.
pub open spec fn item_len(v: Seq<u8>, idx: int) -> int {
    let tag = v[idx];
    if tag == INT_U64 || tag == INT_I64 {
        9
    } else if tag == STRING {
        9 + u64_at(v, idx + 1)
    } else if tag == LIST || tag == OBJECT {
        u64_at(v, idx + 9)
    } else {
        0
    }
}

/// A complete item starts at `idx` and ends at or before `end`: its tag is known, its
/// header lies before `end`, and its length is positive and reaches no further than `end`.
pub open spec fn item_ok(v: Seq<u8>, idx: int, end: int) -> bool {
    let tag = v[idx];
    &&& 0 <= idx < end <= v.len()
    &&& (tag == INT_U64 || tag == INT_I64 || tag == STRING || tag == LIST || tag == OBJECT)
    &&& (tag == STRING ==> idx + 9 <= end)
    &&& ((tag == LIST || tag == OBJECT) ==> idx + 17 <= end && 17 <= item_len(v, idx))
    &&& 0 < item_len(v, idx)
    &&& idx + item_len(v, idx) <= end
}

/// The items starting at `p` exactly fill the bytes up to `end`.
pub open spec fn items_tile(v: Seq<u8>, p: int, end: int) -> bool
    decreases end - p,
{
    if p >= end {
        p == end
    } else {
        item_ok(v, p, end) && items_tile(v, p + item_len(v, p), end)
    }
}

/// The positions of the items that fill the bytes from `p` up to `end`.
pub open spec fn item_starts(v: Seq<u8>, p: int, end: int) -> Seq<int>
    decreases end - p,
{
    if p >= end || !item_ok(v, p, end) {
        Seq::empty()
    } else {
        seq![p] + item_starts(v, p + item_len(v, p), end)
    }
}

/// The index table of a list: the 8-byte encoding of each offset, in order.
pub open spec fn offsets_table(offs: Seq<int>) -> Seq<u8>
    decreases offs.len(),
{
    if offs.len() == 0 {
        Seq::empty()
    } else {
        offsets_table(offs.drop_last()) + spec_u64_to_le_bytes(offs.last() as u64)
    }
}

/// `offs` shifted so that they are relative to `base`.
pub open spec fn relative_to(offs: Seq<int>, base: int) -> Seq<int> {
    offs.map_values(|o: int| o - base)
}

/// Headers and lengths of the items before `end` depend only on the bytes before `end`.
proof fn lemma_items_depend_on_prefix(v: Seq<u8>, w: Seq<u8>, p: int, end: int)
    requires
        0 <= end <= v.len(),
        end <= w.len(),
        v.subrange(0, end) == w.subrange(0, end),
    ensures
        items_tile(v, p, end) == items_tile(w, p, end),
        item_starts(v, p, end) == item_starts(w, p, end),
        0 <= p < end ==> item_ok(v, p, end) == item_ok(w, p, end),
        0 <= p < end && item_ok(v, p, end) ==> item_len(v, p) == item_len(w, p),
    decreases end - p,
{
    if 0 <= p < end {
        assert(v[p] == v.subrange(0, end)[p]);
        assert(w[p] == w.subrange(0, end)[p]);
        if p + 9 <= end {
            assert(word_at(v, p + 1) =~= word_at(w, p + 1)) by {
                assert forall|k: int| 0 <= k < 8 implies #[trigger] word_at(v, p + 1)[k] == word_at(w, p + 1)[k] by {
                    assert(v[p + 1 + k] == v.subrange(0, end)[p + 1 + k]);
                    assert(w[p + 1 + k] == w.subrange(0, end)[p + 1 + k]);
                }
            }
        }
        if p + 17 <= end {
            assert(word_at(v, p + 9) =~= word_at(w, p + 9)) by {
                assert forall|k: int| 0 <= k < 8 implies #[trigger] word_at(v, p + 9)[k] == word_at(w, p + 9)[k] by {
                    assert(v[p + 9 + k] == v.subrange(0, end)[p + 9 + k]);
                    assert(w[p + 9 + k] == w.subrange(0, end)[p + 9 + k]);
                }
            }
        }
        if item_ok(v, p, end) {
            lemma_items_depend_on_prefix(v, w, p + item_len(v, p), end);
        }
    }
}

// ----- basic reads and writes

/// A vector never holds more than `usize::MAX` elements.
proof fn lemma_len_bound(v: &Vec<u8>)
    ensures
        v@.len() <= usize::MAX,
{
    assert(v.len() == v@.len());
}

fn internal_read_u64(vec: &Vec<u8>, idx: usize) -> (r: u64)
    requires
        idx + 8 <= vec@.len(),
    ensures
        r == u64_at(vec@, idx as int),
{
    proof {
        lemma_len_bound(vec);
    }
    u64_from_le_bytes(slice_subrange(vec.as_slice(), idx, idx + 8))
}

/// The unsigned integer at `idx`, as a `usize`; it must be at most `bound`.
fn read_u64_bounded(vec: &Vec<u8>, idx: usize, bound: usize) -> (r: usize)
    requires
        idx + 8 <= vec@.len(),
        u64_at(vec@, idx as int) <= bound,
    ensures
        r == u64_at(vec@, idx as int),
{
    internal_read_u64(vec, idx) as usize
}

fn internal_write_u64(vec: &mut Vec<u8>, idx: usize, val: u64)
    requires
        idx + 8 <= old(vec)@.len(),
    ensures
        final(vec)@ == with_word_at(old(vec)@, idx as int, spec_u64_to_le_bytes(val)),
        final(vec)@.len() == old(vec)@.len(),
{
    let bytes = u64_to_le_bytes(val);
    proof {
        lemma_len_bound(vec);
    }
    let mut i: usize = 0;
    while i < 8
        invariant
            0 <= i <= 8,
            idx + 8 <= old(vec)@.len(),
            old(vec)@.len() <= usize::MAX,
            bytes@ == spec_u64_to_le_bytes(val),
            bytes@.len() == 8,
            vec@.len() == old(vec)@.len(),
            forall|k: int| 0 <= k < vec@.len() ==> #[trigger] vec@[k] == if idx <= k < idx + i {
                bytes@[k - idx]
            } else {
                old(vec)@[k]
            },
        decreases 8 - i,
    {
        vec.set(idx + i, bytes[i]);
        i = i + 1;
    }
    proof {
        assert(vec@ =~= with_word_at(old(vec)@, idx as int, spec_u64_to_le_bytes(val)));
    }
}

fn append_bytes(vec: &mut Vec<u8>, s: &[u8])
    ensures
        final(vec)@ == old(vec)@ + s@,
{
    let mut i: usize = 0;
    while i < s.len()
        invariant
            0 <= i <= s@.len(),
            vec@ == old(vec)@ + s@.subrange(0, i as int),
        decreases s@.len() - i,
    {
        vec.push(s[i]);
        proof {
            assert(s@.subrange(0, i + 1) == s@.subrange(0, i as int).push(s@[i as int]));
        }
        i = i + 1;
    }
    proof {
        assert(s@.subrange(0, s@.len() as int) == s@);
    }
}

fn internal_append_u64(vec: &mut Vec<u8>, val: u64)
    ensures
        final(vec)@ == old(vec)@ + spec_u64_to_le_bytes(val),
{
    let bytes = u64_to_le_bytes(val);
    append_bytes(vec, bytes.as_slice());
}

/// Appends an unsigned integer item.
pub fn write_u64(vec: &mut Vec<u8>, val: u64)
    ensures
        final(vec)@ == old(vec)@ + u64_item(val),
{
    vec.push(INT_U64);
    internal_append_u64(vec, val);
    proof {
        assert(vec@ =~= old(vec)@ + u64_item(val));
    }
}

/// The unsigned integer item at `idx`.
pub fn read_u64(vec: &Vec<u8>, idx: usize) -> (r: u64)
    requires
        idx + 9 <= vec@.len(),
        vec@[idx as int] == INT_U64,
    ensures
        r == u64_at(vec@, idx + 1),
{
    proof {
        lemma_len_bound(vec);
    }
    let idx = idx + 1;
    internal_read_u64(vec, idx)
}

/// Appends a signed integer item.
pub fn write_i64(vec: &mut Vec<u8>, val: i64)
    ensures
        final(vec)@ == old(vec)@ + i64_item(val),
{
    vec.push(INT_I64);
    internal_append_u64(vec, val as u64);
    proof {
        assert(vec@ =~= old(vec)@ + i64_item(val));
    }
}

/// The signed integer item at `idx`.
pub fn read_i64(vec: &Vec<u8>, idx: usize) -> (r: i64)
    requires
        idx + 9 <= vec@.len(),
        vec@[idx as int] == INT_I64,
    ensures
        r == i64_at(vec@, idx + 1),
{
    proof {
        lemma_len_bound(vec);
    }
    let idx = idx + 1;
    #[verifier::truncate]
    (internal_read_u64(vec, idx) as i64)
}

/// Appends a string item.
pub fn write_string(vec: &mut Vec<u8>, val: &str)
    ensures
        final(vec)@ == old(vec)@ + string_item(val.spec_bytes()),
{
    let bytes = val.as_bytes();
    vec.push(STRING);
    internal_append_u64(vec, bytes.len() as u64);
    append_bytes(vec, bytes);
    proof {
        assert(vec@ =~= old(vec)@ + string_item(val.spec_bytes()));
    }
}

/// Reads UTF-8 bytes as text (`std::str::from_utf8`, which succeeds on valid UTF-8;
/// this contract says only that the text has exactly those bytes).
#[verifier::external_body]
pub(crate) fn str_from_utf8(bytes: &[u8]) -> (r: &str)
    requires
        valid_utf8(bytes@),
    ensures
        r.spec_bytes() == bytes@,
{
    std::str::from_utf8(bytes).unwrap()
}

/// The text of the string item at `idx`.
pub fn read_string(vec: &Vec<u8>, idx: usize) -> (r: &str)
    requires
        idx + 9 <= vec@.len(),
        vec@[idx as int] == STRING,
        idx + 9 + u64_at(vec@, idx + 1) <= vec@.len(),
        valid_utf8(vec@.subrange(idx + 9, idx + 9 + u64_at(vec@, idx + 1))),
    ensures
        r.spec_bytes() == vec@.subrange(idx + 9, idx + 9 + u64_at(vec@, idx + 1)),
{
    proof {
        lemma_len_bound(vec);
    }
    let idx = idx + 1;
    let len = read_u64_bounded(vec, idx, vec.len());
    let idx = idx + 8;
    str_from_utf8(slice_subrange(vec.as_slice(), idx, idx + len))
}

/// The item at `idx` has a known tag, a header inside the buffer, and a length that
/// fits in a `usize`.
pub open spec fn header_ok(v: Seq<u8>, idx: int) -> bool {
    let tag = v[idx];
    &&& 0 <= idx < v.len()
    &&& (tag == INT_U64 || tag == INT_I64 || tag == STRING || tag == LIST || tag == OBJECT)
    &&& (tag == STRING ==> idx + 9 <= v.len() && 9 + u64_at(v, idx + 1) <= usize::MAX)
    &&& ((tag == LIST || tag == OBJECT) ==> idx + 17 <= v.len() && u64_at(v, idx + 9) <= usize::MAX)
}

/// A complete item is a readable one.
proof fn lemma_item_ok_header(v: Seq<u8>, idx: int, end: int)
    requires
        item_ok(v, idx, end),
        v.len() <= usize::MAX,
    ensures
        header_ok(v, idx),
{
}

/// The number of bytes of the item at `idx`, as its header says.
pub fn get_obj_len_bytes(vec: &Vec<u8>, idx: usize) -> (r: usize)
    requires
        header_ok(vec@, idx as int),
    ensures
        r == item_len(vec@, idx as int),
{
    proof {
        lemma_len_bound(vec);
    }
    let tag = vec[idx];
    if tag == INT_U64 {
        9
    } else if tag == INT_I64 {
        9
    } else if tag == STRING {
        9 + read_u64_bounded(vec, idx + 1, usize::MAX - 9)
    } else if tag == LIST {
        read_u64_bounded(vec, idx + 1 + 8, usize::MAX)
    } else {
        read_u64_bounded(vec, idx + 1 + 8, usize::MAX)
    }
}

// ----- lists

/// Where a list or an object starts.
pub struct ListStart {
    idx: usize,
}

impl ListStart {
    /// The position of the list's tag.
    pub closed spec fn start(&self) -> int {
        self.idx as int
    }
}

/// Appends the header of a list whose items are written next; `end_list` completes it.
pub fn start_list(vec: &mut Vec<u8>) -> (r: ListStart)
    ensures
        final(vec)@ == old(vec)@ + seq![LIST] + zeros(16),
        r.start() == old(vec)@.len(),
{
    let idx = vec.len();
    vec.push(LIST);
    let mut i: usize = 0;
    while i < 16
        invariant
            0 <= i <= 16,
            vec@ == old(vec)@ + seq![LIST] + zeros(i as nat),
        decreases 16 - i,
    {
        vec.push(0);
        proof {
            assert(zeros((i + 1) as nat) =~= zeros(i as nat).push(0u8));
        }
        i = i + 1;
    }
    ListStart { idx }
}

/// The bytes of a list after `end_list`: the header holds the number of items and the
/// total size, and the index table of the items' offsets follows them.
pub open spec fn ended_list(v: Seq<u8>, start: int) -> Seq<u8> {
    let starts = item_starts(v, start + 17, v.len() as int);
    let len = starts.len();
    let n_bytes = v.len() - start + 8 * len;
    with_word_at(
        with_word_at(v + offsets_table(relative_to(starts, start)), start + 1, spec_u64_to_le_bytes(len as u64)),
        start + 9,
        spec_u64_to_le_bytes(n_bytes as u64),
    )
}

/// Completes the list started at `list_start`: the items written since then must
/// exactly fill the bytes after its header.
pub fn end_list(vec: &mut Vec<u8>, list_start: &ListStart)
    requires
        list_start.start() + 17 <= old(vec)@.len(),
        items_tile(old(vec)@, list_start.start() + 17, old(vec)@.len() as int),
        old(vec)@.len() - list_start.start() + 8 * item_starts(
            old(vec)@,
            list_start.start() + 17,
            old(vec)@.len() as int,
        ).len() <= usize::MAX,
    ensures
        final(vec)@ == ended_list(old(vec)@, list_start.start()),
{
    let ghost v0 = vec@;
    let start_idx = list_start.idx;
    let end_idx = vec.len();
    let ghost all = item_starts(v0, start_idx + 17, end_idx as int);
    let mut len: usize = 0;
    let mut n_bytes: usize = 1 + 8 + 8;
    loop
        invariant
            v0 == old(vec)@,
            end_idx == v0.len(),
            start_idx + n_bytes <= end_idx,
            17 <= n_bytes,
            items_tile(v0, start_idx + n_bytes, end_idx as int),
            all == item_starts(v0, start_idx + 17, end_idx as int),
            all == all.take(len as int) + item_starts(v0, start_idx + n_bytes, end_idx as int),
            len <= all.len(),
            v0.len() - start_idx + 8 * all.len() <= usize::MAX,
            vec@ == v0 + offsets_table(relative_to(all.take(len as int), start_idx as int)),
        ensures
            start_idx + n_bytes >= end_idx,
        decreases end_idx - n_bytes,
    {
        let idx = start_idx + n_bytes;
        if idx >= end_idx {
            break;
        }
        proof {
            assert(vec@.subrange(0, end_idx as int) =~= v0.subrange(0, end_idx as int));
            lemma_items_depend_on_prefix(v0, vec@, idx as int, end_idx as int);
            assert(item_starts(v0, idx as int, end_idx as int) == seq![idx as int] + item_starts(
                v0,
                idx + item_len(v0, idx as int),
                end_idx as int,
            ));
        }
        let ghost before = vec@;
        internal_append_u64(vec, n_bytes as u64);
        proof {
            assert(vec@.subrange(0, end_idx as int) =~= v0.subrange(0, end_idx as int));
            lemma_items_depend_on_prefix(v0, vec@, idx as int, end_idx as int);
            lemma_len_bound(vec);
            lemma_item_ok_header(vec@, idx as int, end_idx as int);
        }
        let elem_n_bytes = get_obj_len_bytes(vec, idx);
        proof {
            let t = all.take(len as int);
            let t1 = all.take(len + 1);
            assert(all[len as int] == idx as int);
            assert(t1 =~= t.push(idx as int));
            assert(relative_to(t1, start_idx as int) =~= relative_to(t, start_idx as int).push(
                idx - start_idx,
            ));
            assert(relative_to(t1, start_idx as int).drop_last() =~= relative_to(t, start_idx as int));
            assert(all =~= t1 + item_starts(v0, idx + item_len(v0, idx as int), end_idx as int));
        }
        len = len + 1;
        n_bytes = n_bytes + elem_n_bytes;
    }
    proof {
        assert(item_starts(v0, start_idx + n_bytes, end_idx as int) =~= Seq::<int>::empty());
        assert(all.take(len as int) =~= all);
    }
    n_bytes = n_bytes + len * 8;
    internal_write_u64(vec, start_idx + 1, len as u64);
    internal_write_u64(vec, start_idx + 1 + 8, n_bytes as u64);
}

/// The number of items of the list at `idx`.
pub fn get_list_len(vec: &Vec<u8>, idx: usize) -> (r: usize)
    requires
        idx + 17 <= vec@.len(),
        vec@[idx as int] == LIST,
    ensures
        r == u64_at(vec@, idx + 1) as usize,
{
    proof {
        lemma_len_bound(vec);
    }
    #[verifier::truncate]
    (internal_read_u64(vec, idx + 1) as usize)
}

/// The position of item `elem_idx` of the list at `list_idx`, from the list's index table.
pub fn get_list_elem_idx(vec: &Vec<u8>, list_idx: usize, elem_idx: usize) -> (r: usize)
    requires
        list_idx + 17 <= vec@.len(),
        vec@[list_idx as int] == LIST,
        elem_idx < u64_at(vec@, list_idx + 1),
        8 * u64_at(vec@, list_idx + 1) <= u64_at(vec@, list_idx + 9),
        list_idx + u64_at(vec@, list_idx + 9) <= vec@.len(),
        list_idx + u64_at(vec@, list_idx + 9) - 8 * (u64_at(vec@, list_idx + 1) - elem_idx) >= 0,
        list_idx + u64_at(
            vec@,
            list_idx + u64_at(vec@, list_idx + 9) - 8 * (u64_at(vec@, list_idx + 1) - elem_idx),
        ) <= usize::MAX,
    ensures
        r == list_idx + u64_at(
            vec@,
            list_idx + u64_at(vec@, list_idx + 9) - 8 * (u64_at(vec@, list_idx + 1) - elem_idx),
        ),
{
    proof {
        lemma_len_bound(vec);
    }
    let len = read_u64_bounded(vec, list_idx + 1, vec.len());
    let n_bytes = read_u64_bounded(vec, list_idx + 1 + 8, vec.len());
    let pos = list_idx + n_bytes - 8 * (len - elem_idx);
    list_idx + read_u64_bounded(vec, pos, usize::MAX - list_idx)
}

// ----- objects

/// The key of the item at `p`, as keys are compared: its tag, then (for signed
/// integers) its value.
pub open spec fn key_of(v: Seq<u8>, p: int) -> (u8, i64) {
    if v[p] == INT_I64 {
        (v[p], i64_at(v, p + 1))
    } else {
        (v[p], 0i64)
    }
}

/// The order of keys: by tag, then by value.
pub open spec fn key_lt(a: (u8, i64), b: (u8, i64)) -> bool {
    a.0 < b.0 || (a.0 == b.0 && a.1 < b.1)
}

/// Keys are ordered by their tag first, and two signed integer keys by the signed
/// values written in them: `x` written before `y` as keys sorts before it exactly when
/// `x < y` as signed numbers.
pub proof fn lemma_key_order(v: Seq<u8>, a: int, b: int, x: i64, y: i64)
    ensures
        v[a] < v[b] ==> key_lt(key_of(v, a), key_of(v, b)) && !key_lt(key_of(v, b), key_of(v, a)),
        v[a] == INT_I64 && v[b] == INT_I64 ==> (key_lt(key_of(v, a), key_of(v, b)) <==> i64_at(v, a + 1) < i64_at(
            v,
            b + 1,
        )),
        ({
            let w = v + i64_item(x) + i64_item(y);
            let ka = v.len() as int;
            let kb = v.len() + 9int;
            key_lt(key_of(w, ka), key_of(w, kb)) <==> x < y
        }),
        !key_lt(key_of(v, a), key_of(v, a)),
{
    let w1 = v + i64_item(x);
    let w = w1 + i64_item(y);
    lemma_le_roundtrip(x as u64);
    lemma_le_roundtrip(y as u64);
    assert(w1.len() == v.len() + 9);
    lemma_i64_item_roundtrip(v, x);
    lemma_i64_item_roundtrip(w1, y);
    assert(w[v.len() as int] == w1[v.len() as int]);
    assert(word_at(w, v.len() as int + 1) =~= word_at(w1, v.len() as int + 1));
}

/// Two keys can be compared: their tags differ, or both are signed integers.
pub open spec fn keys_comparable(v: Seq<u8>, a: int, b: int) -> bool {
    v[a] != v[b] || v[a] == INT_I64
}

/// A key whose tag and (for signed integers) value can be read.
pub open spec fn key_readable(v: Seq<u8>, p: int) -> bool {
    &&& 0 <= p < v.len()
    &&& v[p] == INT_I64 ==> p + 9 <= v.len()
}

/// The number of bytes of the key,value pair whose key is at `p`.
pub open spec fn pair_len(v: Seq<u8>, p: int) -> int {
    item_len(v, p) + item_len(v, p + item_len(v, p))
}

/// A complete key,value pair starts at `p` and ends at or before `end`.
pub open spec fn pair_ok(v: Seq<u8>, p: int, end: int) -> bool {
    item_ok(v, p, end) && item_ok(v, p + item_len(v, p), end)
}

/// The key,value pairs starting at `p` exactly fill the bytes up to `end`.
pub open spec fn pairs_tile(v: Seq<u8>, p: int, end: int) -> bool
    decreases end - p,
{
    if p >= end {
        p == end
    } else {
        pair_ok(v, p, end) && pairs_tile(v, p + pair_len(v, p), end)
    }
}

/// The positions of the keys of the pairs that fill the bytes from `p` up to `end`.
pub open spec fn pair_starts(v: Seq<u8>, p: int, end: int) -> Seq<int>
    decreases end - p,
{
    if p >= end || !pair_ok(v, p, end) {
        Seq::empty()
    } else {
        seq![p] + pair_starts(v, p + pair_len(v, p), end)
    }
}

/// The positions of an object's keys, read from its index table.
pub open spec fn object_index(v: Seq<u8>, obj: int) -> Seq<int> {
    let len = u64_at(v, obj + 1);
    let table = obj + u64_at(v, obj + 9) - 8 * len;
    Seq::new(len as nat, |j: int| obj + u64_at(v, table + 8 * j))
}

/// The keys at `ps` are in strictly increasing order.
pub open spec fn sorted_by_key(v: Seq<u8>, ps: Seq<int>) -> bool {
    forall|i: int, j: int| 0 <= i < j < ps.len() ==> key_lt(key_of(v, ps[i]), key_of(v, ps[j]))
}

/// The object at `obj` has an index table that can be searched for the key at `key`:
/// the table lies inside the buffer, its entries name readable keys in strictly
/// increasing order, each comparable with the key searched for.
pub open spec fn object_searchable(v: Seq<u8>, obj: int, key: int) -> bool {
    let len = u64_at(v, obj + 1);
    let n_bytes = u64_at(v, obj + 9);
    let ps = object_index(v, obj);
    &&& 0 <= obj
    &&& obj + 17 <= v.len()
    &&& v[obj] == OBJECT
    &&& 8 * len <= n_bytes
    &&& obj + n_bytes <= v.len()
    &&& key_readable(v, key)
    &&& sorted_by_key(v, ps)
    &&& forall|j: int| 0 <= j < ps.len() ==> key_readable(v, #[trigger] ps[j]) && keys_comparable(v, ps[j], key)
}

/// The position of the tag in a `usize` position, as a spec integer.
pub open spec fn at(p: usize) -> int {
    p as int
}

/// Three-way result of comparing two keys.
pub enum KeyOrder {
    Less,
    Equal,
    Greater,
}

/// Compares the keys at `left` and `right`.
fn key_order(vec: &Vec<u8>, left: usize, right: usize) -> (r: KeyOrder)
    requires
        key_readable(vec@, left as int),
        key_readable(vec@, right as int),
        keys_comparable(vec@, left as int, right as int),
    ensures
        r is Less <==> key_lt(key_of(vec@, left as int), key_of(vec@, right as int)),
        r is Equal <==> key_of(vec@, left as int) == key_of(vec@, right as int),
        r is Greater <==> key_lt(key_of(vec@, right as int), key_of(vec@, left as int)),
{
    let lt = vec[left];
    let rt = vec[right];
    if lt < rt {
        return KeyOrder::Less;
    }
    if lt > rt {
        return KeyOrder::Greater;
    }
    let lv = read_i64(vec, left);
    let rv = read_i64(vec, right);
    if lv < rv {
        KeyOrder::Less
    } else if lv > rv {
        KeyOrder::Greater
    } else {
        KeyOrder::Equal
    }
}

/// Compares the keys at `left` and `right`: by tag, then, for signed integers, by value.
/// Only signed integers can be compared with keys of their own tag.
pub fn obj_cmp(vec: &Vec<u8>, left: usize, right: usize) -> (r: core::cmp::Ordering)
    requires
        key_readable(vec@, at(left)),
        key_readable(vec@, at(right)),
        keys_comparable(vec@, at(left), at(right)),
    ensures
        r == core::cmp::Ordering::Less <==> key_lt(key_of(vec@, at(left)), key_of(vec@, at(right))),
        r == core::cmp::Ordering::Equal <==> key_of(vec@, at(left)) == key_of(vec@, at(right)),
        r == core::cmp::Ordering::Greater <==> key_lt(key_of(vec@, at(right)), key_of(vec@, at(left))),
{
    match key_order(vec, left, right) {
        KeyOrder::Less => core::cmp::Ordering::Less,
        KeyOrder::Equal => core::cmp::Ordering::Equal,
        KeyOrder::Greater => core::cmp::Ordering::Greater,
    }
}

/// Where an object starts.
pub struct ObjectStart {
    idx: usize,
}

impl ObjectStart {
    /// The position of the object's tag.
    pub closed spec fn start(&self) -> int {
        self.idx as int
    }
}

/// Appends the header of an object whose key,value pairs are written next;
/// `end_object` completes it.
pub fn start_object(vec: &mut Vec<u8>) -> (r: ObjectStart)
    ensures
        final(vec)@ == old(vec)@ + seq![OBJECT] + zeros(16),
        r.start() == old(vec)@.len(),
{
    let idx = vec.len();
    vec.push(OBJECT);
    let mut i: usize = 0;
    while i < 16
        invariant
            0 <= i <= 16,
            vec@ == old(vec)@ + seq![OBJECT] + zeros(i as nat),
        decreases 16 - i,
    {
        vec.push(0);
        proof {
            assert(zeros((i + 1) as nat) =~= zeros(i as nat).push(0u8));
        }
        i = i + 1;
    }
    ObjectStart { idx }
}

/// The number of key,value pairs of the object at `idx`.
pub fn get_object_len(vec: &Vec<u8>, idx: usize) -> (r: usize)
    requires
        idx + 17 <= vec@.len(),
        vec@[idx as int] == OBJECT,
    ensures
        r == u64_at(vec@, idx + 1) as usize,
{
    proof {
        lemma_len_bound(vec);
    }
    #[verifier::truncate]
    (internal_read_u64(vec, idx + 1) as usize)
}

/// Finds the key equal to the key at `key_idx` in the object at `obj_idx`, by binary
/// search of the object's index table; returns its position.
pub fn get_object_key_idx(vec: &Vec<u8>, obj_idx: usize, key_idx: usize) -> (r: Option<usize>)
    requires
        object_searchable(vec@, at(obj_idx), at(key_idx)),
    ensures
        r matches Some(p) ==> object_index(vec@, at(obj_idx)).contains(at(p)) && key_of(vec@, at(p))
            == key_of(vec@, at(key_idx)),
        r is None ==> forall|j: int|
            0 <= j < object_index(vec@, at(obj_idx)).len() ==> key_of(
                vec@,
                #[trigger] object_index(vec@, at(obj_idx))[j],
            ) != key_of(vec@, at(key_idx)),
{
    search_object_index(vec, obj_idx, key_idx)
}

/// The binary search behind `get_object_key_idx`.
fn search_object_index(vec: &Vec<u8>, obj_idx: usize, key_idx: usize) -> (r: Option<usize>)
    requires
        object_searchable(vec@, obj_idx as int, key_idx as int),
    ensures
        r matches Some(p) ==> object_index(vec@, obj_idx as int).contains(p as int) && key_of(vec@, p as int)
            == key_of(vec@, key_idx as int),
        r is None ==> forall|j: int|
            0 <= j < object_index(vec@, obj_idx as int).len() ==> key_of(
                vec@,
                #[trigger] object_index(vec@, obj_idx as int)[j],
            ) != key_of(vec@, key_idx as int),
{
    proof {
        lemma_len_bound(vec);
    }
    let ghost ps = object_index(vec@, obj_idx as int);
    let ghost k = key_of(vec@, key_idx as int);
    let len = read_u64_bounded(vec, obj_idx + 1, vec.len());
    let n_bytes = read_u64_bounded(vec, obj_idx + 1 + 8, vec.len());
    let mut lo: usize = 0;
    let mut hi: usize = len;
    let index_start = obj_idx + n_bytes - 8 * len;
    while lo < hi
        invariant
            ps == object_index(vec@, obj_idx as int),
            k == key_of(vec@, key_idx as int),
            object_searchable(vec@, obj_idx as int, key_idx as int),
            len == ps.len(),
            index_start == obj_idx + u64_at(vec@, obj_idx + 9) - 8 * len,
            index_start + 8 * len <= vec@.len(),
            vec@.len() <= usize::MAX,
            0 <= lo <= hi <= len,
            forall|j: int| 0 <= j < lo ==> key_lt(#[trigger] key_of(vec@, ps[j]), k),
            forall|j: int| hi <= j < len ==> key_lt(k, #[trigger] key_of(vec@, ps[j])),
        decreases hi - lo,
    {
        let mid = lo + ((hi - lo) / 2);
        let ghost p = ps[mid as int];
        assert(key_readable(vec@, p));
        let mid_obj_idx = obj_idx + read_u64_bounded(vec, index_start + 8 * mid, usize::MAX - obj_idx);
        assert(mid_obj_idx == p);
        match key_order(vec, mid_obj_idx, key_idx) {
            KeyOrder::Equal => {
                proof {
                    assert(ps[mid as int] == p);
                }
                return Some(mid_obj_idx);
            },
            KeyOrder::Less => {
                proof {
                    assert forall|j: int| 0 <= j < mid + 1 implies key_lt(#[trigger] key_of(vec@, ps[j]), k) by {
                        if j < mid {
                            assert(key_lt(key_of(vec@, ps[j]), key_of(vec@, ps[mid as int])));
                        }
                    }
                }
                lo = mid + 1;
            },
            KeyOrder::Greater => {
                proof {
                    assert forall|j: int| mid <= j < len implies key_lt(k, #[trigger] key_of(vec@, ps[j])) by {
                        if j > mid {
                            assert(key_lt(key_of(vec@, ps[mid as int]), key_of(vec@, ps[j])));
                        }
                    }
                }
                hi = mid;
            },
        }
    }
    None
}

/// Finds the value stored under the key equal to the key at `key_idx` in the object at
/// `obj_idx`; returns its position, right after the key.
pub fn get_object_value_idx(vec: &Vec<u8>, obj_idx: usize, key_idx: usize) -> (r: Option<usize>)
    requires
        object_searchable(vec@, at(obj_idx), at(key_idx)),
        forall|j: int|
            0 <= j < object_index(vec@, at(obj_idx)).len() ==> item_ok(
                vec@,
                #[trigger] object_index(vec@, at(obj_idx))[j],
                vec@.len() as int,
            ),
    ensures
        r matches Some(p) ==> exists|j: int|
            0 <= j < object_index(vec@, at(obj_idx)).len() && key_of(
                vec@,
                #[trigger] object_index(vec@, at(obj_idx))[j],
            ) == key_of(vec@, at(key_idx)) && at(p) == object_index(vec@, at(obj_idx))[j] + item_len(
                vec@,
                object_index(vec@, at(obj_idx))[j],
            ),
        r is None ==> forall|j: int|
            0 <= j < object_index(vec@, at(obj_idx)).len() ==> key_of(
                vec@,
                #[trigger] object_index(vec@, at(obj_idx))[j],
            ) != key_of(vec@, at(key_idx)),
{
    match get_object_key_idx(vec, obj_idx, key_idx) {
        None => None,
        Some(key_pos) => {
            proof {
                let ps = object_index(vec@, at(obj_idx));
                let j = choose|j: int| 0 <= j < ps.len() && ps[j] == at(key_pos);
                assert(item_ok(vec@, ps[j], vec@.len() as int));
                lemma_len_bound(vec);
                lemma_item_ok_header(vec@, ps[j], vec@.len() as int);
            }
            let n = get_obj_len_bytes(vec, key_pos);
            Some(key_pos + n)
        },
    }
}

// ----- completing an object

/// The key at `ps[i]` does not occur again later in `ps`.
pub open spec fn is_last(v: Seq<u8>, ps: Seq<int>, i: int) -> bool {
    forall|j: int| i < j < ps.len() ==> key_of(v, ps[j]) != key_of(v, ps[i])
}

/// The positions among the first `n` of `ps` whose key does not occur again later in
/// `ps`, in their original order.
pub open spec fn kept_upto(v: Seq<u8>, ps: Seq<int>, n: int) -> Seq<int>
    decreases n,
{
    if n <= 0 {
        Seq::empty()
    } else if is_last(v, ps, n - 1) {
        kept_upto(v, ps, n - 1).push(ps[n - 1])
    } else {
        kept_upto(v, ps, n - 1)
    }
}

/// The pairs of `ps` that an object keeps: for each key, its last occurrence.
pub open spec fn kept_pairs(v: Seq<u8>, ps: Seq<int>) -> Seq<int> {
    kept_upto(v, ps, ps.len() as int)
}

/// The bytes of the pair at `p`.
pub open spec fn pair_bytes(v: Seq<u8>, p: int) -> Seq<u8> {
    v.subrange(p, p + pair_len(v, p))
}

/// Every pair of `ps` has readable keys that can be compared with each other.
pub open spec fn keys_all_comparable(v: Seq<u8>, ps: Seq<int>) -> bool {
    forall|i: int, j: int|
        0 <= i < ps.len() && 0 <= j < ps.len() && i != j ==> keys_comparable(v, #[trigger] ps[i], #[trigger] ps[j])
}

/// An item whose bytes were copied elsewhere reads the same there.
proof fn lemma_copied_item(v: Seq<u8>, p: int, end: int, w: Seq<u8>, q: int, end2: int)
    requires
        item_ok(v, p, end),
        0 <= q,
        q + item_len(v, p) <= end2 <= w.len(),
        w.subrange(q, q + item_len(v, p)) == v.subrange(p, p + item_len(v, p)),
    ensures
        item_ok(w, q, end2),
        item_len(w, q) == item_len(v, p),
        key_of(w, q) == key_of(v, p),
{
    let len = item_len(v, p);
    assert forall|k: int| 0 <= k < len implies #[trigger] w[q + k] == v[p + k] by {
        assert(w[q + k] == w.subrange(q, q + len)[k]);
        assert(v[p + k] == v.subrange(p, p + len)[k]);
    }
    assert(w[q + 0] == v[p + 0]);
    if len >= 9 {
        assert(word_at(w, q + 1) =~= word_at(v, p + 1)) by {
            assert forall|k: int| 0 <= k < 8 implies #[trigger] word_at(w, q + 1)[k] == word_at(v, p + 1)[k] by {
                assert(w[q + (1 + k)] == v[p + (1 + k)]);
            }
        }
    }
    if len >= 17 {
        assert(word_at(w, q + 9) =~= word_at(v, p + 9)) by {
            assert forall|k: int| 0 <= k < 8 implies #[trigger] word_at(w, q + 9)[k] == word_at(v, p + 9)[k] by {
                assert(w[q + (9 + k)] == v[p + (9 + k)]);
            }
        }
    }
}

/// A key,value pair whose bytes were copied elsewhere reads the same there.
proof fn lemma_copied_pair(v: Seq<u8>, p: int, end: int, w: Seq<u8>, q: int, end2: int)
    requires
        pair_ok(v, p, end),
        0 <= q,
        q + pair_len(v, p) <= end2 <= w.len(),
        w.subrange(q, q + pair_len(v, p)) == pair_bytes(v, p),
    ensures
        pair_ok(w, q, end2),
        pair_len(w, q) == pair_len(v, p),
        key_of(w, q) == key_of(v, p),
        pair_bytes(w, q) == pair_bytes(v, p),
{
    let kl = item_len(v, p);
    let vl = item_len(v, p + kl);
    assert(w.subrange(q, q + kl) =~= v.subrange(p, p + kl)) by {
        assert forall|k: int| 0 <= k < kl implies #[trigger] w.subrange(q, q + kl)[k] == v.subrange(p, p + kl)[k] by {
            assert(w.subrange(q, q + pair_len(v, p))[k] == pair_bytes(v, p)[k]);
        }
    }
    lemma_copied_item(v, p, end, w, q, end2);
    assert(w.subrange(q + kl, q + kl + vl) =~= v.subrange(p + kl, p + kl + vl)) by {
        assert forall|k: int| 0 <= k < vl implies #[trigger] w.subrange(q + kl, q + kl + vl)[k] == v.subrange(
            p + kl,
            p + kl + vl,
        )[k] by {
            assert(w.subrange(q, q + pair_len(v, p))[kl + k] == pair_bytes(v, p)[kl + k]);
        }
    }
    lemma_copied_item(v, p + kl, end, w, q + kl, end2);
}

/// `rs` are consecutive pairs of `w` ending exactly at `end`: they tile those bytes.
proof fn lemma_consecutive_pairs_tile(w: Seq<u8>, rs: Seq<int>, k: int, end: int)
    requires
        0 <= k <= rs.len(),
        forall|a: int| 0 <= a < rs.len() ==> pair_ok(w, #[trigger] rs[a], end),
        forall|a: int| 0 <= a < rs.len() - 1 ==> #[trigger] rs[a + 1] == rs[a] + pair_len(w, rs[a]),
        rs.len() > 0 ==> rs[rs.len() - 1] + pair_len(w, rs[rs.len() - 1]) == end,
        k == rs.len() ==> (rs.len() == 0 ==> true),
    ensures
        k < rs.len() ==> pairs_tile(w, rs[k], end) && pair_starts(w, rs[k], end) == rs.skip(k),
    decreases rs.len() - k,
{
    if k < rs.len() {
        let p = rs[k];
        assert(pair_ok(w, p, end));
        assert(p < end);
        if k + 1 < rs.len() {
            lemma_consecutive_pairs_tile(w, rs, k + 1, end);
            assert(rs[k + 1] == p + pair_len(w, p));
            assert(rs.skip(k) =~= seq![p] + rs.skip(k + 1));
            assert(pairs_tile(w, p, end));
            assert(pair_starts(w, p, end) == seq![p] + pair_starts(w, p + pair_len(w, p), end));
        } else {
            assert(p + pair_len(w, p) == end);
            assert(rs.skip(k) =~= seq![p]);
            assert(pairs_tile(w, end, end));
            assert(pair_starts(w, end, end) =~= Seq::<int>::empty());
            assert(pairs_tile(w, p, end));
            assert(pair_starts(w, p, end) == seq![p] + pair_starts(w, p + pair_len(w, p), end));
        }
    }
}

/// Reading the pairs of a tiled stretch one by one.
proof fn lemma_pair_starts_step(v: Seq<u8>, p: int, end: int)
    requires
        pairs_tile(v, p, end),
        p < end,
    ensures
        pair_ok(v, p, end),
        pairs_tile(v, p + pair_len(v, p), end),
        pair_starts(v, p, end) == seq![p] + pair_starts(v, p + pair_len(v, p), end),
        pair_len(v, p) > 0,
{
}

/// The positions of the key,value pairs filling the bytes from `p` to `end`.
fn collect_pairs(vec: &Vec<u8>, p: usize, end: usize) -> (r: Vec<usize>)
    requires
        p <= end == vec@.len(),
        pairs_tile(vec@, p as int, end as int),
    ensures
        r@.len() == pair_starts(vec@, p as int, end as int).len(),
        forall|i: int| 0 <= i < r@.len() ==> r@[i] == #[trigger] pair_starts(vec@, p as int, end as int)[i],
{
    proof {
        lemma_len_bound(vec);
    }
    let ghost all = pair_starts(vec@, p as int, end as int);
    let mut r: Vec<usize> = Vec::new();
    let mut idx = p;
    while idx < end
        invariant
            p <= idx <= end,
            end == vec@.len(),
            end <= usize::MAX,
            pairs_tile(vec@, idx as int, end as int),
            all == pair_starts(vec@, p as int, end as int),
            all.len() == r@.len() + pair_starts(vec@, idx as int, end as int).len(),
            forall|i: int| 0 <= i < r@.len() ==> r@[i] == #[trigger] all[i],
            forall|i: int|
                0 <= i < pair_starts(vec@, idx as int, end as int).len() ==> all[r@.len() + i]
                    == #[trigger] pair_starts(vec@, idx as int, end as int)[i],
        decreases end - idx,
    {
        proof {
            lemma_pair_starts_step(vec@, idx as int, end as int);
        }
        let ghost rest = pair_starts(vec@, idx as int, end as int);
        proof {
            lemma_item_ok_header(vec@, idx as int, end as int);
        }
        let key_len = get_obj_len_bytes(vec, idx);
        proof {
            lemma_item_ok_header(vec@, idx + key_len, end as int);
        }
        let val_len = get_obj_len_bytes(vec, idx + key_len);
        r.push(idx);
        proof {
            assert(rest[0] == idx as int);
            assert(all[r@.len() - 1] == idx as int);
            let next = pair_starts(vec@, idx + key_len + val_len, end as int);
            assert forall|i: int| 0 <= i < next.len() implies all[r@.len() + i] == #[trigger] next[i] by {
                assert(rest[i + 1] == next[i]);
            }
        }
        idx = idx + key_len + val_len;
    }
    proof {
        assert(pair_starts(vec@, idx as int, end as int).len() == 0);
    }
    r
}

/// For each pair, whether its key does not occur again in a later pair.
fn last_occurrence_flags(vec: &Vec<u8>, ps: &Vec<usize>, end: Ghost<int>) -> (r: Vec<bool>)
    requires
        forall|i: int| 0 <= i < ps@.len() ==> pair_ok(vec@, #[trigger] ps@[i] as int, end@),
        keys_all_comparable(vec@, ps@.map_values(|p: usize| p as int)),
    ensures
        r@.len() == ps@.len(),
        forall|i: int| 0 <= i < ps@.len() ==> r@[i] == is_last(vec@, ps@.map_values(|p: usize| p as int), i),
{
    let ghost pi = ps@.map_values(|p: usize| p as int);
    let n = ps.len();
    let mut r: Vec<bool> = Vec::new();
    let mut i: usize = 0;
    while i < n
        invariant
            n == ps@.len(),
            pi == ps@.map_values(|p: usize| p as int),
            0 <= i <= n,
            r@.len() == i,
            forall|k: int| 0 <= k < ps@.len() ==> pair_ok(vec@, #[trigger] ps@[k] as int, end@),
            keys_all_comparable(vec@, pi),
            forall|k: int| 0 <= k < i ==> r@[k] == is_last(vec@, pi, k),
        decreases n - i,
    {
        let mut last = true;
        let mut j: usize = i + 1;
        while j < n
            invariant
                n == ps@.len(),
                pi == ps@.map_values(|p: usize| p as int),
                i < n,
                i + 1 <= j <= n,
                forall|k: int| 0 <= k < ps@.len() ==> pair_ok(vec@, #[trigger] ps@[k] as int, end@),
                keys_all_comparable(vec@, pi),
                last == forall|k: int| i < k < j ==> key_of(vec@, pi[k]) != key_of(vec@, pi[i as int]),
            decreases n - j,
        {
            proof {
                assert(pair_ok(vec@, ps@[i as int] as int, end@));
                assert(pair_ok(vec@, ps@[j as int] as int, end@));
                assert(keys_comparable(vec@, pi[j as int], pi[i as int]));
            }
            match key_order(vec, ps[j], ps[i]) {
                KeyOrder::Equal => {
                    last = false;
                },
                _ => {},
            }
            j = j + 1;
        }
        r.push(last);
        i = i + 1;
    }
    r
}

/// The positions among the first `n` of `ps` whose flag is set, in order.
spec fn select(ps: Seq<int>, flags: Seq<bool>, n: int) -> Seq<int>
    decreases n,
{
    if n <= 0 {
        Seq::empty()
    } else if flags[n - 1] {
        select(ps, flags, n - 1).push(ps[n - 1])
    } else {
        select(ps, flags, n - 1)
    }
}

proof fn lemma_select_is_kept(v: Seq<u8>, ps: Seq<int>, flags: Seq<bool>, n: int)
    requires
        0 <= n <= ps.len(),
        flags.len() == ps.len(),
        forall|i: int| 0 <= i < ps.len() ==> flags[i] == is_last(v, ps, i),
    ensures
        select(ps, flags, n) == kept_upto(v, ps, n),
    decreases n,
{
    if n > 0 {
        lemma_select_is_kept(v, ps, flags, n - 1);
    }
}

/// Every kept position is a position of `ps` whose key does not occur later.
#[verifier::spinoff_prover]
proof fn lemma_kept_are_last(v: Seq<u8>, ps: Seq<int>, n: int)
    requires
        0 <= n <= ps.len(),
    ensures
        forall|a: int|
            #![trigger kept_upto(v, ps, n)[a]]
            0 <= a < kept_upto(v, ps, n).len() ==> exists|i: int|
                0 <= i < n && is_last(v, ps, i) && kept_upto(v, ps, n)[a] == #[trigger] ps[i],
    decreases n,
{
    if n <= 0 {
        assert(kept_upto(v, ps, n) =~= Seq::<int>::empty());
    } else {
        lemma_kept_are_last(v, ps, n - 1);
        let prev = kept_upto(v, ps, n - 1);
        let cur = kept_upto(v, ps, n);
        if is_last(v, ps, n - 1) {
            assert(cur == prev.push(ps[n - 1]));
        } else {
            assert(cur == prev);
        }
        assert forall|a: int| #![trigger cur[a]] 0 <= a < cur.len() implies exists|i: int|
            0 <= i < n && is_last(v, ps, i) && cur[a] == #[trigger] ps[i] by {
            if a < prev.len() {
                assert(cur[a] == prev[a]);
                let i = choose|i: int| 0 <= i < n - 1 && is_last(v, ps, i) && prev[a] == ps[i];
                assert(cur[a] == ps[i]);
            } else {
                assert(cur[a] == ps[n - 1]);
            }
        }
    }
}

/// No two kept positions have equal keys.
#[verifier::spinoff_prover]
proof fn lemma_kept_distinct(v: Seq<u8>, ps: Seq<int>, n: int)
    requires
        0 <= n <= ps.len(),
    ensures
        forall|a: int, b: int|
            0 <= a < b < kept_upto(v, ps, n).len() ==> key_of(v, #[trigger] kept_upto(v, ps, n)[a]) != key_of(
                v,
                #[trigger] kept_upto(v, ps, n)[b],
            ),
    decreases n,
{
    if n <= 0 {
        assert(kept_upto(v, ps, n) =~= Seq::<int>::empty());
    } else {
        lemma_kept_distinct(v, ps, n - 1);
        lemma_kept_are_last(v, ps, n - 1);
        let prev = kept_upto(v, ps, n - 1);
        let cur = kept_upto(v, ps, n);
        if is_last(v, ps, n - 1) {
            assert(cur == prev.push(ps[n - 1]));
            assert forall|a: int, b: int| 0 <= a < b < cur.len() implies key_of(v, #[trigger] cur[a]) != key_of(
                v,
                #[trigger] cur[b],
            ) by {
                assert(cur[a] == prev[a]);
                if b < prev.len() {
                    assert(cur[b] == prev[b]);
                } else {
                    let i = choose|i: int| 0 <= i < n - 1 && is_last(v, ps, i) && prev[a] == ps[i];
                    assert(cur[b] == ps[n - 1]);
                }
            }
        } else {
            assert(cur == prev);
        }
    }
}

/// The bytes up to `body_start`, followed by the pairs at `ps` whose flag is set, in
/// order; also returns where each copied pair starts.
fn compact_pairs(
    vec: &Vec<u8>,
    body_start: usize,
    ps: &Vec<usize>,
    keep: &Vec<bool>,
    end: Ghost<int>,
) -> (r: (Vec<u8>, Vec<usize>))
    requires
        body_start <= end@ == vec@.len(),
        keep@.len() == ps@.len(),
        forall|i: int| 0 <= i < ps@.len() ==> pair_ok(vec@, #[trigger] ps@[i] as int, end@),
        ps@.len() > 0 ==> ps@[0] == body_start,
        forall|i: int| 0 <= i < ps@.len() - 1 ==> #[trigger] ps@[i + 1] == ps@[i] + pair_len(vec@, ps@[i] as int),
        ps@.len() > 0 ==> ps@[ps@.len() - 1] + pair_len(vec@, ps@[ps@.len() - 1] as int) == end@,
        ps@.len() == 0 ==> body_start == end@,
    ensures
        ({
            let ks = select(ps@.map_values(|p: usize| p as int), keep@, ps@.len() as int);
            let out = r.0@;
            let rs = r.1@;
            &&& rs.len() == ks.len()
            &&& body_start <= out.len() <= vec@.len()
            &&& out.subrange(0, body_start as int) == vec@.subrange(0, body_start as int)
            &&& rs.len() > 0 ==> rs[0] == body_start
            &&& forall|a: int| 0 <= a < rs.len() ==> body_start <= #[trigger] rs[a]
            &&& forall|a: int| 0 <= a < rs.len() ==> #[trigger] rs[a] + pair_len(vec@, ks[a]) <= out.len()
            &&& forall|a: int| 0 <= a < rs.len() - 1 ==> #[trigger] rs[a + 1] == rs[a] + pair_len(vec@, ks[a])
            &&& rs.len() > 0 ==> rs[rs.len() - 1] + pair_len(vec@, ks[rs.len() - 1]) == out.len()
            &&& rs.len() == 0 ==> out.len() == body_start
            &&& forall|a: int|
                0 <= a < rs.len() ==> out.subrange(#[trigger] rs[a] as int, rs[a] + pair_len(vec@, ks[a]))
                    == pair_bytes(vec@, ks[a])
        }),
{
    let ghost pi = ps@.map_values(|p: usize| p as int);
    let mut out: Vec<u8> = Vec::new();
    append_bytes(&mut out, slice_subrange(vec.as_slice(), 0, body_start));
    let mut rs: Vec<usize> = Vec::new();
    let n = ps.len();
    let mut i: usize = 0;
    let mut cursor = body_start;
    while i < n
        invariant
            n == ps@.len(),
            pi == ps@.map_values(|p: usize| p as int),
            keep@.len() == ps@.len(),
            body_start <= end@ == vec@.len(),
            forall|k: int| 0 <= k < ps@.len() ==> pair_ok(vec@, #[trigger] ps@[k] as int, end@),
            ps@.len() > 0 ==> ps@[0] == body_start,
            forall|k: int| 0 <= k < ps@.len() - 1 ==> #[trigger] ps@[k + 1] == ps@[k] + pair_len(vec@, ps@[k] as int),
            ps@.len() > 0 ==> ps@[ps@.len() - 1] + pair_len(vec@, ps@[ps@.len() - 1] as int) == end@,
            ps@.len() == 0 ==> body_start == end@,
            0 <= i <= n,
            i < n ==> cursor == ps@[i as int],
            i == n ==> cursor == end@,
            i == 0 ==> cursor == body_start,
            rs@.len() == select(pi, keep@, i as int).len(),
            body_start <= out@.len() <= cursor,
            out@.subrange(0, body_start as int) == vec@.subrange(0, body_start as int),
            rs@.len() > 0 ==> rs@[0] == body_start,
            forall|a: int| 0 <= a < rs@.len() ==> body_start <= #[trigger] rs@[a],
            forall|a: int| 0 <= a < rs@.len() - 1 ==> #[trigger] rs@[a + 1] == rs@[a] + pair_len(
                vec@,
                select(pi, keep@, i as int)[a],
            ),
            rs@.len() > 0 ==> rs@[rs@.len() - 1] + pair_len(vec@, select(pi, keep@, i as int)[rs@.len() - 1])
                == out@.len(),
            rs@.len() == 0 ==> out@.len() == body_start,
            forall|a: int|
                0 <= a < rs@.len() ==> #[trigger] rs@[a] + pair_len(vec@, select(pi, keep@, i as int)[a])
                    <= out@.len(),
            forall|a: int|
                0 <= a < rs@.len() ==> out@.subrange(#[trigger] rs@[a] as int, rs@[a] + pair_len(
                    vec@,
                    select(pi, keep@, i as int)[a],
                )) == pair_bytes(vec@, select(pi, keep@, i as int)[a]),
        decreases n - i,
    {
        let p = ps[i];
        proof {
            assert(pair_ok(vec@, p as int, end@));
            lemma_len_bound(vec);
        }
        proof {
            lemma_item_ok_header(vec@, p as int, end@);
        }
        let key_len = get_obj_len_bytes(vec, p);
        proof {
            lemma_item_ok_header(vec@, p + key_len, end@);
        }
        let val_len = get_obj_len_bytes(vec, p + key_len);
        let plen = key_len + val_len;
        let ghost sel = select(pi, keep@, i as int);
        let ghost before = out@;
        if keep[i] {
            rs.push(out.len());
            append_bytes(&mut out, slice_subrange(vec.as_slice(), p, p + plen));
            proof {
                let sel2 = select(pi, keep@, i + 1);
                assert(sel2 == sel.push(p as int));
                assert(out@ == before + pair_bytes(vec@, p as int));
                assert forall|a: int| 0 <= a < rs@.len() implies out@.subrange(#[trigger] rs@[a] as int, rs@[a]
                    + pair_len(vec@, sel2[a])) == pair_bytes(vec@, sel2[a]) by {
                    if a < rs@.len() - 1 {
                        assert(sel2[a] == sel[a]);
                        assert(rs@[a] + pair_len(vec@, sel[a]) <= before.len());
                        assert(out@.subrange(rs@[a] as int, rs@[a] + pair_len(vec@, sel2[a])) =~= before.subrange(
                            rs@[a] as int,
                            rs@[a] + pair_len(vec@, sel[a]),
                        ));
                    } else {
                        assert(out@.subrange(rs@[a] as int, rs@[a] + pair_len(vec@, sel2[a])) =~= pair_bytes(
                            vec@,
                            p as int,
                        ));
                    }
                }
                assert(out@.subrange(0, body_start as int) =~= before.subrange(0, body_start as int));
            }
        }
        proof {
            if i + 1 < n {
                assert(ps@[i + 1] == ps@[i as int] + pair_len(vec@, ps@[i as int] as int));
            }
        }
        cursor = p + plen;
        i = i + 1;
    }
    proof {
        assert(pi.len() == ps@.len());
    }
    (out, rs)
}

/// Where `x` goes in `out`, which is ordered by key: after every smaller key, before
/// the first larger one. The keys of `out` are keys of `ps` other than that of `x`.
fn insertion_point(vec: &Vec<u8>, out: &Vec<usize>, x: usize, ps: Ghost<Seq<usize>>, xi: Ghost<int>) -> (pos: usize)
    requires
        0 <= xi@ < ps@.len(),
        x == ps@[xi@],
        out@.to_set() == ps@.take(xi@).to_set(),
        forall|k: int| 0 <= k < ps@.len() ==> key_readable(vec@, #[trigger] ps@[k] as int),
        forall|k: int, j: int|
            0 <= k < ps@.len() && 0 <= j < ps@.len() && k != j ==> keys_comparable(
                vec@,
                #[trigger] ps@[k] as int,
                #[trigger] ps@[j] as int,
            ) && key_of(vec@, ps@[k] as int) != key_of(vec@, ps@[j] as int),
    ensures
        0 <= pos <= out@.len(),
        forall|a: int| 0 <= a < pos ==> key_lt(key_of(vec@, #[trigger] out@[a] as int), key_of(vec@, x as int)),
        pos < out@.len() ==> key_lt(key_of(vec@, x as int), key_of(vec@, out@[pos as int] as int)),
{
    let mut pos: usize = 0;
    while pos < out.len()
        invariant_except_break
            0 <= pos <= out@.len(),
            forall|a: int| 0 <= a < pos ==> key_lt(key_of(vec@, #[trigger] out@[a] as int), key_of(vec@, x as int)),
        invariant
            0 <= xi@ < ps@.len(),
            x == ps@[xi@],
            out@.to_set() == ps@.take(xi@).to_set(),
            forall|k: int| 0 <= k < ps@.len() ==> key_readable(vec@, #[trigger] ps@[k] as int),
            forall|k: int, j: int|
                0 <= k < ps@.len() && 0 <= j < ps@.len() && k != j ==> keys_comparable(
                    vec@,
                    #[trigger] ps@[k] as int,
                    #[trigger] ps@[j] as int,
                ) && key_of(vec@, ps@[k] as int) != key_of(vec@, ps@[j] as int),
        ensures
            0 <= pos <= out@.len(),
            forall|a: int| 0 <= a < pos ==> key_lt(key_of(vec@, #[trigger] out@[a] as int), key_of(vec@, x as int)),
            pos < out@.len() ==> key_lt(key_of(vec@, x as int), key_of(vec@, out@[pos as int] as int)),
        decreases out@.len() - pos,
    {
        let ghost y = out@[pos as int];
        proof {
            assert(out@.contains(y));
            assert(out@.to_set().contains(y));
            assert(ps@.take(xi@).to_set().contains(y));
            assert(ps@.take(xi@).contains(y));
        }
        let ghost k = choose|k: int| 0 <= k < ps@.take(xi@).len() && ps@.take(xi@)[k] == y;
        proof {
            assert(ps@.take(xi@)[k] == ps@[k]);
            assert(ps@[k] == y);
            assert(key_readable(vec@, ps@[k] as int));
            assert(keys_comparable(vec@, ps@[k] as int, ps@[xi@] as int));
            assert(key_of(vec@, ps@[k] as int) != key_of(vec@, ps@[xi@] as int));
        }
        match key_order(vec, out[pos], x) {
            KeyOrder::Less => {},
            _ => {
                break;
            },
        }
        pos = pos + 1;
    }
    pos
}

/// Orders the positions in `ps` by the keys there, into `out` (which is cleared
/// first). No two positions may hold equal keys.
fn sort_by_key(vec: &Vec<u8>, ps: &Vec<usize>, out: &mut Vec<usize>)
    requires
        forall|i: int| 0 <= i < ps@.len() ==> key_readable(vec@, #[trigger] ps@[i] as int),
        forall|i: int, j: int|
            0 <= i < ps@.len() && 0 <= j < ps@.len() && i != j ==> keys_comparable(
                vec@,
                #[trigger] ps@[i] as int,
                #[trigger] ps@[j] as int,
            ) && key_of(vec@, ps@[i] as int) != key_of(vec@, ps@[j] as int),
    ensures
        final(out)@.len() == ps@.len(),
        sorted_by_key(vec@, final(out)@.map_values(|p: usize| p as int)),
        final(out)@.to_set() == ps@.to_set(),
{
    out.clear();
    let n = ps.len();
    let mut i: usize = 0;
    while i < n
        invariant
            n == ps@.len(),
            0 <= i <= n,
            out@.len() == i,
            forall|k: int| 0 <= k < ps@.len() ==> key_readable(vec@, #[trigger] ps@[k] as int),
            forall|k: int, j: int|
                0 <= k < ps@.len() && 0 <= j < ps@.len() && k != j ==> keys_comparable(
                    vec@,
                    #[trigger] ps@[k] as int,
                    #[trigger] ps@[j] as int,
                ) && key_of(vec@, ps@[k] as int) != key_of(vec@, ps@[j] as int),
            out@.to_set() == ps@.take(i as int).to_set(),
            out@.no_duplicates(),
            forall|a: int, b: int|
                0 <= a < b < out@.len() ==> key_lt(key_of(vec@, #[trigger] out@[a] as int), key_of(vec@, #[trigger] out@[b] as int)),
        decreases n - i,
    {
        let x = ps[i];
        let ghost xi = i as int;
        proof {
            assert(key_readable(vec@, x as int));
        }
        let pos = insertion_point(vec, out, x, Ghost(ps@), Ghost(xi));
        let ghost before = out@;
        out.insert(pos, x);
        proof {
            let after = out@;
            assert(after == before.insert(pos as int, x));
            assert forall|a: int, b: int| 0 <= a < b < after.len() implies key_lt(
                key_of(vec@, #[trigger] after[a] as int),
                key_of(vec@, #[trigger] after[b] as int),
            ) by {
                if b < pos {
                    assert(after[a] == before[a] && after[b] == before[b]);
                } else if b == pos {
                    assert(after[a] == before[a]);
                } else if a < pos {
                    assert(after[a] == before[a] && after[b] == before[b - 1]);
                    if pos < before.len() {
                        assert(key_lt(key_of(vec@, x as int), key_of(vec@, before[pos as int] as int)));
                        if b - 1 > pos {
                            assert(key_lt(key_of(vec@, before[pos as int] as int), key_of(vec@, before[b - 1] as int)));
                        }
                    }
                } else if a == pos {
                    assert(after[b] == before[b - 1]);
                    assert(key_lt(key_of(vec@, x as int), key_of(vec@, before[pos as int] as int)));
                    if b - 1 > pos {
                        assert(key_lt(key_of(vec@, before[pos as int] as int), key_of(vec@, before[b - 1] as int)));
                    }
                } else {
                    assert(after[a] == before[a - 1] && after[b] == before[b - 1]);
                }
            }
            assert(ps@.take(i + 1) == ps@.take(i as int).push(x));
            assert(after.to_set() =~= before.to_set().insert(x)) by {
                assert forall|y: usize| #[trigger] after.to_set().contains(y) <==> before.to_set().insert(x).contains(y) by {
                    if after.to_set().contains(y) {
                        let a = choose|a: int| 0 <= a < after.len() && after[a] == y;
                        if a < pos {
                            assert(before[a] == y);
                        } else if a > pos {
                            assert(before[a - 1] == y);
                        }
                    }
                    if before.to_set().contains(y) {
                        let a = choose|a: int| 0 <= a < before.len() && before[a] == y;
                        if a < pos {
                            assert(after[a] == y);
                        } else {
                            assert(after[a + 1] == y);
                        }
                    }
                    if y == x {
                        assert(after[pos as int] == y);
                    }
                }
            }
            assert(ps@.take(i as int).push(x).to_set() =~= ps@.take(i as int).to_set().insert(x)) by {
                assert forall|y: usize| #[trigger] ps@.take(i as int).push(x).to_set().contains(y) <==> ps@.take(
                    i as int,
                ).to_set().insert(x).contains(y) by {
                    let t = ps@.take(i as int);
                    if t.push(x).to_set().contains(y) {
                        let a = choose|a: int| 0 <= a < t.push(x).len() && t.push(x)[a] == y;
                        if a < t.len() {
                            assert(t[a] == y);
                        }
                    }
                    if t.to_set().contains(y) {
                        let a = choose|a: int| 0 <= a < t.len() && t[a] == y;
                        assert(t.push(x)[a] == y);
                    }
                    if y == x {
                        assert(t.push(x)[t.len() as int] == y);
                    }
                }
            }
            assert forall|a: int, b: int| 0 <= a < after.len() && 0 <= b < after.len() && a != b implies after[a]
                != after[b] by {
                let (lo, hi) = if a < b { (a, b) } else { (b, a) };
                assert(key_lt(key_of(vec@, after[lo] as int), key_of(vec@, after[hi] as int)));
            }
        }
        i = i + 1;
    }
    proof {
        assert(ps@.take(n as int) =~= ps@);
        let m = out@.map_values(|p: usize| p as int);
        assert forall|a: int, b: int| 0 <= a < b < m.len() implies key_lt(key_of(vec@, m[a]), key_of(vec@, m[b])) by {
            assert(key_lt(key_of(vec@, out@[a] as int), key_of(vec@, out@[b] as int)));
        }
    }
}


/// The key,value pairs written after the header of the object that starts at `s`.
pub open spec fn object_pairs(v: Seq<u8>, s: int) -> Seq<int> {
    pair_starts(v, s + 17, v.len() as int)
}

/// `w` is the object that starts at `s` in `v`, once completed: the bytes before it are
/// unchanged; its pairs are, in their order in `v`, those whose key does not occur
/// again later, each copied unchanged; the header holds their number and the total
/// size; and the index table after them lists the same pairs ordered by key.
pub open spec fn object_completed(v: Seq<u8>, s: int, w: Seq<u8>) -> bool {
    let ks = kept_pairs(v, object_pairs(v, s));
    let m = ks.len();
    let body_end = w.len() - 8 * m;
    let rs = pair_starts(w, s + 17, body_end);
    let idx = object_index(w, s);
    &&& s + 17 <= body_end
    &&& w.subrange(0, s + 1) == v.subrange(0, s + 1)
    &&& u64_at(w, s + 1) == m
    &&& u64_at(w, s + 9) == w.len() - s
    &&& pairs_tile(w, s + 17, body_end)
    &&& rs.len() == m
    &&& forall|a: int| 0 <= a < m ==> pair_bytes(w, #[trigger] rs[a]) == pair_bytes(v, ks[a])
    &&& idx.len() == m
    &&& forall|p: int| idx.contains(p) <==> rs.contains(p)
    &&& sorted_by_key(w, idx)
}

/// What the pairs of a tiled stretch are: complete, consecutive, and filling it.
proof fn lemma_pair_starts_facts(v: Seq<u8>, p: int, end: int)
    requires
        pairs_tile(v, p, end),
    ensures
        ({
            let all = pair_starts(v, p, end);
            &&& forall|i: int| 0 <= i < all.len() ==> pair_ok(v, #[trigger] all[i], end)
            &&& all.len() > 0 ==> all[0] == p
            &&& forall|i: int| 0 <= i < all.len() - 1 ==> #[trigger] all[i + 1] == all[i] + pair_len(v, all[i])
            &&& all.len() > 0 ==> all[all.len() - 1] + pair_len(v, all[all.len() - 1]) == end
            &&& all.len() == 0 ==> p == end
        }),
    decreases end - p,
{
    if p < end {
        let q = p + pair_len(v, p);
        lemma_pair_starts_facts(v, q, end);
        let rest = pair_starts(v, q, end);
        let all = pair_starts(v, p, end);
        assert(all == seq![p] + rest);
        assert forall|i: int| 0 <= i < all.len() implies pair_ok(v, #[trigger] all[i], end) by {
            if i > 0 {
                assert(all[i] == rest[i - 1]);
            }
        }
        assert forall|i: int| 0 <= i < all.len() - 1 implies #[trigger] all[i + 1] == all[i] + pair_len(v, all[i]) by {
            if i > 0 {
                assert(all[i] == rest[i - 1]);
                assert(all[i + 1] == rest[i]);
                assert(rest[(i - 1) + 1] == rest[i - 1] + pair_len(v, rest[i - 1]));
            } else if rest.len() > 0 {
                assert(all[1] == rest[0]);
            }
        }
        if rest.len() > 0 {
            assert(all[all.len() - 1] == rest[rest.len() - 1]);
        } else {
            assert(q == end);
        }
    }
}

/// Two buffers that agree on `[lo, hi)` agree on every stretch inside it.
proof fn lemma_agree_subrange(v: Seq<u8>, w: Seq<u8>, lo: int, hi: int, i: int, j: int)
    requires
        0 <= lo <= i <= j <= hi,
        hi <= v.len(),
        hi <= w.len(),
        forall|k: int| lo <= k < hi ==> v[k] == w[k],
    ensures
        v.subrange(i, j) == w.subrange(i, j),
{
    assert(v.subrange(i, j) =~= w.subrange(i, j));
}

/// No more positions are kept than there are.
proof fn lemma_kept_len(v: Seq<u8>, ps: Seq<int>, n: int)
    requires
        0 <= n <= ps.len(),
    ensures
        kept_upto(v, ps, n).len() <= n,
    decreases n,
{
    if n > 0 {
        lemma_kept_len(v, ps, n - 1);
    }
}


/// The kept pairs, copied to `rs` in `b`, read there as they did in `v`: complete,
/// with the same keys, which are readable, pairwise comparable and pairwise distinct.
proof fn lemma_kept_copies(v: Seq<u8>, end: int, pi: Seq<int>, b: Seq<u8>, rs: Seq<usize>, lo: int, hi: int)
    requires
        forall|i: int| 0 <= i < pi.len() ==> pair_ok(v, #[trigger] pi[i], end),
        keys_all_comparable(v, pi),
        rs.len() == kept_pairs(v, pi).len(),
        0 <= lo <= hi <= b.len(),
        forall|a: int| 0 <= a < rs.len() ==> lo <= #[trigger] rs[a],
        forall|a: int| 0 <= a < rs.len() ==> #[trigger] rs[a] + pair_len(v, kept_pairs(v, pi)[a]) <= hi,
        forall|a: int|
            0 <= a < rs.len() ==> b.subrange(#[trigger] rs[a] as int, rs[a] + pair_len(v, kept_pairs(v, pi)[a]))
                == pair_bytes(v, kept_pairs(v, pi)[a]),
    ensures
        forall|a: int|
            0 <= a < rs.len() ==> {
                &&& pair_ok(b, #[trigger] rs[a] as int, hi)
                &&& pair_len(b, rs[a] as int) == pair_len(v, kept_pairs(v, pi)[a])
                &&& key_of(b, rs[a] as int) == key_of(v, kept_pairs(v, pi)[a])
                &&& pair_bytes(b, rs[a] as int) == pair_bytes(v, kept_pairs(v, pi)[a])
                &&& key_readable(b, rs[a] as int)
            },
        forall|a: int, c: int|
            0 <= a < rs.len() && 0 <= c < rs.len() && a != c ==> keys_comparable(
                b,
                #[trigger] rs[a] as int,
                #[trigger] rs[c] as int,
            ) && key_of(b, rs[a] as int) != key_of(b, rs[c] as int),
{
    let ks = kept_pairs(v, pi);
    lemma_kept_are_last(v, pi, pi.len() as int);
    lemma_kept_distinct(v, pi, pi.len() as int);
    assert forall|a: int| 0 <= a < rs.len() implies {
        &&& pair_ok(b, #[trigger] rs[a] as int, hi)
        &&& pair_len(b, rs[a] as int) == pair_len(v, ks[a])
        &&& key_of(b, rs[a] as int) == key_of(v, ks[a])
        &&& pair_bytes(b, rs[a] as int) == pair_bytes(v, ks[a])
        &&& key_readable(b, rs[a] as int)
    } by {
        let i = choose|i: int| 0 <= i < pi.len() && is_last(v, pi, i) && ks[a] == #[trigger] pi[i];
        assert(pair_ok(v, pi[i], end));
        lemma_copied_pair(v, ks[a], end, b, rs[a] as int, hi);
    }
    assert forall|a: int, c: int| 0 <= a < rs.len() && 0 <= c < rs.len() && a != c implies keys_comparable(
        b,
        #[trigger] rs[a] as int,
        #[trigger] rs[c] as int,
    ) && key_of(b, rs[a] as int) != key_of(b, rs[c] as int) by {
        let i = choose|i: int| 0 <= i < pi.len() && is_last(v, pi, i) && ks[a] == #[trigger] pi[i];
        let j = choose|j: int| 0 <= j < pi.len() && is_last(v, pi, j) && ks[c] == #[trigger] pi[j];
        assert(pair_ok(v, pi[i], end));
        assert(pair_ok(v, pi[j], end));
        lemma_copied_pair(v, ks[a], end, b, rs[a] as int, hi);
        lemma_copied_pair(v, ks[c], end, b, rs[c] as int, hi);
        if a < c {
            assert(key_of(v, ks[a]) != key_of(v, ks[c]));
        } else {
            assert(key_of(v, ks[c]) != key_of(v, ks[a]));
        }
        assert(i != j);
        assert(keys_comparable(v, pi[i], pi[j]));
    }
}


/// The last step of completing an object: with the pairs copied and ordered, the
/// header written and the index table appended, the object is complete.
#[verifier::spinoff_prover]
proof fn lemma_object_completed(
    v: Seq<u8>,
    s: int,
    b1: Seq<u8>,
    w: Seq<u8>,
    rs: Seq<usize>,
    sorted: Seq<usize>,
    body_end: int,
)
    requires
        0 <= s,
        s + 17 <= v.len(),
        forall|i: int| 0 <= i < object_pairs(v, s).len() ==> pair_ok(v, #[trigger] object_pairs(v, s)[i], v.len() as int),
        keys_all_comparable(v, object_pairs(v, s)),
        rs.len() == kept_pairs(v, object_pairs(v, s)).len(),
        s + 17 <= body_end == b1.len(),
        rs.len() > 0 ==> rs[0] == s + 17,
        rs.len() > 0 ==> rs[rs.len() - 1] + pair_len(v, kept_pairs(v, object_pairs(v, s))[rs.len() - 1]) == body_end,
        rs.len() == 0 ==> body_end == s + 17,
        forall|a: int| 0 <= a < rs.len() ==> s + 17 <= #[trigger] rs[a],
        forall|a: int| 0 <= a < rs.len() - 1 ==> #[trigger] rs[a + 1] == rs[a] + pair_len(v, kept_pairs(v, object_pairs(v, s))[a]),
        forall|a: int|
            0 <= a < rs.len() ==> #[trigger] rs[a] + pair_len(v, kept_pairs(v, object_pairs(v, s))[a]) <= body_end,
        forall|a: int|
            0 <= a < rs.len() ==> b1.subrange(#[trigger] rs[a] as int, rs[a] + pair_len(v, kept_pairs(v, object_pairs(v, s))[a]))
                == pair_bytes(v, kept_pairs(v, object_pairs(v, s))[a]),
        forall|k: int| 0 <= k < s + 1 ==> b1[k] == v[k],
        word_at(b1, s + 1) == spec_u64_to_le_bytes(rs.len() as u64),
        word_at(b1, s + 9) == spec_u64_to_le_bytes((body_end - s + 8 * rs.len()) as u64),
        body_end - s + 8 * rs.len() <= u64::MAX,
        sorted.len() == rs.len(),
        sorted.to_set() == rs.to_set(),
        sorted_by_key(b1, sorted.map_values(|p: usize| p as int)),
        w.len() == body_end + 8 * rs.len(),
        w.subrange(0, body_end) == b1,
        forall|j: int| 0 <= j < sorted.len() ==> s <= #[trigger] sorted[j],
        forall|j: int| 0 <= j < sorted.len() ==> u64_at(w, body_end + 8 * j) == #[trigger] sorted[j] - s,
    ensures
        object_completed(v, s, w),
{
    let all = object_pairs(v, s);
    let ks = kept_pairs(v, all);
    let m = rs.len();
    let rsi = rs.map_values(|p: usize| p as int);
    let si = sorted.map_values(|p: usize| p as int);
    assert forall|k: int| 0 <= k < body_end implies w[k] == b1[k] by {
        assert(w[k] == w.subrange(0, body_end)[k]);
    }
    // the bytes before the object
    assert(w.subrange(0, s + 1) =~= v.subrange(0, s + 1)) by {
        assert forall|k: int| 0 <= k < s + 1 implies #[trigger] w.subrange(0, s + 1)[k] == v.subrange(0, s + 1)[k] by {
            assert(w[k] == b1[k]);
        }
    }
    // the header
    assert(word_at(w, s + 1) =~= word_at(b1, s + 1)) by {
        assert forall|k: int| 0 <= k < 8 implies #[trigger] word_at(w, s + 1)[k] == word_at(b1, s + 1)[k] by {
            assert(w[s + 1 + k] == b1[s + 1 + k]);
        }
    }
    assert(word_at(w, s + 9) =~= word_at(b1, s + 9)) by {
        assert forall|k: int| 0 <= k < 8 implies #[trigger] word_at(w, s + 9)[k] == word_at(b1, s + 9)[k] by {
            assert(w[s + 9 + k] == b1[s + 9 + k]);
        }
    }
    lemma_le_roundtrip(m as u64);
    lemma_le_roundtrip((body_end - s + 8 * m) as u64);
    // the pairs
    assert forall|a: int| 0 <= a < rs.len() implies w.subrange(#[trigger] rs[a] as int, rs[a] + pair_len(v, ks[a])) == pair_bytes(
        v,
        ks[a],
    ) by {
        lemma_agree_subrange(w, b1, 0, body_end, rs[a] as int, rs[a] + pair_len(v, ks[a]));
    }
    lemma_kept_copies(v, v.len() as int, all, w, rs, s + 17, body_end);
    lemma_kept_copies(v, v.len() as int, all, b1, rs, s + 17, body_end);
    if m > 0 {
        assert forall|a: int| 0 <= a < rsi.len() - 1 implies #[trigger] rsi[a + 1] == rsi[a] + pair_len(w, rsi[a]) by {
            assert(rs[a + 1] == rs[a] + pair_len(v, ks[a]));
        }
        assert forall|a: int| 0 <= a < rsi.len() implies pair_ok(w, #[trigger] rsi[a], body_end) by {
            assert(pair_ok(w, rs[a] as int, body_end));
        }
        assert(pair_len(w, rsi[m - 1]) == pair_len(v, ks[m - 1]));
        lemma_consecutive_pairs_tile(w, rsi, 0, body_end);
        assert(rsi.skip(0) =~= rsi);
    } else {
        assert(pair_starts(w, s + 17, body_end) =~= Seq::<int>::empty());
    }
    let rs_w = pair_starts(w, s + 17, body_end);
    assert(rs_w == rsi);
    assert forall|a: int| 0 <= a < m implies pair_bytes(w, #[trigger] rs_w[a]) == pair_bytes(v, ks[a]) by {
        assert(rs_w[a] == rs[a] as int);
    }
    // the index table
    let idx = object_index(w, s);
    assert(idx =~= si) by {
        assert forall|j: int| 0 <= j < idx.len() implies idx[j] == si[j] by {
            assert(u64_at(w, body_end + 8 * j) == sorted[j] - s);
        }
    }
    assert forall|p: int| idx.contains(p) <==> rs_w.contains(p) by {
        if idx.contains(p) {
            let j = choose|j: int| 0 <= j < idx.len() && idx[j] == p;
            assert(sorted.to_set().contains(sorted[j]));
            assert(rs.to_set().contains(sorted[j]));
            let a = choose|a: int| 0 <= a < rs.len() && rs[a] == sorted[j];
            assert(rs_w[a] == p);
        }
        if rs_w.contains(p) {
            let a = choose|a: int| 0 <= a < rs_w.len() && rs_w[a] == p;
            assert(rs.to_set().contains(rs[a]));
            assert(sorted.to_set().contains(rs[a]));
            let j = choose|j: int| 0 <= j < sorted.len() && sorted[j] == rs[a];
            assert(idx[j] == p);
        }
    }
    assert forall|i: int, j: int| 0 <= i < j < idx.len() implies key_lt(key_of(w, idx[i]), key_of(w, idx[j])) by {
        assert(key_lt(key_of(b1, si[i]), key_of(b1, si[j])));
        assert(sorted.to_set().contains(sorted[i]));
        assert(rs.to_set().contains(sorted[i]));
        let a = choose|a: int| 0 <= a < rs.len() && rs[a] == sorted[i];
        assert(sorted.to_set().contains(sorted[j]));
        assert(rs.to_set().contains(sorted[j]));
        let c = choose|c: int| 0 <= c < rs.len() && rs[c] == sorted[j];
        assert(key_of(w, rs[a] as int) == key_of(b1, rs[a] as int));
        assert(key_of(w, rs[c] as int) == key_of(b1, rs[c] as int));
    }
}

/// Completes the object started at `obj_start`. The key,value pairs written since
/// then must exactly fill the bytes after its header, and there must be at least one.
/// Where a key occurs more than once, only its last pair is kept; the kept pairs stay
/// in the order they were written, and an index table of their keys, ordered by key,
/// is appended. `sort_buf` is scratch space; it is left empty.
#[verifier::spinoff_prover]
#[verifier::rlimit(80)]
pub fn end_object(vec: &mut Vec<u8>, obj_start: &ObjectStart, sort_buf: &mut Vec<usize>)
    requires
        obj_start.start() + 17 <= old(vec)@.len(),
        pairs_tile(old(vec)@, obj_start.start() + 17, old(vec)@.len() as int),
        object_pairs(old(vec)@, obj_start.start()).len() > 0,
        keys_all_comparable(old(vec)@, object_pairs(old(vec)@, obj_start.start())),
        old(vec)@.len() + 8 * object_pairs(old(vec)@, obj_start.start()).len() <= usize::MAX,
    ensures
        object_completed(old(vec)@, obj_start.start(), final(vec)@),
        final(sort_buf)@.len() == 0,
{
    let ghost v = vec@;
    let start_idx = obj_start.idx;
    let body_start = start_idx + 17;
    let end_idx = vec.len();
    let ghost all = object_pairs(v, start_idx as int);
    let ps = collect_pairs(vec, body_start, end_idx);
    let ghost pi = ps@.map_values(|p: usize| p as int);
    proof {
        assert(pi =~= all);
        lemma_pair_starts_facts(v, body_start as int, end_idx as int);
        assert forall|i: int| 0 <= i < ps@.len() implies pair_ok(v, #[trigger] ps@[i] as int, end_idx as int) by {
            assert(all[i] == ps@[i] as int);
        }
        assert forall|i: int| 0 <= i < ps@.len() - 1 implies #[trigger] ps@[i + 1] == ps@[i] + pair_len(
            v,
            ps@[i] as int,
        ) by {
            assert(all[i] == ps@[i] as int);
            assert(all[i + 1] == ps@[i + 1] as int);
        }
        assert(ps@[ps@.len() - 1] == all[all.len() - 1]);
        assert(ps@[0] == all[0]);
    }
    let keep = last_occurrence_flags(vec, &ps, Ghost(end_idx as int));
    let (mut body, rs) = compact_pairs(vec, body_start, &ps, &keep, Ghost(end_idx as int));
    let ghost ks = kept_pairs(v, all);
    proof {
        lemma_select_is_kept(v, pi, keep@, pi.len() as int);
        lemma_kept_len(v, pi, pi.len() as int);
        lemma_len_bound(&body);
    }
    let m = rs.len();
    let body_end = body.len();
    let ghost b0 = body@;
    internal_write_u64(&mut body, start_idx + 1, m as u64);
    internal_write_u64(&mut body, start_idx + 9, (body_end - start_idx + 8 * m) as u64);
    let ghost b1 = body@;
    proof {
        assert forall|k: int| body_start <= k < body_end implies b0[k] == b1[k] by {}
        assert forall|k: int| 0 <= k < start_idx + 1 implies b1[k] == v[k] by {
            assert(b0[k] == b0.subrange(0, body_start as int)[k]);
            assert(v[k] == v.subrange(0, body_start as int)[k]);
        }
        assert forall|a: int| 0 <= a < rs@.len() implies b1.subrange(#[trigger] rs@[a] as int, rs@[a] + pair_len(v, ks[a]))
            == pair_bytes(v, ks[a]) by {
            lemma_agree_subrange(b0, b1, body_start as int, body_end as int, rs@[a] as int, rs@[a] + pair_len(v, ks[a]));
        }
        lemma_kept_copies(v, end_idx as int, all, b1, rs@, body_start as int, body_end as int);
        assert(word_at(b1, start_idx + 1) =~= spec_u64_to_le_bytes(m as u64));
        assert(word_at(b1, start_idx + 9) =~= spec_u64_to_le_bytes((body_end - start_idx + 8 * m) as u64));
    }
    sort_by_key(&body, &rs, sort_buf);
    proof {
        assert forall|j: int| 0 <= j < sort_buf@.len() implies body_start <= #[trigger] sort_buf@[j] < body_end by {
            assert(sort_buf@.to_set().contains(sort_buf@[j]));
            assert(rs@.to_set().contains(sort_buf@[j]));
            let a = choose|a: int| 0 <= a < rs@.len() && rs@[a] == sort_buf@[j];
            assert(pair_len(v, ks[a]) > 0);
        }
    }
    let mut k: usize = 0;
    while k < m
        invariant
            0 <= k <= m,
            m == sort_buf@.len(),
            body_start == start_idx + 17,
            body_start <= body_end,
            b1.len() == body_end,
            body@.len() == body_end + 8 * k,
            body@.subrange(0, body_end as int) == b1,
            body_end + 8 * m <= usize::MAX,
            forall|j: int| 0 <= j < m ==> body_start <= #[trigger] sort_buf@[j] < body_end,
            forall|j: int| 0 <= j < k ==> u64_at(body@, body_end + 8 * j) == #[trigger] sort_buf@[j] - start_idx,
        decreases m - k,
    {
        let off = sort_buf[k] - start_idx;
        let ghost before = body@;
        internal_append_u64(&mut body, off as u64);
        proof {
            lemma_le_roundtrip(off as u64);
            assert(word_at(body@, body_end + 8 * k) =~= spec_u64_to_le_bytes(off as u64));
            assert forall|j: int| 0 <= j < k + 1 implies u64_at(body@, body_end + 8 * j) == #[trigger] sort_buf@[j]
                - start_idx by {
                if j < k {
                    assert(word_at(body@, body_end + 8 * j) =~= word_at(before, body_end + 8 * j));
                }
            }
            assert(body@.subrange(0, body_end as int) =~= before.subrange(0, body_end as int));
        }
        k = k + 1;
    }
    proof {
        lemma_object_completed(v, start_idx as int, b1, body@, rs@, sort_buf@, body_end as int);
    }
    *vec = body;
    sort_buf.clear();
}


/// Every key that occurs in `ps` has a last occurrence.
proof fn lemma_last_exists(v: Seq<u8>, ps: Seq<int>, i: int)
    requires
        0 <= i < ps.len(),
    ensures
        exists|k: int| i <= k < ps.len() && is_last(v, ps, k) && key_of(v, #[trigger] ps[k]) == key_of(v, ps[i]),
    decreases ps.len() - i,
{
    if is_last(v, ps, i) {
        assert(key_of(v, ps[i]) == key_of(v, ps[i]));
    } else {
        let j = choose|j: int| i < j < ps.len() && key_of(v, ps[j]) == key_of(v, ps[i]);
        lemma_last_exists(v, ps, j);
    }
}

/// Every last occurrence among the first `n` positions is kept.
proof fn lemma_kept_contains_last(v: Seq<u8>, ps: Seq<int>, n: int, i: int)
    requires
        0 <= i < n <= ps.len(),
        is_last(v, ps, i),
    ensures
        kept_upto(v, ps, n).contains(ps[i]),
    decreases n,
{
    let cur = kept_upto(v, ps, n);
    if i == n - 1 {
        assert(cur[cur.len() - 1] == ps[i]);
    } else {
        lemma_kept_contains_last(v, ps, n - 1, i);
        let prev = kept_upto(v, ps, n - 1);
        let a = choose|a: int| 0 <= a < prev.len() && prev[a] == ps[i];
        if is_last(v, ps, n - 1) {
            assert(cur[a] == prev[a]);
        }
    }
}

/// Reading a completed object finds what was written last: a key is in the object's
/// index table exactly when some pair written for the object has that key, and the
/// pair found there is a copy of the last pair written with that key.
pub proof fn lemma_completed_object_lookup(v: Seq<u8>, s: int, w: Seq<u8>, key: (u8, i64))
    requires
        0 <= s,
        s + 17 <= v.len(),
        pairs_tile(v, s + 17, v.len() as int),
        object_completed(v, s, w),
    ensures
        (exists|j: int| 0 <= j < object_index(w, s).len() && #[trigger] key_of(w, object_index(w, s)[j]) == key)
            <==> (exists|i: int| 0 <= i < object_pairs(v, s).len() && #[trigger] key_of(v, object_pairs(v, s)[i]) == key),
        forall|j: int, i: int|
            0 <= j < object_index(w, s).len() && 0 <= i < object_pairs(v, s).len() && key_of(
                w,
                #[trigger] object_index(w, s)[j],
            ) == key_of(v, #[trigger] object_pairs(v, s)[i]) && is_last(v, object_pairs(v, s), i)
                ==> pair_bytes(w, object_index(w, s)[j]) == pair_bytes(v, object_pairs(v, s)[i]),
{
    let ps = object_pairs(v, s);
    let ks = kept_pairs(v, ps);
    let m = ks.len();
    let body_end = w.len() - 8 * m;
    let rs = pair_starts(w, s + 17, body_end);
    let idx = object_index(w, s);
    lemma_pair_starts_facts(v, s + 17, v.len() as int);
    lemma_pair_starts_facts(w, s + 17, body_end);
    lemma_kept_are_last(v, ps, ps.len() as int);
    // each copy has the key of its original
    assert forall|a: int| 0 <= a < m implies key_of(w, #[trigger] rs[a]) == key_of(v, ks[a]) by {
        let i = choose|i: int| 0 <= i < ps.len() && is_last(v, ps, i) && ks[a] == #[trigger] ps[i];
        assert(pair_ok(v, ps[i], v.len() as int));
        assert(pair_ok(w, rs[a], body_end));
        assert(pair_bytes(w, rs[a]) == pair_bytes(v, ks[a]));
        assert(pair_bytes(w, rs[a]).len() == pair_len(w, rs[a]));
        assert(pair_bytes(v, ks[a]).len() == pair_len(v, ks[a]));
        assert(pair_len(w, rs[a]) == pair_len(v, ks[a]));
        lemma_copied_pair(v, ks[a], v.len() as int, w, rs[a], body_end);
    }
    if exists|j: int| 0 <= j < idx.len() && #[trigger] key_of(w, idx[j]) == key {
        let j = choose|j: int| 0 <= j < idx.len() && #[trigger] key_of(w, idx[j]) == key;
        assert(idx.contains(idx[j]));
        assert(rs.contains(idx[j]));
        let a = choose|a: int| 0 <= a < rs.len() && rs[a] == idx[j];
        let i = choose|i: int| 0 <= i < ps.len() && is_last(v, ps, i) && ks[a] == #[trigger] ps[i];
        assert(key_of(v, ps[i]) == key);
    }
    if exists|i: int| 0 <= i < ps.len() && #[trigger] key_of(v, ps[i]) == key {
        let i = choose|i: int| 0 <= i < ps.len() && #[trigger] key_of(v, ps[i]) == key;
        lemma_last_exists(v, ps, i);
        let k = choose|k: int| i <= k < ps.len() && is_last(v, ps, k) && key_of(v, #[trigger] ps[k]) == key_of(v, ps[i]);
        lemma_kept_contains_last(v, ps, ps.len() as int, k);
        let a = choose|a: int| 0 <= a < ks.len() && ks[a] == ps[k];
        assert(rs.contains(rs[a]));
        assert(idx.contains(rs[a]));
        let j = choose|j: int| 0 <= j < idx.len() && idx[j] == rs[a];
        assert(key_of(w, idx[j]) == key);
    }
    assert forall|j: int, i: int|
        0 <= j < idx.len() && 0 <= i < ps.len() && key_of(w, #[trigger] idx[j]) == key_of(v, #[trigger] ps[i])
            && is_last(v, ps, i) implies pair_bytes(w, idx[j]) == pair_bytes(v, ps[i]) by {
        assert(idx.contains(idx[j]));
        assert(rs.contains(idx[j]));
        let a = choose|a: int| 0 <= a < rs.len() && rs[a] == idx[j];
        let k = choose|k: int| 0 <= k < ps.len() && is_last(v, ps, k) && ks[a] == #[trigger] ps[k];
        assert(key_of(v, ps[k]) == key_of(v, ps[i]));
        if i < k {
            assert(key_of(v, ps[k]) != key_of(v, ps[i]));
        } else if k < i {
            assert(key_of(v, ps[i]) != key_of(v, ps[k]));
        }
    }
}


/// The entries of an index table: entry `j` holds offset `j`.
proof fn lemma_offsets_table(offs: Seq<int>)
    ensures
        offsets_table(offs).len() == 8 * offs.len(),
        forall|j: int| 0 <= j < offs.len() ==> #[trigger] word_at(offsets_table(offs), 8 * j) == spec_u64_to_le_bytes(offs[j] as u64),
    decreases offs.len(),
{
    if offs.len() > 0 {
        let init = offs.drop_last();
        lemma_offsets_table(init);
        lemma_le_roundtrip(offs.last() as u64);
        let t = offsets_table(offs);
        assert forall|j: int| 0 <= j < offs.len() implies #[trigger] word_at(t, 8 * j) == spec_u64_to_le_bytes(offs[j] as u64) by {
            if j < init.len() {
                assert(word_at(t, 8 * j) =~= word_at(offsets_table(init), 8 * j));
                assert(init[j] == offs[j]);
            } else {
                assert(word_at(t, 8 * j) =~= spec_u64_to_le_bytes(offs.last() as u64));
            }
        }
    }
}

/// The items of a stretch lie inside it, in order, each complete.
proof fn lemma_item_starts_facts(v: Seq<u8>, p: int, end: int)
    requires
        items_tile(v, p, end),
    ensures
        forall|i: int| 0 <= i < item_starts(v, p, end).len() ==> item_ok(v, #[trigger] item_starts(v, p, end)[i], end) && p <= item_starts(v, p, end)[i],
    decreases end - p,
{
    if p < end {
        let q = p + item_len(v, p);
        lemma_item_starts_facts(v, q, end);
        let all = item_starts(v, p, end);
        let rest = item_starts(v, q, end);
        assert(all == seq![p] + rest);
        assert forall|i: int| 0 <= i < all.len() implies item_ok(v, #[trigger] all[i], end) && p <= all[i] by {
            if i > 0 {
                assert(all[i] == rest[i - 1]);
            }
        }
    }
}

/// Reading a completed list: it holds as many items as were written after its header,
/// the index table leads to each of them in order, and each is unchanged.
pub proof fn lemma_completed_list_read(v: Seq<u8>, s: int)
    requires
        0 <= s,
        s + 17 <= v.len(),
        v[s] == LIST,
        items_tile(v, s + 17, v.len() as int),
        v.len() - s + 8 * item_starts(v, s + 17, v.len() as int).len() <= u64::MAX,
    ensures
        ({
            let w = ended_list(v, s);
            let starts = item_starts(v, s + 17, v.len() as int);
            let len = u64_at(w, s + 1);
            let n_bytes = u64_at(w, s + 9);
            &&& w.subrange(0, s + 1) == v.subrange(0, s + 1)
            &&& len == starts.len()
            &&& n_bytes == w.len() - s
            &&& 8 * len <= n_bytes
            &&& forall|i: int| 0 <= i < len ==> s + u64_at(w, s + n_bytes - 8 * (len - i)) == #[trigger] starts[i]
            &&& forall|i: int| 0 <= i < len ==> item_ok(w, #[trigger] starts[i], v.len() as int)
                && w.subrange(starts[i], starts[i] + item_len(w, starts[i])) == v.subrange(starts[i], starts[i] + item_len(v, starts[i]))
        }),
{
    let starts = item_starts(v, s + 17, v.len() as int);
    let n = starts.len();
    let offs = relative_to(starts, s);
    let t = offsets_table(offs);
    let u = v + t;
    let nb = v.len() - s + 8 * n;
    let u1 = with_word_at(u, s + 1, spec_u64_to_le_bytes(n as u64));
    let w = with_word_at(u1, s + 9, spec_u64_to_le_bytes(nb as u64));
    assert(w == ended_list(v, s));
    lemma_offsets_table(offs);
    lemma_le_roundtrip(n as u64);
    lemma_le_roundtrip(nb as u64);
    lemma_item_starts_facts(v, s + 17, v.len() as int);
    assert(w.len() == v.len() + 8 * n);
    assert forall|k: int| 0 <= k < w.len() && !(s + 1 <= k < s + 17) implies w[k] == u[k] by {}
    assert(w.subrange(0, s + 1) =~= v.subrange(0, s + 1));
    assert(word_at(w, s + 1) =~= spec_u64_to_le_bytes(n as u64));
    assert(word_at(w, s + 9) =~= spec_u64_to_le_bytes(nb as u64));
    assert forall|i: int| 0 <= i < n implies s + u64_at(w, s + nb - 8 * (n - i)) == #[trigger] starts[i] by {
        assert(s + nb - 8 * (n - i) == v.len() + 8 * i);
        assert(word_at(w, v.len() + 8 * i) =~= word_at(t, 8 * i));
        assert(offs[i] == starts[i] - s);
        assert(item_ok(v, starts[i], v.len() as int));
        lemma_le_roundtrip((starts[i] - s) as u64);
    }
    assert forall|i: int| 0 <= i < n implies item_ok(w, #[trigger] starts[i], v.len() as int) && w.subrange(
        starts[i],
        starts[i] + item_len(w, starts[i]),
    ) == v.subrange(starts[i], starts[i] + item_len(v, starts[i])) by {
        let p = starts[i];
        assert(item_ok(v, p, v.len() as int));
        let l = item_len(v, p);
        assert(w.subrange(p, p + l) =~= v.subrange(p, p + l));
        lemma_copied_item(v, p, v.len() as int, w, p, v.len() as int);
    }
}


/// Reading back an unsigned integer item gives the value written, and the item is
/// complete.
pub proof fn lemma_u64_item_roundtrip(v: Seq<u8>, val: u64)
    ensures
        ({
            let w = v + u64_item(val);
            &&& w[v.len() as int] == INT_U64
            &&& u64_at(w, v.len() as int + 1) == val
            &&& item_len(w, v.len() as int) == 9
            &&& item_ok(w, v.len() as int, w.len() as int)
        }),
{
    let w = v + u64_item(val);
    lemma_le_roundtrip(val);
    assert(word_at(w, v.len() as int + 1) =~= spec_u64_to_le_bytes(val));
}

/// Reading back a signed integer item gives the value written, and the item is
/// complete.
pub proof fn lemma_i64_item_roundtrip(v: Seq<u8>, val: i64)
    ensures
        ({
            let w = v + i64_item(val);
            &&& w[v.len() as int] == INT_I64
            &&& i64_at(w, v.len() as int + 1) == val
            &&& item_len(w, v.len() as int) == 9
            &&& item_ok(w, v.len() as int, w.len() as int)
        }),
{
    let w = v + i64_item(val);
    crate::byte_vec::lemma_i64_le_roundtrip(val);
    assert(word_at(w, v.len() as int + 1) =~= spec_u64_to_le_bytes(val as u64));
}

/// Reading back a string item gives the bytes written, and the item is complete.
pub proof fn lemma_string_item_roundtrip(v: Seq<u8>, bytes: Seq<u8>)
    requires
        bytes.len() <= u64::MAX,
    ensures
        ({
            let w = v + string_item(bytes);
            let p = v.len() as int;
            &&& w[p] == STRING
            &&& u64_at(w, p + 1) == bytes.len()
            &&& w.subrange(p + 9, p + 9 + u64_at(w, p + 1)) == bytes
            &&& item_len(w, p) == 9 + bytes.len()
            &&& item_ok(w, p, w.len() as int)
        }),
{
    let w = v + string_item(bytes);
    let p = v.len() as int;
    lemma_le_roundtrip(bytes.len() as u64);
    assert(word_at(w, p + 1) =~= spec_u64_to_le_bytes(bytes.len() as u64));
    assert(w.subrange(p + 9, p + 9 + bytes.len()) =~= bytes);
}

} // verus!
