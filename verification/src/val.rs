//! The order of values that are byte strings.
use vstd::prelude::*;
use crate::obj_core::at;

verus! {

/// The lexicographic order of byte strings, as -1, 0 or 1: the first differing byte
/// decides, and where one is a prefix of the other, the shorter comes first.
pub open spec fn lex_order(a: Seq<u8>, b: Seq<u8>) -> int
    decreases a.len(),
{
    if a.len() == 0 || b.len() == 0 {
        if a.len() < b.len() {
            -1
        } else if a.len() > b.len() {
            1
        } else {
            0
        }
    } else if a[0] < b[0] {
        -1
    } else if a[0] > b[0] {
        1
    } else {
        lex_order(a.drop_first(), b.drop_first())
    }
}

/// Comparing the other way round gives the opposite answer.
pub proof fn lemma_lex_order_antisymmetric(a: Seq<u8>, b: Seq<u8>)
    ensures
        lex_order(a, b) == -lex_order(b, a),
    decreases a.len(),
{
    if a.len() > 0 && b.len() > 0 && a[0] == b[0] {
        lemma_lex_order_antisymmetric(a.drop_first(), b.drop_first());
    }
}

/// Two byte strings compare equal exactly when they are the same.
pub proof fn lemma_lex_order_equal(a: Seq<u8>, b: Seq<u8>)
    ensures
        lex_order(a, b) == 0 <==> a == b,
    decreases a.len(),
{
    if a.len() > 0 && b.len() > 0 && a[0] == b[0] {
        lemma_lex_order_equal(a.drop_first(), b.drop_first());
        if lex_order(a, b) == 0 {
            assert(a =~= seq![a[0]] + a.drop_first());
            assert(b =~= seq![b[0]] + b.drop_first());
        }
    } else if a.len() == 0 && b.len() == 0 {
        assert(a =~= b);
    }
}

/// The order is transitive: a string before a second that is before a third is before
/// the third.
pub proof fn lemma_lex_order_transitive(a: Seq<u8>, b: Seq<u8>, c: Seq<u8>)
    requires
        lex_order(a, b) < 0,
        lex_order(b, c) < 0,
    ensures
        lex_order(a, c) < 0,
    decreases a.len(),
{
    if a.len() > 0 && b.len() > 0 && c.len() > 0 && a[0] == b[0] && b[0] == c[0] {
        lemma_lex_order_transitive(a.drop_first(), b.drop_first(), c.drop_first());
    }
}

/// Where two byte strings differ in their first byte, that byte decides, by its value
/// as an unsigned number; where they share it, the rest decides.
pub proof fn lemma_lex_order_bytes(x: u8, y: u8, a: Seq<u8>, b: Seq<u8>)
    ensures
        x < y ==> lex_order(seq![x] + a, seq![y] + b) == -1,
        x > y ==> lex_order(seq![x] + a, seq![y] + b) == 1,
        lex_order(seq![x] + a, seq![x] + b) == lex_order(a, b),
        lex_order(seq![x], seq![y]) < 0 <==> x < y,
{
    let xa = seq![x] + a;
    let xb = seq![x] + b;
    let yb = seq![y] + b;
    assert(xa[0] == x);
    assert(xb[0] == x);
    assert(yb[0] == y);
    assert(xa.drop_first() =~= a);
    assert(xb.drop_first() =~= b);
    assert(seq![x].drop_first() =~= Seq::<u8>::empty());
    assert(seq![y].drop_first() =~= Seq::<u8>::empty());
    assert(lex_order(Seq::<u8>::empty(), Seq::<u8>::empty()) == 0);
}

/// A proper prefix comes before the longer string.
pub proof fn lemma_lex_order_prefix(a: Seq<u8>, b: Seq<u8>)
    requires
        b.len() > 0,
    ensures
        lex_order(a, a + b) == -1,
        lex_order(a + b, a) == 1,
    decreases a.len(),
{
    if a.len() > 0 {
        lemma_lex_order_prefix(a.drop_first(), b);
        assert((a + b).drop_first() =~= a.drop_first() + b);
        assert((a + b)[0] == a[0]);
    } else {
        assert(a + b =~= b);
    }
}

/// Compares two byte strings lexicographically.
pub fn bytes_cmp(left: &Vec<u8>, right: &Vec<u8>) -> (r: core::cmp::Ordering)
    ensures
        r == core::cmp::Ordering::Less <==> lex_order(left@, right@) < 0,
        r == core::cmp::Ordering::Equal <==> lex_order(left@, right@) == 0,
        r == core::cmp::Ordering::Greater <==> lex_order(left@, right@) > 0,
{
    let n = if left.len() < right.len() {
        left.len()
    } else {
        right.len()
    };
    let mut idx: usize = 0;
    proof {
        assert(left@.skip(0) =~= left@);
        assert(right@.skip(0) =~= right@);
    }
    while idx < n
        invariant
            n <= left@.len(),
            n <= right@.len(),
            n == left@.len() || n == right@.len(),
            0 <= idx <= n,
            lex_order(left@, right@) == lex_order(left@.skip(at(idx)), right@.skip(at(idx))),
        decreases n - idx,
    {
        proof {
            assert(left@.skip(at(idx)).drop_first() =~= left@.skip(idx + 1));
            assert(right@.skip(at(idx)).drop_first() =~= right@.skip(idx + 1));
        }
        if left[idx] < right[idx] {
            return core::cmp::Ordering::Less;
        }
        if left[idx] > right[idx] {
            return core::cmp::Ordering::Greater;
        }
        idx = idx + 1;
    }
    if left.len() < right.len() {
        core::cmp::Ordering::Less
    } else if left.len() > right.len() {
        core::cmp::Ordering::Greater
    } else {
        core::cmp::Ordering::Equal
    }
}

/// What a byte of a string becomes in JSON text: `\n`, `\t`, `\r`, `\"` and `\\` for a
/// newline, a tab, a carriage return, a quote and a backslash, and the byte itself
/// otherwise.
pub open spec fn json_escaped_byte(c: u8) -> Seq<u8> {
    if c == 10 {
        seq![92u8, 110u8]
    } else if c == 9 {
        seq![92u8, 116u8]
    } else if c == 13 {
        seq![92u8, 114u8]
    } else if c == 34 {
        seq![92u8, 34u8]
    } else if c == 92 {
        seq![92u8, 92u8]
    } else {
        seq![c]
    }
}

/// The bytes of `t`, each as JSON text.
pub open spec fn json_escape_body(t: Seq<u8>) -> Seq<u8>
    decreases t.len(),
{
    if t.len() == 0 {
        Seq::empty()
    } else {
        json_escape_body(t.drop_last()) + json_escaped_byte(t.last())
    }
}

/// `t` as a JSON string: in double quotes, each byte as JSON text.
pub open spec fn json_string(t: Seq<u8>) -> Seq<u8> {
    seq![34u8] + json_escape_body(t) + seq![34u8]
}

/// JSON text of a byte string is the JSON text of its parts, one after the other.
pub proof fn lemma_json_escape_concat(a: Seq<u8>, b: Seq<u8>)
    ensures
        json_escape_body(a + b) == json_escape_body(a) + json_escape_body(b),
    decreases b.len(),
{
    if b.len() == 0 {
        assert(a + b =~= a);
        assert(json_escape_body(a) + json_escape_body(b) =~= json_escape_body(a));
    } else {
        lemma_json_escape_concat(a, b.drop_last());
        assert((a + b).drop_last() =~= a + b.drop_last());
        assert((a + b).last() == b.last());
    }
}

/// Bytes that JSON text does not escape are copied as they are, whatever their value:
/// a byte string with no newline, tab, carriage return, quote or backslash is its own
/// JSON text. Those five become a backslash and `n`, `t`, `r`, `"` and `\`.
pub proof fn lemma_json_escape_copies_plain_bytes(t: Seq<u8>)
    ensures
        (forall|i: int| 0 <= i < t.len() ==> #[trigger] t[i] != 10u8 && t[i] != 9u8 && t[i] != 13u8 && t[i] != 34u8 && t[i]
            != 92u8) ==> json_escape_body(t) == t,
        json_escape_body(seq![10u8]) == seq![92u8, 110u8],
        json_escape_body(seq![9u8]) == seq![92u8, 116u8],
        json_escape_body(seq![13u8]) == seq![92u8, 114u8],
        json_escape_body(seq![34u8]) == seq![92u8, 34u8],
        json_escape_body(seq![92u8]) == seq![92u8, 92u8],
        json_escape_body(Seq::<u8>::empty()) == Seq::<u8>::empty(),
    decreases t.len(),
{
    reveal_with_fuel(json_escape_body, 2);
    assert(seq![10u8].drop_last() =~= Seq::<u8>::empty());
    assert(seq![9u8].drop_last() =~= Seq::<u8>::empty());
    assert(seq![13u8].drop_last() =~= Seq::<u8>::empty());
    assert(seq![34u8].drop_last() =~= Seq::<u8>::empty());
    assert(seq![92u8].drop_last() =~= Seq::<u8>::empty());
    assert(json_escape_body(seq![10u8]) =~= seq![92u8, 110u8]);
    assert(json_escape_body(seq![9u8]) =~= seq![92u8, 116u8]);
    assert(json_escape_body(seq![13u8]) =~= seq![92u8, 114u8]);
    assert(json_escape_body(seq![34u8]) =~= seq![92u8, 34u8]);
    assert(json_escape_body(seq![92u8]) =~= seq![92u8, 92u8]);
    if t.len() > 0 && (forall|i: int| 0 <= i < t.len() ==> #[trigger] t[i] != 10u8 && t[i] != 9u8 && t[i] != 13u8 && t[i]
        != 34u8 && t[i] != 92u8) {
        let init = t.drop_last();
        assert forall|i: int| 0 <= i < init.len() implies #[trigger] init[i] != 10u8 && init[i] != 9u8 && init[i] != 13u8
            && init[i] != 34u8 && init[i] != 92u8 by {
            assert(init[i] == t[i]);
        }
        lemma_json_escape_copies_plain_bytes(init);
        assert(t.last() == t[t.len() - 1]);
        assert(json_escape_body(t) =~= t);
    }
}

/// The bytes of `text` as a JSON string.
pub fn json_escape(text: &[u8]) -> (r: Vec<u8>)
    ensures
        r@ == json_string(text@),
{
    let ghost t = text@;
    let mut out: Vec<u8> = Vec::new();
    out.push(34);
    let mut idx: usize = 0;
    proof {
        assert(t.take(0) =~= Seq::<u8>::empty());
        assert(out@ =~= seq![34u8] + json_escape_body(t.take(0)));
    }
    while idx < text.len()
        invariant
            t == text@,
            0 <= idx <= t.len(),
            out@ == seq![34u8] + json_escape_body(t.take(idx as int)),
        decreases t.len() - idx,
    {
        let ch = text[idx];
        let ghost before = out@;
        if ch == 10 {
            out.push(92);
            out.push(110);
        } else if ch == 9 {
            out.push(92);
            out.push(116);
        } else if ch == 13 {
            out.push(92);
            out.push(114);
        } else if ch == 34 {
            out.push(92);
            out.push(34);
        } else if ch == 92 {
            out.push(92);
            out.push(92);
        } else {
            out.push(ch);
        }
        proof {
            assert(t.take(idx + 1).drop_last() =~= t.take(idx as int));
            assert(t.take(idx + 1).last() == ch);
            assert(out@ =~= before + json_escaped_byte(ch));
            assert(out@ =~= seq![34u8] + json_escape_body(t.take(idx + 1)));
        }
        idx = idx + 1;
    }
    out.push(34);
    proof {
        assert(t.take(idx as int) =~= t);
        assert(out@ =~= json_string(t));
    }
    out
}

} // verus!
