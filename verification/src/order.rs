//! Byte-lexicographic ordering of keys, with the order and prefix lemmas the
//! ordered engine and the prefix scans rest on.

use vstd::prelude::*;

verus! {

/// Comparison result of two byte keys.
#[derive(Clone, Copy, Debug, PartialEq, Eq, Structural)]
pub enum KeyOrder {
    Less,
    Equal,
    Greater,
}

/// `a` is strictly below `b` in byte-lexicographic order, comparing from
/// position `i` on (both agree on everything before `i` when this is used).
pub open spec fn lex_lt_from(a: Seq<u8>, b: Seq<u8>, i: int) -> bool
    decreases a.len() - i,
{
    if i >= b.len() {
        false
    } else if i >= a.len() {
        true
    } else if a[i] < b[i] {
        true
    } else if a[i] > b[i] {
        false
    } else {
        lex_lt_from(a, b, i + 1)
    }
}

/// `a` is strictly below `b` in byte-lexicographic order.
pub open spec fn lex_lt(a: Seq<u8>, b: Seq<u8>) -> bool {
    lex_lt_from(a, b, 0)
}

/// `a` is below or equal to `b` in byte-lexicographic order.
pub open spec fn lex_le(a: Seq<u8>, b: Seq<u8>) -> bool {
    lex_lt(a, b) || a == b
}

/// `p` is a prefix of `k`.
pub open spec fn is_prefix_of(p: Seq<u8>, k: Seq<u8>) -> bool {
    p.len() <= k.len() && k.take(p.len() as int) == p
}

/// Comparing from `i` gives the same answer as comparing from `0` when the
/// sequences agree before `i`.
pub proof fn lemma_lex_lt_from_skip(a: Seq<u8>, b: Seq<u8>, i: int)
    requires
        0 <= i <= a.len(),
        i <= b.len(),
        forall|j: int| 0 <= j < i ==> a[j] == b[j],
    ensures
        lex_lt_from(a, b, 0) == lex_lt_from(a, b, i),
    decreases i,
{
    if i > 0 {
        lemma_lex_lt_from_skip(a, b, i - 1);
        assert(lex_lt_from(a, b, i - 1) == lex_lt_from(a, b, i));
    }
}

/// No key is strictly below itself.
pub proof fn lemma_lex_lt_from_irrefl(a: Seq<u8>, i: int)
    requires
        0 <= i,
    ensures
        !lex_lt_from(a, a, i),
    decreases a.len() - i,
{
    if i < a.len() {
        lemma_lex_lt_from_irrefl(a, i + 1);
    }
}

/// Strict order is transitive.
pub proof fn lemma_lex_lt_from_trans(a: Seq<u8>, b: Seq<u8>, c: Seq<u8>, i: int)
    requires
        0 <= i,
        lex_lt_from(a, b, i),
        lex_lt_from(b, c, i),
    ensures
        lex_lt_from(a, c, i),
    decreases b.len() - i,
{
    if i < a.len() && i < b.len() && i < c.len() && a[i] == b[i] && b[i] == c[i] {
        lemma_lex_lt_from_trans(a, b, c, i + 1);
    }
}

/// Two keys that are not strictly ordered either way agree from `i` on.
pub proof fn lemma_lex_lt_from_total(a: Seq<u8>, b: Seq<u8>, i: int)
    requires
        0 <= i <= a.len(),
        i <= b.len(),
        !lex_lt_from(a, b, i),
        !lex_lt_from(b, a, i),
    ensures
        a.skip(i) =~= b.skip(i),
    decreases a.len() - i,
{
    if i >= a.len() {
        if i < b.len() {
            assert(lex_lt_from(a, b, i));
        }
        assert(a.skip(i) =~= b.skip(i));
    } else if i >= b.len() {
        assert(lex_lt_from(b, a, i));
    } else {
        lemma_lex_lt_from_total(a, b, i + 1);
        assert(a.skip(i) =~= seq![a[i]] + a.skip(i + 1));
        assert(b.skip(i) =~= seq![b[i]] + b.skip(i + 1));
    }
}

pub proof fn lemma_lex_lt_trans(a: Seq<u8>, b: Seq<u8>, c: Seq<u8>)
    requires
        lex_lt(a, b),
        lex_lt(b, c),
    ensures
        lex_lt(a, c),
{
    lemma_lex_lt_from_trans(a, b, c, 0);
}

/// Exactly one of `a < b`, `a == b`, `b < a` holds.
pub proof fn lemma_lex_connex(a: Seq<u8>, b: Seq<u8>)
    ensures
        lex_lt(a, b) || lex_lt(b, a) || a == b,
        lex_lt(a, b) ==> a != b && !lex_lt(b, a),
{
    if !lex_lt(a, b) && !lex_lt(b, a) {
        lemma_lex_lt_from_total(a, b, 0);
        assert(a =~= a.skip(0));
        assert(b =~= b.skip(0));
    }
    if lex_lt(a, b) {
        lemma_lex_lt_from_irrefl(a, 0);
        if lex_lt(b, a) {
            lemma_lex_lt_from_trans(a, b, a, 0);
        }
    }
}

/// A key that has `p` as a prefix never sorts strictly below `p`.
pub proof fn lemma_prefix_not_below(p: Seq<u8>, k: Seq<u8>)
    requires
        is_prefix_of(p, k),
    ensures
        !lex_lt(k, p),
        lex_le(p, k),
{
    assert(forall|j: int| 0 <= j < p.len() ==> k[j] == #[trigger] p[j]) by {
        assert(forall|j: int| 0 <= j < p.len() ==> #[trigger] p[j] == k.take(p.len() as int)[j]);
    }
    lemma_lex_lt_from_skip(k, p, p.len() as int);
    lemma_lex_lt_from_skip(p, k, p.len() as int);
    lemma_lex_connex(p, k);
}

/// Helper for prefix-range contiguity, walking the common prefix.
proof fn lemma_prefix_between_from(p: Seq<u8>, a: Seq<u8>, b: Seq<u8>, c: Seq<u8>, i: int)
    requires
        0 <= i <= p.len(),
        p.len() <= a.len(),
        p.len() <= c.len(),
        forall|j: int| i <= j < p.len() ==> a[j] == #[trigger] p[j],
        forall|j: int| i <= j < p.len() ==> c[j] == #[trigger] p[j],
        !lex_lt_from(b, a, i),
        !lex_lt_from(c, b, i),
    ensures
        i < p.len() ==> b.len() >= p.len(),
        forall|j: int| i <= j < p.len() ==> b[j] == #[trigger] p[j],
    decreases p.len() - i,
{
    if i < p.len() {
        assert(i < a.len() && i < c.len());
        if i >= b.len() {
            assert(lex_lt_from(b, a, i));
        } else {
            if b[i] < p[i] {
                assert(lex_lt_from(b, a, i));
            }
            if b[i] > p[i] {
                assert(lex_lt_from(c, b, i));
            }
            assert(b[i] == p[i]);
            lemma_prefix_between_from(p, a, b, c, i + 1);
            assert(b.len() >= p.len());
        }
    }
}

/// Keys with prefix `p` form a contiguous range in byte-lexicographic order:
/// anything between two keys carrying the prefix carries it too.
pub proof fn lemma_prefix_range_contiguous(p: Seq<u8>, a: Seq<u8>, b: Seq<u8>, c: Seq<u8>)
    requires
        is_prefix_of(p, a),
        is_prefix_of(p, c),
        lex_le(a, b),
        lex_le(b, c),
    ensures
        is_prefix_of(p, b),
{
    assert(forall|j: int| 0 <= j < p.len() ==> a[j] == #[trigger] p[j]) by {
        assert(forall|j: int| 0 <= j < p.len() ==> #[trigger] p[j] == a.take(p.len() as int)[j]);
    }
    assert(forall|j: int| 0 <= j < p.len() ==> c[j] == #[trigger] p[j]) by {
        assert(forall|j: int| 0 <= j < p.len() ==> #[trigger] p[j] == c.take(p.len() as int)[j]);
    }
    if lex_lt(b, a) {
        lemma_lex_connex(a, b);
    }
    assert(!lex_lt_from(b, a, 0));
    if lex_lt(c, b) {
        lemma_lex_connex(b, c);
    }
    assert(!lex_lt_from(c, b, 0));
    lemma_prefix_between_from(p, a, b, c, 0);
    if p.len() == 0 {
        assert(b.take(p.len() as int) =~= p);
    } else {
        assert(b.take(p.len() as int) =~= p);
    }
}

/// Compare two byte keys in byte-lexicographic order.
pub fn compare_bytes(a: &Vec<u8>, b: &Vec<u8>) -> (ord: KeyOrder)
    ensures
        ord is Less <==> lex_lt(a@, b@),
        ord is Equal <==> a@ == b@,
        ord is Greater <==> lex_lt(b@, a@),
{
    let a_len = a.len();
    let b_len = b.len();
    let mut i: usize = 0;
    loop
        invariant
            i <= a_len,
            i <= b_len,
            a_len == a@.len(),
            b_len == b@.len(),
            forall|j: int| 0 <= j < i ==> a@[j] == b@[j],
        decreases a_len - i,
    {
        proof {
            lemma_lex_connex(a@, b@);
        }
        if i >= a_len || i >= b_len {
            proof {
                lemma_lex_lt_from_skip(a@, b@, i as int);
                lemma_lex_lt_from_skip(b@, a@, i as int);
                if i >= a_len && i >= b_len {
                    assert(a@ =~= b@);
                }
            }
            let result = if a_len == b_len {
                KeyOrder::Equal
            } else if i >= a_len {
                KeyOrder::Less
            } else {
                KeyOrder::Greater
            };
            return result;
        }
        let x = a[i];
        let y = b[i];
        if x < y {
            proof {
                lemma_lex_lt_from_skip(a@, b@, i as int);
                lemma_lex_lt_from_skip(b@, a@, i as int);
            }
            return KeyOrder::Less;
        }
        if x > y {
            proof {
                lemma_lex_lt_from_skip(a@, b@, i as int);
                lemma_lex_lt_from_skip(b@, a@, i as int);
            }
            return KeyOrder::Greater;
        }
        i = i + 1;
    }
}

} // verus!
