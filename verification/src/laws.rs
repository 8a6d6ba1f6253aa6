//! The store's general guarantees, each stated and proved over the models
//! that the operation contracts speak of: round trips of a write and a read,
//! exactness of prefix scans, invisibility of the reserved entry, atomicity
//! of committed transactions, handle retirement, passphrase rotation leaving
//! reads unchanged, and the backup codec reproducing the user entries.

use vstd::prelude::*;

verus! {

use vstd::utf8::{valid_utf8, encode_utf8, decode_utf8, encode_utf8_valid_utf8,
    encode_utf8_decode_utf8};
use crate::engine::{kv_map, kv_contains, strict_sorted, distinct_keys, puts_applied,
    lemma_sorted_distinct, lemma_kv_map_at};
use crate::framing::{encode_records, parse_records, lemma_parse_records_round_trip};
use crate::order::{is_prefix_of, lex_lt, lemma_lex_connex};
use crate::registry::TransactionHandle;
use crate::storage::{Storage, dek_key, scan_entries, stored_plain, apply_ops};

/// After storing value bytes under a key (other than the reserved one) in a
/// plaintext store, reading that key yields exactly the value; after removing
/// the key, reading yields nothing.
pub proof fn lemma_plaintext_round_trip(st: Storage, key: Seq<char>, value: Seq<char>)
    requires
        !st.is_encrypted(),
        encode_utf8(key) != dek_key(),
    ensures
        st.contents().contains_key(encode_utf8(key)) && st.contents()[encode_utf8(key)]
            == encode_utf8(value) ==> st.spec_read(key) == Ok::<
            Option<Seq<char>>,
            crate::errors::StorageError,
        >(Some(value)),
        !st.contents().contains_key(encode_utf8(key)) ==> st.spec_read(key) == Ok::<
            Option<Seq<char>>,
            crate::errors::StorageError,
        >(None),
{
    broadcast use encode_utf8_valid_utf8, encode_utf8_decode_utf8;

}

/// The same in encrypted mode: when the stored envelope under the key opens
/// to the value's bytes, reading the key yields the value.
pub proof fn lemma_encrypted_round_trip(st: Storage, key: Seq<char>, value: Seq<char>)
    requires
        st.is_encrypted(),
        encode_utf8(key) != dek_key(),
    ensures
        st.contents().contains_key(encode_utf8(key)) && stored_plain(
            st.dek_spec(),
            st.contents()[encode_utf8(key)],
        ) == Some(encode_utf8(value)) ==> st.spec_read(key) == Ok::<
            Option<Seq<char>>,
            crate::errors::StorageError,
        >(Some(value)),
        !st.contents().contains_key(encode_utf8(key)) ==> st.spec_read(key) == Ok::<
            Option<Seq<char>>,
            crate::errors::StorageError,
        >(None),
{
    broadcast use encode_utf8_valid_utf8, encode_utf8_decode_utf8;

}

/// A prefix scan is exact: every yielded entry carries the prefix, is not the
/// reserved entry, and is stored; every stored user key with the prefix is
/// yielded; and the yield is strictly ascending (so without duplicates).
#[verifier::rlimit(80)]
pub proof fn lemma_scan_entries_exact(s: Seq<(Seq<u8>, Seq<u8>)>, p: Seq<u8>)
    requires
        strict_sorted(s),
    ensures
        forall|m: int|
            0 <= m < scan_entries(s, p).len() ==> {
                let e = #[trigger] scan_entries(s, p)[m];
                &&& is_prefix_of(p, e.0)
                &&& e.0 != dek_key()
                &&& kv_map(s).contains_key(e.0)
                &&& kv_map(s)[e.0] == e.1
            },
        forall|k: Seq<u8>|
            #[trigger] kv_map(s).contains_key(k) && is_prefix_of(p, k) && k != dek_key()
                ==> exists|m: int|
                0 <= m < scan_entries(s, p).len() && (#[trigger] scan_entries(s, p)[m]).0 == k,
        forall|m1: int, m2: int|
            0 <= m1 < m2 < scan_entries(s, p).len() ==> lex_lt(
                (#[trigger] scan_entries(s, p)[m1]).0,
                (#[trigger] scan_entries(s, p)[m2]).0,
            ),
{
    lemma_sorted_distinct(s);
    lemma_scan_entries_members(s, p);
    let sc = scan_entries(s, p);
    assert forall|m: int| 0 <= m < sc.len() implies {
        let e = #[trigger] sc[m];
        &&& is_prefix_of(p, e.0)
        &&& e.0 != dek_key()
        &&& kv_map(s).contains_key(e.0)
        &&& kv_map(s)[e.0] == e.1
    } by {
        let i = choose|i: int| 0 <= i < s.len() && s[i] == sc[m] && is_prefix_of(p, s[i].0)
            && s[i].0 != dek_key();
        lemma_kv_map_at(s, i);
    }
    lemma_scan_entries_complete(s, p);
    assert forall|k: Seq<u8>|
        #[trigger] kv_map(s).contains_key(k) && is_prefix_of(p, k) && k != dek_key() implies
        exists|m: int| 0 <= m < sc.len() && (#[trigger] sc[m]).0 == k by {
        let i = choose|i: int| 0 <= i < s.len() && (#[trigger] s[i].0) == k;
    }
    lemma_scan_entries_sorted(s, p);
}

/// Every scan element is one of the scanned entries, matching the filter.
proof fn lemma_scan_entries_members(s: Seq<(Seq<u8>, Seq<u8>)>, p: Seq<u8>)
    ensures
        forall|m: int|
            0 <= m < scan_entries(s, p).len() ==> exists|i: int|
                0 <= i < s.len() && s[i] == (#[trigger] scan_entries(s, p)[m]) && is_prefix_of(
                    p,
                    s[i].0,
                ) && s[i].0 != dek_key(),
    decreases s.len(),
{
    if s.len() > 0 {
        lemma_scan_entries_members(s.drop_last(), p);
        let sc = scan_entries(s, p);
        let scd = scan_entries(s.drop_last(), p);
        assert forall|m: int| 0 <= m < sc.len() implies exists|i: int|
            0 <= i < s.len() && s[i] == (#[trigger] sc[m]) && is_prefix_of(p, s[i].0) && s[i].0
                != dek_key() by {
            if m < scd.len() {
                let i = choose|i: int|
                    0 <= i < s.drop_last().len() && s.drop_last()[i] == (#[trigger] scd[m])
                        && is_prefix_of(p, s.drop_last()[i].0) && s.drop_last()[i].0 != dek_key();
                assert(s[i] == s.drop_last()[i]);
                assert(sc[m] == scd[m]);
            } else {
                assert(sc[m] == s.last());
                assert(s[s.len() - 1] == s.last());
            }
        }
    }
}

/// Every stored entry matching the filter appears in the scan.
proof fn lemma_scan_entries_complete(s: Seq<(Seq<u8>, Seq<u8>)>, p: Seq<u8>)
    ensures
        forall|i: int|
            0 <= i < s.len() && is_prefix_of(p, (#[trigger] s[i]).0) && s[i].0 != dek_key()
                ==> exists|m: int|
                0 <= m < scan_entries(s, p).len() && (#[trigger] scan_entries(s, p)[m]) == s[i],
    decreases s.len(),
{
    if s.len() > 0 {
        lemma_scan_entries_complete(s.drop_last(), p);
        let sc = scan_entries(s, p);
        let scd = scan_entries(s.drop_last(), p);
        assert forall|i: int|
            0 <= i < s.len() && is_prefix_of(p, (#[trigger] s[i]).0) && s[i].0 != dek_key()
                implies exists|m: int| 0 <= m < sc.len() && (#[trigger] sc[m]) == s[i] by {
            if i < s.len() - 1 {
                assert(s.drop_last()[i] == s[i]);
                let m = choose|m: int| 0 <= m < scd.len() && (#[trigger] scd[m]) == s[i];
                assert(sc[m] == s[i]);
            } else {
                assert(sc[sc.len() - 1] == s.last());
            }
        }
    }
}

/// A scan over strictly sorted entries is strictly sorted.
proof fn lemma_scan_entries_sorted(s: Seq<(Seq<u8>, Seq<u8>)>, p: Seq<u8>)
    requires
        strict_sorted(s),
    ensures
        forall|m1: int, m2: int|
            0 <= m1 < m2 < scan_entries(s, p).len() ==> lex_lt(
                (#[trigger] scan_entries(s, p)[m1]).0,
                (#[trigger] scan_entries(s, p)[m2]).0,
            ),
        forall|m: int|
            0 <= m < scan_entries(s, p).len() ==> exists|i: int|
                0 <= i < s.len() && s[i] == (#[trigger] scan_entries(s, p)[m]),
    decreases s.len(),
{
    if s.len() > 0 {
        lemma_scan_entries_sorted(s.drop_last(), p);
        let sc = scan_entries(s, p);
        let scd = scan_entries(s.drop_last(), p);
        assert(forall|i: int| 0 <= i < s.len() - 1 ==> #[trigger] s.drop_last()[i] == s[i]);
        assert forall|m: int| 0 <= m < sc.len() implies exists|i: int|
            0 <= i < s.len() && s[i] == (#[trigger] sc[m]) by {
            if m < scd.len() {
                let i = choose|i: int|
                    0 <= i < s.drop_last().len() && s.drop_last()[i] == (#[trigger] scd[m]);
                assert(s[i] == sc[m]);
            } else {
                assert(s[s.len() - 1] == sc[m]);
            }
        }
        assert forall|m1: int, m2: int| 0 <= m1 < m2 < sc.len() implies lex_lt(
            (#[trigger] sc[m1]).0,
            (#[trigger] sc[m2]).0,
        ) by {
            if m2 < scd.len() {
                assert(sc[m1] == scd[m1] && sc[m2] == scd[m2]);
            } else if m2 == scd.len() && sc.len() == scd.len() + 1 {
                // sc[m2] is the last entry of s; sc[m1] sits strictly earlier.
                let i = choose|i: int|
                    0 <= i < s.drop_last().len() && s.drop_last()[i] == (#[trigger] scd[m1]);
                assert(sc[m1] == s[i]);
                assert(sc[m2] == s[s.len() - 1]);
            }
        }
    }
}

/// The reserved entry never shows in any scan, whatever the prefix.
pub proof fn lemma_reserved_key_invisible(s: Seq<(Seq<u8>, Seq<u8>)>, p: Seq<u8>)
    ensures
        forall|m: int|
            0 <= m < scan_entries(s, p).len() ==> (#[trigger] scan_entries(s, p)[m]).0
                != dek_key(),
    decreases s.len(),
{
    if s.len() > 0 {
        lemma_reserved_key_invisible(s.drop_last(), p);
        let sc = scan_entries(s, p);
        let scd = scan_entries(s.drop_last(), p);
        assert forall|m: int| 0 <= m < sc.len() implies (#[trigger] sc[m]).0 != dek_key() by {
            if m < scd.len() {
                assert(sc[m] == scd[m]);
            } else {
                assert(sc[m] == s.last());
            }
        }
    }
}

/// Nor does a point read reach it: reading the reserved key answers as if
/// the key were absent, in any store.
pub proof fn lemma_reserved_key_unreadable(st: Storage, key: Seq<char>)
    requires
        encode_utf8(key) == dek_key(),
    ensures
        st.spec_read(key) == Ok::<Option<Seq<char>>, crate::errors::StorageError>(None),
{
}

/// The last buffered operation on a key decides what a commit leaves there;
/// keys no operation touches keep their prior value. So after a commit all
/// of the transaction's writes are observable at once.
pub proof fn lemma_apply_ops_last_wins(
    m: Map<Seq<u8>, Seq<u8>>,
    ops: Seq<(Seq<u8>, Option<Seq<u8>>)>,
    k: Seq<u8>,
)
    ensures
        match last_op_on(ops, k) {
            None => apply_ops(m, ops).contains_key(k) == m.contains_key(k) && (m.contains_key(k)
                ==> apply_ops(m, ops)[k] == m[k]),
            Some(op) => match op {
                Some(v) => apply_ops(m, ops).contains_key(k) && apply_ops(m, ops)[k] == v,
                None => !apply_ops(m, ops).contains_key(k),
            },
        },
    decreases ops.len(),
{
    if ops.len() > 0 {
        lemma_apply_ops_last_wins(m, ops.drop_last(), k);
    }
}

/// The last operation on `k` in a buffer, if any.
pub open spec fn last_op_on(
    ops: Seq<(Seq<u8>, Option<Seq<u8>>)>,
    k: Seq<u8>,
) -> Option<Option<Seq<u8>>>
    decreases ops.len(),
{
    if ops.len() == 0 {
        None
    } else if ops.last().0 == k {
        Some(ops.last().1)
    } else {
        last_op_on(ops.drop_last(), k)
    }
}

/// A retired handle is no longer live: after a commit or rollback removes it
/// from the registry, operations naming it find nothing.
pub proof fn lemma_handle_retired(
    reg: Map<TransactionHandle, Seq<(Seq<u8>, Option<Seq<u8>>)>>,
    h: TransactionHandle,
)
    ensures
        !reg.remove(h).contains_key(h),
{
}

/// Rotating the passphrase rewrites only the reserved entry and keeps the
/// resident key, so every user read answers as before.
pub proof fn lemma_rotation_preserves_reads(st1: Storage, st2: Storage, key: Seq<char>)
    requires
        st1.dek_spec() == st2.dek_spec(),
        st2.contents() =~= st1.contents().insert(dek_key(), st2.contents()[dek_key()]),
        st1.contents().contains_key(dek_key()),
        encode_utf8(key) != dek_key(),
    ensures
        st2.spec_read(key) == st1.spec_read(key),
{
    assert(st2.contents().contains_key(encode_utf8(key)) == st1.contents().contains_key(
        encode_utf8(key),
    ));
}

/// Entries with distinct keys, stored one after another into an empty map,
/// are exactly their map.
pub proof fn lemma_puts_applied_distinct(s: Seq<(Seq<u8>, Seq<u8>)>)
    requires
        distinct_keys(s),
    ensures
        puts_applied(Map::<Seq<u8>, Seq<u8>>::empty(), s) =~= kv_map(s),
    decreases s.len(),
{
    if s.len() == 0 {
        assert forall|q: Seq<u8>| !kv_contains(s, q) by {}
    } else {
        lemma_puts_applied_distinct(s.drop_last());
        let d = s.drop_last();
        let t = puts_applied(Map::<Seq<u8>, Seq<u8>>::empty(), s);
        assert(t =~= kv_map(d).insert(s.last().0, s.last().1));
        assert forall|q: Seq<u8>| t.contains_key(q) implies kv_map(s).contains_key(q) && kv_map(
            s,
        )[q] == t[q] by {
            if q == s.last().0 {
                lemma_kv_map_at(s, s.len() - 1);
            } else {
                let i = choose|i: int| 0 <= i < d.len() && (#[trigger] d[i].0) == q;
                assert(s[i] == d[i]);
                lemma_kv_map_at(d, i);
                lemma_kv_map_at(s, i);
            }
        }
        assert forall|q: Seq<u8>| kv_map(s).contains_key(q) implies t.contains_key(q) by {
            let i = choose|i: int| 0 <= i < s.len() && (#[trigger] s[i].0) == q;
            if i < s.len() - 1 {
                assert(d[i].0 == q);
            }
        }
    }
}

/// Backing up and restoring reproduces the user entries exactly: the framed
/// payload of the scan decodes back to the scan, and storing those entries
/// into a fresh store yields the source's user contents.
pub proof fn lemma_backup_restore_exact(s: Seq<(Seq<u8>, Seq<u8>)>)
    requires
        strict_sorted(s),
    ensures
        parse_records(encode_records(scan_entries(s, Seq::empty()))) == Some(
            scan_entries(s, Seq::empty()),
        ),
        puts_applied(Map::<Seq<u8>, Seq<u8>>::empty(), scan_entries(s, Seq::empty())) =~= kv_map(
            s,
        ).remove(dek_key()),
{
    let sc = scan_entries(s, Seq::empty());
    lemma_parse_records_round_trip(sc);
    lemma_scan_entries_exact(s, Seq::empty());
    // Distinctness of the scan follows from its strict ascent.
    assert forall|m1: int, m2: int|
        0 <= m1 < sc.len() && 0 <= m2 < sc.len() && m1 != m2 implies (#[trigger] sc[m1].0) != (
    #[trigger] sc[m2].0) by {
        if m1 < m2 {
            lemma_lex_connex(sc[m1].0, sc[m2].0);
        } else {
            lemma_lex_connex(sc[m2].0, sc[m1].0);
        }
    }
    lemma_puts_applied_distinct(sc);
    lemma_sorted_distinct(s);
    assert forall|k: Seq<u8>| #[trigger] is_prefix_of(Seq::empty(), k) by {
        assert(k.take(0) =~= Seq::<u8>::empty());
    }
    assert(puts_applied(Map::<Seq<u8>, Seq<u8>>::empty(), sc) =~= kv_map(s).remove(dek_key()));
}

} // verus!
