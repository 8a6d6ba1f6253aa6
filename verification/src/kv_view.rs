//! The structured-value view's own logic: applying a batch of field patches
//! to a record's fields, last write per field winning. Encoding a structured
//! value to and from its field list is the embedding application's concern;
//! the merge itself is what a read–modify–write update decides.

use vstd::prelude::*;

verus! {

/// The fields as abstract pairs.
pub open spec fn fields_view(s: Seq<(String, String)>) -> Seq<(Seq<char>, Seq<char>)> {
    s.map_values(|p: (String, String)| (p.0@, p.1@))
}

/// The value of field `k`: its first occurrence.
pub open spec fn field_lookup(s: Seq<(Seq<char>, Seq<char>)>, k: Seq<char>) -> Option<Seq<char>>
    decreases s.len(),
{
    if s.len() == 0 {
        None
    } else if s[0].0 == k {
        Some(s[0].1)
    } else {
        field_lookup(s.drop_first(), k)
    }
}

/// One patch applied: the first occurrence of the field is rewritten, or the
/// field is appended when absent.
pub open spec fn patched(
    s: Seq<(Seq<char>, Seq<char>)>,
    k: Seq<char>,
    v: Seq<char>,
) -> Seq<(Seq<char>, Seq<char>)>
    decreases s.len(),
{
    if s.len() == 0 {
        seq![(k, v)]
    } else if s[0].0 == k {
        seq![(k, v)] + s.drop_first()
    } else {
        seq![s[0]] + patched(s.drop_first(), k, v)
    }
}

/// All patches applied, in order.
pub open spec fn merged(
    s: Seq<(Seq<char>, Seq<char>)>,
    patches: Seq<(Seq<char>, Seq<char>)>,
) -> Seq<(Seq<char>, Seq<char>)>
    decreases patches.len(),
{
    if patches.len() == 0 {
        s
    } else {
        patched(merged(s, patches.drop_last()), patches.last().0, patches.last().1)
    }
}

/// The last patch on field `k`, if any.
pub open spec fn last_patch_on(
    patches: Seq<(Seq<char>, Seq<char>)>,
    k: Seq<char>,
) -> Option<Seq<char>>
    decreases patches.len(),
{
    if patches.len() == 0 {
        None
    } else if patches.last().0 == k {
        Some(patches.last().1)
    } else {
        last_patch_on(patches.drop_last(), k)
    }
}

/// Rewriting one field touches no other field.
pub proof fn lemma_patched_lookup(
    s: Seq<(Seq<char>, Seq<char>)>,
    k: Seq<char>,
    v: Seq<char>,
    q: Seq<char>,
)
    ensures
        field_lookup(patched(s, k, v), q) == if q == k {
            Some(v)
        } else {
            field_lookup(s, q)
        },
    decreases s.len(),
{
    let t = patched(s, k, v);
    if s.len() == 0 {
        assert(t =~= seq![(k, v)]);
        assert(t[0] == (k, v));
        assert(t.drop_first() =~= Seq::<(Seq<char>, Seq<char>)>::empty());
        if q != k {
            assert(field_lookup(t, q) == field_lookup(t.drop_first(), q));
        }
    } else if s[0].0 == k {
        assert(t == seq![(k, v)] + s.drop_first());
        assert(t.len() > 0 && t[0] == (k, v));
        assert(t.drop_first() =~= s.drop_first());
        if q != k {
            assert(field_lookup(t, q) == field_lookup(s.drop_first(), q));
            assert(field_lookup(s, q) == field_lookup(s.drop_first(), q));
        }
    } else {
        lemma_patched_lookup(s.drop_first(), k, v, q);
        assert(t == seq![s[0]] + patched(s.drop_first(), k, v));
        assert(t.len() > 0 && t[0] == s[0]);
        assert(t.drop_first() =~= patched(s.drop_first(), k, v));
        if q == s[0].0 {
            assert(field_lookup(t, q) == Some(t[0].1));
            assert(field_lookup(s, q) == Some(s[0].1));
        } else {
            assert(field_lookup(t, q) == field_lookup(patched(s.drop_first(), k, v), q));
            assert(field_lookup(s, q) == field_lookup(s.drop_first(), q));
        }
    }
}

/// What an update leaves in each field: the last patch on it, or the field
/// as it was.
pub proof fn lemma_merged_lookup(
    s: Seq<(Seq<char>, Seq<char>)>,
    patches: Seq<(Seq<char>, Seq<char>)>,
    q: Seq<char>,
)
    ensures
        field_lookup(merged(s, patches), q) == match last_patch_on(patches, q) {
            Some(v) => Some(v),
            None => field_lookup(s, q),
        },
    decreases patches.len(),
{
    if patches.len() > 0 {
        lemma_merged_lookup(s, patches.drop_last(), q);
        lemma_patched_lookup(
            merged(s, patches.drop_last()),
            patches.last().0,
            patches.last().1,
            q,
        );
    }
}

/// A present field is rewritten in place.
proof fn lemma_patched_found(s: Seq<(Seq<char>, Seq<char>)>, k: Seq<char>, v: Seq<char>, j: int)
    requires
        0 <= j < s.len(),
        s[j].0 == k,
        forall|m: int| 0 <= m < j ==> (#[trigger] s[m]).0 != k,
    ensures
        patched(s, k, v) =~= s.update(j, (k, v)),
    decreases j,
{
    if j == 0 {
        assert(patched(s, k, v) == seq![(k, v)] + s.drop_first());
    } else {
        assert(s[0].0 != k);
        assert(forall|m: int| 0 <= m < j - 1 ==> (#[trigger] s.drop_first()[m]).0 != k);
        assert(s.drop_first()[j - 1].0 == k);
        lemma_patched_found(s.drop_first(), k, v, j - 1);
        assert(patched(s, k, v) == seq![s[0]] + patched(s.drop_first(), k, v));
        assert(s.update(j, (k, v)).drop_first() =~= s.drop_first().update(j - 1, (k, v)));
        assert(patched(s, k, v) =~= seq![s[0]] + s.drop_first().update(j - 1, (k, v)));
        assert(s.update(j, (k, v)) =~= seq![s[0]] + s.update(j, (k, v)).drop_first());
    }
}

/// An absent field is appended.
proof fn lemma_patched_absent(s: Seq<(Seq<char>, Seq<char>)>, k: Seq<char>, v: Seq<char>)
    requires
        forall|m: int| 0 <= m < s.len() ==> (#[trigger] s[m]).0 != k,
    ensures
        patched(s, k, v) =~= s.push((k, v)),
    decreases s.len(),
{
    if s.len() == 0 {
        assert(patched(s, k, v) =~= seq![(k, v)]);
        assert(s.push((k, v)) =~= seq![(k, v)]);
    } else {
        assert(forall|m: int|
            0 <= m < s.drop_first().len() ==> (#[trigger] s.drop_first()[m]).0 != k);
        lemma_patched_absent(s.drop_first(), k, v);
        assert(patched(s, k, v) == seq![s[0]] + patched(s.drop_first(), k, v));
        assert(s.push((k, v)) =~= seq![s[0]] + s.drop_first().push((k, v)));
    }
}

/// Apply field patches to a record's fields, in order, last write per field
/// winning: a present field is rewritten in place, an absent one appended.
pub fn apply_field_patches(fields: Vec<(String, String)>, patches: &Vec<(String, String)>) -> (r:
    Vec<(String, String)>)
    ensures
        fields_view(r@) =~= merged(fields_view(fields@), fields_view(patches@)),
{
    let ghost base = fields_view(fields@);
    let ghost pv = fields_view(patches@);
    let mut cur = fields;
    let np = patches.len();
    let mut i: usize = 0;
    while i < np
        invariant
            base == fields_view(fields@),
            pv == fields_view(patches@),
            np == patches@.len(),
            i <= np,
            fields_view(cur@) =~= merged(base, pv.take(i as int)),
        decreases np - i,
    {
        proof {
            assert(pv[i as int] == (patches@[i as int].0@, patches@[i as int].1@));
            assert(pv.take(i + 1).drop_last() =~= pv.take(i as int));
            assert(pv.take(i + 1).last() == pv[i as int]);
        }
        let ghost before = fields_view(cur@);
        let k = patches[i].0.clone();
        let v = patches[i].1.clone();
        let n = cur.len();
        let mut j: usize = 0;
        let mut found = false;
        while j < n && !found
            invariant
                n == cur@.len(),
                j <= n,
                !found ==> forall|m: int|
                    0 <= m < j ==> (#[trigger] fields_view(cur@)[m]).0 != k@,
                found ==> j < n && fields_view(cur@)[j as int].0 == k@ && forall|m: int|
                    0 <= m < j ==> (#[trigger] fields_view(cur@)[m]).0 != k@,
            decreases n - j + (if found {
                0int
            } else {
                1int
            }),
        {
            proof {
                assert(fields_view(cur@)[j as int] == (cur@[j as int].0@, cur@[j as int].1@));
            }
            if cur[j].0 == k {
                found = true;
            } else {
                j = j + 1;
            }
        }
        if found {
            proof {
                lemma_patched_found(before, k@, v@, j as int);
            }
            cur.set(j, (k, v));
            proof {
                assert(fields_view(cur@) =~= before.update(j as int, (k@, v@)));
            }
        } else {
            proof {
                lemma_patched_absent(before, k@, v@);
            }
            cur.push((k, v));
            proof {
                assert(fields_view(cur@) =~= before.push((k@, v@)));
            }
        }
        i = i + 1;
    }
    proof {
        assert(pv.take(np as int) =~= pv);
    }
    cur
}

} // verus!
