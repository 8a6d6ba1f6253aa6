//! The transaction registry: the table of live, named transactions owned by
//! one storage instance. A transaction buffers its writes and deletes until
//! commit; the registry maps each opaque handle to its buffered operations.

use vstd::prelude::*;

verus! {

/// An opaque, process-unique name for a live transaction: 128 random bits.
#[derive(Clone, Copy, Debug, PartialEq, Eq, Hash, Structural)]
pub struct TransactionHandle {
    pub hi: u64,
    pub lo: u64,
}

/// Relies on `uuid::Uuid::new_v4` for the handle's random bits; nothing is
/// promised of their values.
#[verifier::external_body]
fn fresh_handle_bits() -> (r: (u64, u64)) {
    let id = uuid::Uuid::new_v4();
    id.as_u64_pair()
}

/// One buffered operation of a transaction.
pub enum TxOp {
    /// Store these value bytes (already enveloped in encrypted mode) under
    /// the key.
    Put(Vec<u8>, Vec<u8>),
    /// Remove the key.
    Delete(Vec<u8>),
}

impl TxOp {
    /// The operation as key bytes and an optional value: `None` is a delete.
    pub open spec fn view_op(self) -> (Seq<u8>, Option<Seq<u8>>) {
        match self {
            TxOp::Put(k, v) => (k@, Some(v@)),
            TxOp::Delete(k) => (k@, None),
        }
    }
}

/// The operations of a buffer, abstracted.
pub open spec fn ops_view(ops: Seq<TxOp>) -> Seq<(Seq<u8>, Option<Seq<u8>>)> {
    ops.map_values(|op: TxOp| op.view_op())
}

/// Some row of the table names `h`.
pub open spec fn table_contains(
    t: Seq<(TransactionHandle, Seq<TxOp>)>,
    h: TransactionHandle,
) -> bool {
    exists|i: int| 0 <= i < t.len() && (#[trigger] t[i].0) == h
}

/// The row index of `h` (meaningful when present and handles are distinct).
pub open spec fn table_index(
    t: Seq<(TransactionHandle, Seq<TxOp>)>,
    h: TransactionHandle,
) -> int {
    choose|i: int| 0 <= i < t.len() && (#[trigger] t[i].0) == h
}

/// The map from live handles to their buffered operations.
pub open spec fn table_map(t: Seq<(TransactionHandle, Seq<TxOp>)>) -> Map<
    TransactionHandle,
    Seq<(Seq<u8>, Option<Seq<u8>>)>,
> {
    Map::new(
        |h: TransactionHandle| table_contains(t, h),
        |h: TransactionHandle| ops_view(t[table_index(t, h)].1),
    )
}

/// No two rows share a handle.
pub open spec fn table_distinct(t: Seq<(TransactionHandle, Seq<TxOp>)>) -> bool {
    forall|i: int, j: int|
        0 <= i < t.len() && 0 <= j < t.len() && i != j ==> (#[trigger] t[i].0) != (
        #[trigger] t[j].0)
}

/// The registry itself.
pub struct TransactionRegistry {
    pub rows: Vec<(TransactionHandle, Vec<TxOp>)>,
}

impl View for TransactionRegistry {
    type V = Map<TransactionHandle, Seq<(Seq<u8>, Option<Seq<u8>>)>>;

    open spec fn view(&self) -> Map<TransactionHandle, Seq<(Seq<u8>, Option<Seq<u8>>)>> {
        table_map(self.rep())
    }
}

impl TransactionRegistry {
    /// The rows, with each buffer abstracted to its operation list.
    pub open spec fn rep(self) -> Seq<(TransactionHandle, Seq<TxOp>)> {
        self.rows@.map_values(|row: (TransactionHandle, Vec<TxOp>)| (row.0, row.1@))
    }

    /// Well-formedness: one row per handle.
    pub open spec fn inv(self) -> bool {
        table_distinct(self.rep())
    }

    pub fn new() -> (registry: TransactionRegistry)
        ensures
            registry.inv(),
            registry@ =~= Map::<TransactionHandle, Seq<(Seq<u8>, Option<Seq<u8>>)>>::empty(),
    {
        let registry = TransactionRegistry { rows: Vec::new() };
        proof {
            assert(registry.rep().len() == 0);
            assert forall|h: TransactionHandle| !table_contains(registry.rep(), h) by {}
        }
        registry
    }

    /// The row index holding `h`, if any.
    fn find_row(&self, h: TransactionHandle) -> (r: Option<usize>)
        requires
            self.inv(),
        ensures
            match r {
                Some(i) => i < self.rep().len() && self.rep()[i as int].0 == h,
                None => !table_contains(self.rep(), h),
            },
    {
        let n = self.rows.len();
        let mut i: usize = 0;
        while i < n
            invariant
                n == self.rows@.len(),
                i <= n,
                forall|j: int| 0 <= j < i ==> (#[trigger] self.rep()[j].0) != h,
            decreases n - i,
        {
            if self.rows[i].0 == h {
                return Some(i);
            }
            i = i + 1;
        }
        None
    }

    /// Whether `h` names a live transaction.
    pub fn contains(&self, h: TransactionHandle) -> (r: bool)
        requires
            self.inv(),
        ensures
            r == self@.contains_key(h),
    {
        let found = self.find_row(h);
        proof {
            if found is Some {
                assert(table_contains(self.rep(), h));
            }
        }
        found.is_some()
    }

    /// Start a transaction: allocate a fresh random handle and an empty
    /// buffer for it. A handle already live (never observed in practice)
    /// has its buffer replaced.
    pub fn begin(&mut self) -> (h: TransactionHandle)
        requires
            old(self).inv(),
        ensures
            final(self).inv(),
            final(self)@ =~= old(self)@.insert(h, Seq::empty()),
    {
        let bits = fresh_handle_bits();
        let h = TransactionHandle { hi: bits.0, lo: bits.1 };
        let found = self.find_row(h);
        let ghost t0 = self.rep();
        match found {
            Some(i) => {
                self.rows.set(i, (h, Vec::new()));
                proof {
                    let t = self.rep();
                    assert(t =~= t0.update(i as int, (h, Seq::<TxOp>::empty())));
                    lemma_table_update(t0, i as int, Seq::<TxOp>::empty());
                    assert(ops_view(Seq::<TxOp>::empty()) =~= Seq::<
                        (Seq<u8>, Option<Seq<u8>>),
                    >::empty());
                }
            },
            None => {
                self.rows.push((h, Vec::new()));
                proof {
                    let t = self.rep();
                    assert(t =~= t0.push((h, Seq::<TxOp>::empty())));
                    lemma_table_push(t0, h, Seq::<TxOp>::empty());
                    assert(ops_view(Seq::<TxOp>::empty()) =~= Seq::<
                        (Seq<u8>, Option<Seq<u8>>),
                    >::empty());
                }
            },
        }
        h
    }

    /// Append one operation to the buffer of `h`; fails when `h` is not live.
    pub fn append_op(&mut self, h: TransactionHandle, op: TxOp) -> (r: Result<(), ()>)
        requires
            old(self).inv(),
        ensures
            final(self).inv(),
            r is Ok <==> old(self)@.contains_key(h),
            r is Ok ==> final(self)@ =~= old(self)@.insert(h, old(self)@[h].push(op.view_op())),
            r is Err ==> final(self)@ == old(self)@,
    {
        let found = self.find_row(h);
        let ghost t0 = self.rep();
        match found {
            Some(i) => {
                let ghost old_ops = t0[i as int].1;
                let row = self.rows.remove(i);
                let mut ops = row.1;
                ops.push(op);
                self.rows.insert(i, (h, ops));
                proof {
                    let t = self.rep();
                    assert(t =~= t0.update(i as int, (h, old_ops.push(op))));
                    lemma_table_update(t0, i as int, old_ops.push(op));
                    assert(table_index(t0, h) == i as int);
                    assert(ops_view(old_ops.push(op)) =~= ops_view(old_ops).push(op.view_op()));
                }
                Ok(())
            },
            None => {
                proof {
                    assert(!old(self)@.contains_key(h));
                }
                Err(())
            },
        }
    }

    /// Remove `h` from the table, handing its buffered operations back;
    /// fails when `h` is not live.
    pub fn remove(&mut self, h: TransactionHandle) -> (r: Result<Vec<TxOp>, ()>)
        requires
            old(self).inv(),
        ensures
            final(self).inv(),
            r is Ok <==> old(self)@.contains_key(h),
            r is Ok ==> ops_view(r->Ok_0@) == old(self)@[h] && final(self)@ =~= old(
                self,
            )@.remove(h),
            r is Err ==> final(self)@ == old(self)@,
    {
        let found = self.find_row(h);
        let ghost t0 = self.rep();
        match found {
            Some(i) => {
                let row = self.rows.remove(i);
                proof {
                    let t = self.rep();
                    assert(t =~= t0.remove(i as int));
                    lemma_table_remove(t0, i as int);
                    assert(table_index(t0, h) == i as int);
                }
                Ok(row.1)
            },
            None => {
                proof {
                    assert(!old(self)@.contains_key(h));
                }
                Err(())
            },
        }
    }
}

/// Replacing a row's buffer rewrites the map at its handle.
proof fn lemma_table_update(t: Seq<(TransactionHandle, Seq<TxOp>)>, i: int, ops: Seq<TxOp>)
    requires
        table_distinct(t),
        0 <= i < t.len(),
    ensures
        table_map(t.update(i, (t[i].0, ops))) =~= table_map(t).insert(t[i].0, ops_view(ops)),
        table_distinct(t.update(i, (t[i].0, ops))),
{
    let h = t[i].0;
    let u = t.update(i, (h, ops));
    assert forall|q: TransactionHandle| table_contains(u, q) implies table_map(t).insert(
        h,
        ops_view(ops),
    ).contains_key(q) by {
        let j = choose|j: int| 0 <= j < u.len() && (#[trigger] u[j].0) == q;
        assert(t[j].0 == q);
    }
    assert forall|q: TransactionHandle| table_map(t).insert(h, ops_view(ops)).contains_key(
        q,
    ) implies table_contains(u, q) by {
        if q == h {
            assert(u[i].0 == q);
        } else {
            let j = choose|j: int| 0 <= j < t.len() && (#[trigger] t[j].0) == q;
            assert(u[j].0 == q);
        }
    }
    assert forall|q: TransactionHandle| table_contains(u, q) implies table_map(u)[q] == table_map(
        t,
    ).insert(h, ops_view(ops))[q] by {
        let j = table_index(u, q);
        assert(0 <= j < u.len() && u[j].0 == q);
        if q == h {
            assert(j == i);
        } else {
            assert(j != i);
            assert(t[j].0 == q);
            assert(table_index(t, q) == j);
        }
    }
}

/// Adding a row with a fresh handle adds it to the map.
proof fn lemma_table_push(t: Seq<(TransactionHandle, Seq<TxOp>)>, h: TransactionHandle, ops: Seq<
    TxOp,
>)
    requires
        table_distinct(t),
        !table_contains(t, h),
    ensures
        table_map(t.push((h, ops))) =~= table_map(t).insert(h, ops_view(ops)),
        table_distinct(t.push((h, ops))),
{
    let u = t.push((h, ops));
    let n = t.len() as int;
    assert(forall|j: int| 0 <= j < n ==> #[trigger] u[j] == t[j]);
    assert(u[n] == (h, ops));
    assert forall|a: int, b: int|
        0 <= a < u.len() && 0 <= b < u.len() && a != b implies (#[trigger] u[a].0) != (
    #[trigger] u[b].0) by {
        if a == n {
            assert(u[b] == t[b]);
        } else if b == n {
            assert(u[a] == t[a]);
        }
    }
    assert forall|q: TransactionHandle| table_contains(u, q) implies table_map(t).insert(
        h,
        ops_view(ops),
    ).contains_key(q) by {
        let j = choose|j: int| 0 <= j < u.len() && (#[trigger] u[j].0) == q;
        if j < n {
            assert(t[j].0 == q);
        }
    }
    assert forall|q: TransactionHandle| table_map(t).insert(h, ops_view(ops)).contains_key(
        q,
    ) implies table_contains(u, q) by {
        if q == h {
            assert(u[n].0 == q);
        } else {
            let j = choose|j: int| 0 <= j < t.len() && (#[trigger] t[j].0) == q;
            assert(u[j].0 == q);
        }
    }
    assert forall|q: TransactionHandle| table_contains(u, q) implies table_map(u)[q] == table_map(
        t,
    ).insert(h, ops_view(ops))[q] by {
        let j = table_index(u, q);
        assert(0 <= j < u.len() && u[j].0 == q);
        if q == h {
            assert(j == n);
        } else {
            assert(j != n);
            assert(t[j].0 == q);
            assert(table_index(t, q) == j);
        }
    }
}

/// Removing a row removes its handle from the map.
proof fn lemma_table_remove(t: Seq<(TransactionHandle, Seq<TxOp>)>, i: int)
    requires
        table_distinct(t),
        0 <= i < t.len(),
    ensures
        table_map(t.remove(i)) =~= table_map(t).remove(t[i].0),
        table_distinct(t.remove(i)),
{
    let h = t[i].0;
    let u = t.remove(i);
    assert(forall|j: int| 0 <= j < i ==> #[trigger] u[j] == t[j]);
    assert(forall|j: int| i <= j < u.len() ==> #[trigger] u[j] == t[j + 1]);
    assert forall|q: TransactionHandle| table_contains(u, q) implies table_map(t).remove(
        h,
    ).contains_key(q) by {
        let j = choose|j: int| 0 <= j < u.len() && (#[trigger] u[j].0) == q;
        if j < i {
            assert(t[j].0 == q);
        } else {
            assert(t[j + 1].0 == q);
        }
    }
    assert forall|q: TransactionHandle| table_map(t).remove(h).contains_key(q) implies
        table_contains(u, q) by {
        let j = choose|j: int| 0 <= j < t.len() && (#[trigger] t[j].0) == q;
        assert(j != i);
        if j < i {
            assert(u[j].0 == q);
        } else {
            assert(u[j - 1].0 == q);
        }
    }
    assert forall|q: TransactionHandle| table_contains(u, q) implies table_map(u)[q] == table_map(
        t,
    ).remove(h)[q] by {
        let j = table_index(u, q);
        assert(0 <= j < u.len() && u[j].0 == q);
        if j < i {
            assert(t[j].0 == q);
            assert(table_index(t, q) == j);
        } else {
            assert(t[j + 1].0 == q);
            assert(table_index(t, q) == j + 1);
        }
    }
}

} // verus!
