//! The shared lock table: shared/exclusive locks keyed by block identity or
//! by a per-file end-of-file sentinel.
//!
//! An entry's value counts shared holders when positive; -1 marks one
//! exclusive holder; an absent key is unlocked. A request that conflicts
//! fails with [`DbError::LockAbort`] at once; an embedding program may retry
//! it until its deadline.

use vstd::prelude::*;
use crate::errors::DbError;
use crate::file::block_id::BlockId;

verus! {

/// What a lock is keyed by: one block, or the end of one file (used by
/// whole-file size and append operations).
#[derive(Debug)]
pub enum LockTableKey {
    BID(BlockId),
    DUMMY(u64),
}

impl LockTableKey {
    /// Whether two keys name the same lock.
    pub open spec fn spec_same(self, other: LockTableKey) -> bool {
        match (self, other) {
            (LockTableKey::BID(a), LockTableKey::BID(b)) => a.spec_same(b),
            (LockTableKey::DUMMY(a), LockTableKey::DUMMY(b)) => a == b,
            _ => false,
        }
    }
}

impl Clone for LockTableKey {
    fn clone(&self) -> (r: Self)
        ensures
            r == *self,
    {
        match self {
            LockTableKey::BID(b) => LockTableKey::BID(b.clone()),
            LockTableKey::DUMMY(n) => LockTableKey::DUMMY(*n),
        }
    }
}

impl PartialEq for LockTableKey {
    fn eq(&self, other: &Self) -> (r: bool) {
        match (self, other) {
            (LockTableKey::BID(a), LockTableKey::BID(b)) => a.eq(b),
            (LockTableKey::DUMMY(a), LockTableKey::DUMMY(b)) => a == b,
            _ => false,
        }
    }
}

impl Eq for LockTableKey {

}

impl vstd::std_specs::cmp::PartialEqSpecImpl for LockTableKey {
    open spec fn obeys_eq_spec() -> bool {
        true
    }

    open spec fn eq_spec(&self, other: &Self) -> bool {
        self.spec_same(*other)
    }
}

/// Two keys naming the same lock as a third name the same lock.
pub proof fn lemma_same_keys(a: LockTableKey, k: LockTableKey, k2: LockTableKey)
    requires
        a.spec_same(k),
        a.spec_same(k2),
    ensures
        k.spec_same(k2),
        k2.spec_same(k),
        k.spec_same(a),
{
}

/// The lock value the table holds for `k`; 0 when absent (unlocked).
pub open spec fn spec_locks_val(l: Seq<(LockTableKey, i32)>, k: LockTableKey) -> int
    decreases l.len(),
{
    if l.len() == 0 {
        0
    } else if l[0].0.spec_same(k) {
        l[0].1 as int
    } else {
        spec_locks_val(l.drop_first(), k)
    }
}

/// No two entries name the same lock.
pub open spec fn locks_unique(l: Seq<(LockTableKey, i32)>) -> bool {
    forall|i: int, j: int| 0 <= i < j < l.len() ==> !(#[trigger] l[i].0).spec_same(
        #[trigger] l[j].0,
    )
}

proof fn lemma_locks_first(l: Seq<(LockTableKey, i32)>, i: int, k: LockTableKey)
    requires
        0 <= i < l.len(),
        l[i].0.spec_same(k),
        forall|j: int| 0 <= j < i ==> !(#[trigger] l[j].0).spec_same(k),
    ensures
        spec_locks_val(l, k) == l[i].1 as int,
    decreases l.len(),
{
    if i > 0 {
        assert(forall|j: int| 0 <= j < l.drop_first().len() ==> l.drop_first()[j] == l[j + 1]);
        lemma_locks_first(l.drop_first(), i - 1, k);
    }
}

proof fn lemma_locks_absent(l: Seq<(LockTableKey, i32)>, k: LockTableKey)
    requires
        forall|i: int| 0 <= i < l.len() ==> !(#[trigger] l[i].0).spec_same(k),
    ensures
        spec_locks_val(l, k) == 0,
    decreases l.len(),
{
    if l.len() > 0 {
        assert(forall|i: int| 0 <= i < l.drop_first().len() ==> l.drop_first()[i] == l[i + 1]);
        lemma_locks_absent(l.drop_first(), k);
    }
}

proof fn lemma_locks_update(l: Seq<(LockTableKey, i32)>, i: int, v: (LockTableKey, i32),
    k: LockTableKey)
    requires
        locks_unique(l),
        0 <= i < l.len(),
        v.0 == l[i].0,
    ensures
        l[i].0.spec_same(k) ==> spec_locks_val(l.update(i, v), k) == v.1 as int,
        !l[i].0.spec_same(k) ==> spec_locks_val(l.update(i, v), k) == spec_locks_val(l, k),
    decreases l.len(),
{
    let lu = l.update(i, v);
    if i == 0 {
        assert(lu[0] == v);
        assert(lu.drop_first() =~= l.drop_first());
    } else {
        assert(lu[0] == l[0]);
        assert(lu.drop_first() =~= l.drop_first().update(i - 1, v));
        assert(locks_unique(l.drop_first())) by {
            assert(forall|a: int, b: int| 0 <= a < b < l.drop_first().len()
                ==> l.drop_first()[a] == l[a + 1] && l.drop_first()[b] == l[b + 1]);
        }
        assert(l.drop_first()[i - 1] == l[i]);
        if l[0].0.spec_same(k) && l[i].0.spec_same(k) {
            lemma_same_keys(l[0].0, k, k);
            assert(l[i].0.spec_same(k));
            assert(k.spec_same(l[i].0)) by {
                lemma_same_keys(l[i].0, k, k);
            }
            lemma_same_keys(l[0].0, k, k);
            assert(l[0].0.spec_same(l[i].0)) by {
                lemma_same_keys2(l[0].0, l[i].0, k);
            }
            assert(false);
        }
        lemma_locks_update(l.drop_first(), i - 1, v, k);
    }
}

/// Keys that both name the lock `k` name each other's lock.
pub proof fn lemma_same_keys2(a: LockTableKey, b: LockTableKey, k: LockTableKey)
    requires
        a.spec_same(k),
        b.spec_same(k),
    ensures
        a.spec_same(b),
        b.spec_same(a),
{
}

proof fn lemma_locks_push(l: Seq<(LockTableKey, i32)>, v: (LockTableKey, i32), k: LockTableKey)
    requires
        forall|i: int| 0 <= i < l.len() ==> !(#[trigger] l[i].0).spec_same(v.0),
    ensures
        v.0.spec_same(k) ==> spec_locks_val(l.push(v), k) == v.1 as int,
        !v.0.spec_same(k) ==> spec_locks_val(l.push(v), k) == spec_locks_val(l, k),
    decreases l.len(),
{
    let lp = l.push(v);
    if l.len() == 0 {
        assert(lp[0] == v);
        assert(lp.drop_first() =~= Seq::<(LockTableKey, i32)>::empty());
        assert(spec_locks_val(lp.drop_first(), k) == 0);
        assert(spec_locks_val(l, k) == 0);
    } else {
        assert(lp[0] == l[0]);
        assert(lp.drop_first() =~= l.drop_first().push(v));
        assert(forall|i: int| 0 <= i < l.drop_first().len() ==> l.drop_first()[i] == l[i + 1]);
        lemma_locks_push(l.drop_first(), v, k);
        if v.0.spec_same(k) && l[0].0.spec_same(k) {
            assert(false) by {
                assert(!l[0].0.spec_same(v.0));
            }
        }
    }
}

proof fn lemma_locks_remove(l: Seq<(LockTableKey, i32)>, i: int, k: LockTableKey)
    requires
        locks_unique(l),
        0 <= i < l.len(),
    ensures
        l[i].0.spec_same(k) ==> spec_locks_val(l.remove(i), k) == 0,
        !l[i].0.spec_same(k) ==> spec_locks_val(l.remove(i), k) == spec_locks_val(l, k),
    decreases l.len(),
{
    let lr = l.remove(i);
    if i == 0 {
        assert(lr =~= l.drop_first());
        if l[0].0.spec_same(k) {
            assert forall|j: int| 0 <= j < lr.len() implies !(#[trigger] lr[j].0).spec_same(
                k,
            ) by {
                assert(lr[j] == l[j + 1]);
                if lr[j].0.spec_same(k) {
                    assert(!l[0].0.spec_same(l[j + 1].0));
                }
            }
            lemma_locks_absent(lr, k);
        }
    } else {
        assert(lr[0] == l[0]);
        assert(lr.drop_first() =~= l.drop_first().remove(i - 1));
        assert(locks_unique(l.drop_first())) by {
            assert(forall|a: int, b: int| 0 <= a < b < l.drop_first().len()
                ==> l.drop_first()[a] == l[a + 1] && l.drop_first()[b] == l[b + 1]);
        }
        assert(l.drop_first()[i - 1] == l[i]);
        lemma_locks_remove(l.drop_first(), i - 1, k);
    }
}

proof fn lemma_locks_val_same(l: Seq<(LockTableKey, i32)>, k1: LockTableKey, k2: LockTableKey)
    requires
        k1.spec_same(k2),
        k2.spec_same(k1),
    ensures
        spec_locks_val(l, k1) == spec_locks_val(l, k2),
    decreases l.len(),
{
    if l.len() > 0 {
        if l[0].0.spec_same(k1) {
            lemma_same_keys(l[0].0, k1, k1);
            assert(l[0].0.spec_same(k2));
        }
        if l[0].0.spec_same(k2) {
            assert(l[0].0.spec_same(k1));
        }
        lemma_locks_val_same(l.drop_first(), k1, k2);
    }
}

/// The process-wide lock table, shared by every transaction's concurrency
/// manager.
pub struct LockTable {
    locks: Vec<(LockTableKey, i32)>,
}

impl LockTable {
    /// The lock value the table holds for `k`: the count of shared holders
    /// when positive, -1 for one exclusive holder, 0 when unlocked.
    pub closed spec fn spec_lock_val(self, k: LockTableKey) -> int {
        spec_locks_val(self.locks@, k)
    }

    /// Keys are unique and every entry is either a shared count or the one
    /// exclusive marker.
    pub closed spec fn wf(self) -> bool {
        &&& locks_unique(self.locks@)
        &&& forall|i: int| 0 <= i < self.locks@.len() ==> ((#[trigger] self.locks@[i]).1 as int
            == -1 || self.locks@[i].1 as int >= 1)
    }

    /// Keys that name the same lock read the same value.
    pub proof fn lemma_val_same(self, k1: LockTableKey, k2: LockTableKey)
        requires
            k1.spec_same(k2),
            k2.spec_same(k1),
        ensures
            self.spec_lock_val(k1) == self.spec_lock_val(k2),
    {
        lemma_locks_val_same(self.locks@, k1, k2);
    }

    /// A lock value is never below the exclusive marker.
    pub proof fn lemma_val_range(self, k: LockTableKey)
        requires
            self.wf(),
        ensures
            self.spec_lock_val(k) == -1 || self.spec_lock_val(k) >= 0,
    {
        Self::lemma_vals_range(self.locks@, k);
    }

    proof fn lemma_vals_range(l: Seq<(LockTableKey, i32)>, k: LockTableKey)
        requires
            forall|i: int| 0 <= i < l.len() ==> ((#[trigger] l[i]).1 as int == -1 || l[i].1 as int
                >= 1),
        ensures
            spec_locks_val(l, k) == -1 || spec_locks_val(l, k) >= 0,
        decreases l.len(),
    {
        if l.len() > 0 {
            assert(forall|i: int| 0 <= i < l.drop_first().len() ==> l.drop_first()[i] == l[i
                + 1]);
            Self::lemma_vals_range(l.drop_first(), k);
        }
    }

    pub fn new() -> (r: Self)
        ensures
            r.wf(),
            forall|k: LockTableKey| #[trigger] r.spec_lock_val(k) == 0,
    {
        let r = Self { locks: Vec::new() };
        proof {
            assert forall|k: LockTableKey| #[trigger] r.spec_lock_val(k) == 0 by {
                lemma_locks_absent(r.locks@, k);
            }
        }
        r
    }

    /// The index of the entry for `key`, if one exists.
    fn find_key(&self, key: &LockTableKey) -> (r: Option<usize>)
        ensures
            match r {
                Some(i) => i < self.locks@.len() && self.locks@[i as int].0.spec_same(*key)
                    && key.spec_same(self.locks@[i as int].0) && (forall|j: int| 0 <= j < i
                    ==> !(#[trigger] self.locks@[j].0).spec_same(*key)),
                None => forall|i: int| 0 <= i < self.locks@.len() ==> !(
                #[trigger] self.locks@[i].0).spec_same(*key),
            },
    {
        let n = self.locks.len();
        let mut i: usize = 0;
        while i < n
            invariant
                i <= n,
                n == self.locks@.len(),
                forall|j: int| 0 <= j < i ==> !(#[trigger] self.locks@[j].0).spec_same(*key),
            decreases n - i,
        {
            if self.locks[i].0.eq(key) {
                proof {
                    assert(self.locks@[i as int].0.spec_same(*key));
                }
                return Some(i);
            }
            i = i + 1;
        }
        None
    }

    /// Takes or strengthens a shared lock: succeeds exactly when no
    /// exclusive lock is held and the holder count can still grow.
    pub fn s_lock(&mut self, key: &LockTableKey) -> (r: Result<(), DbError>)
        requires
            old(self).wf(),
        ensures
            final(self).wf(),
            (r is Ok) <==> (0 <= old(self).spec_lock_val(*key) < i32::MAX),
            r is Ok ==> final(self).spec_lock_val(*key) == old(self).spec_lock_val(*key) + 1,
            r is Err ==> r == Err::<(), DbError>(DbError::LockAbort) && *final(self) == *old(self),
            forall|k2: LockTableKey| !k2.spec_same(*key) && !key.spec_same(k2)
                ==> #[trigger] final(self).spec_lock_val(k2) == old(self).spec_lock_val(k2),
    {
        let ghost pre = self.locks@;
        match self.find_key(key) {
            Some(i) => {
                proof {
                    lemma_locks_first(pre, i as int, *key);
                }
                let v = self.locks[i].1;
                if v < 0 || v == i32::MAX {
                    return Err(DbError::LockAbort);
                }
                let k2 = self.locks[i].0.clone();
                let ghost newentry = (k2, (v + 1) as i32);
                self.locks.remove(i);
                let ghost mid = self.locks@;
                self.locks.insert(i, (k2, v + 1));
                proof {
                    assert(self.locks@ =~= pre.update(i as int, self.locks@[i as int]));
                    assert(self.locks@[i as int].0 == pre[i as int].0);
                    lemma_locks_update(pre, i as int, self.locks@[i as int], *key);
                    assert forall|k3: LockTableKey| !k3.spec_same(*key) && !key.spec_same(k3)
                        implies #[trigger] spec_locks_val(self.locks@, k3) == spec_locks_val(
                        pre,
                        k3,
                    ) by {
                        lemma_locks_update(pre, i as int, self.locks@[i as int], k3);
                        if pre[i as int].0.spec_same(k3) {
                            lemma_same_keys(pre[i as int].0, *key, k3);
                        }
                    }
                    assert(locks_unique(self.locks@));
                }
                Ok(())
            },
            None => {
                proof {
                    lemma_locks_absent(pre, *key);
                }
                let kc = key.clone();
                self.locks.push((kc, 1));
                proof {
                    assert(self.locks@[pre.len() as int].0 == *key);
                    lemma_locks_push(pre, self.locks@[pre.len() as int], *key);
                    assert(key.spec_same(*key));
                    assert forall|k3: LockTableKey| !k3.spec_same(*key) && !key.spec_same(k3)
                        implies #[trigger] spec_locks_val(self.locks@, k3) == spec_locks_val(
                        pre,
                        k3,
                    ) by {
                        lemma_locks_push(pre, self.locks@[pre.len() as int], k3);
                    }
                    assert(forall|a: int| 0 <= a < pre.len() ==> self.locks@[a] == pre[a]);
                }
                Ok(())
            },
        }
    }

    /// Takes the exclusive lock: succeeds exactly when at most the caller's
    /// own shared lock is held (the conservative upgrade discipline).
    pub fn x_lock(&mut self, key: &LockTableKey) -> (r: Result<(), DbError>)
        requires
            old(self).wf(),
        ensures
            final(self).wf(),
            (r is Ok) <==> (old(self).spec_lock_val(*key) < 2),
            r is Ok ==> final(self).spec_lock_val(*key) == -1,
            r is Err ==> r == Err::<(), DbError>(DbError::LockAbort) && *final(self) == *old(self),
            forall|k2: LockTableKey| !k2.spec_same(*key) && !key.spec_same(k2)
                ==> #[trigger] final(self).spec_lock_val(k2) == old(self).spec_lock_val(k2),
    {
        let ghost pre = self.locks@;
        match self.find_key(key) {
            Some(i) => {
                proof {
                    lemma_locks_first(pre, i as int, *key);
                }
                let v = self.locks[i].1;
                if v > 1 {
                    return Err(DbError::LockAbort);
                }
                let k2 = self.locks[i].0.clone();
                self.locks.remove(i);
                self.locks.insert(i, (k2, -1));
                proof {
                    assert(self.locks@ =~= pre.update(i as int, self.locks@[i as int]));
                    assert(self.locks@[i as int].0 == pre[i as int].0);
                    lemma_locks_update(pre, i as int, self.locks@[i as int], *key);
                    assert forall|k3: LockTableKey| !k3.spec_same(*key) && !key.spec_same(k3)
                        implies #[trigger] spec_locks_val(self.locks@, k3) == spec_locks_val(
                        pre,
                        k3,
                    ) by {
                        lemma_locks_update(pre, i as int, self.locks@[i as int], k3);
                        if pre[i as int].0.spec_same(k3) {
                            lemma_same_keys(pre[i as int].0, *key, k3);
                        }
                    }
                    assert(locks_unique(self.locks@));
                }
                Ok(())
            },
            None => {
                proof {
                    lemma_locks_absent(pre, *key);
                }
                let kc = key.clone();
                self.locks.push((kc, -1));
                proof {
                    assert(self.locks@[pre.len() as int].0 == *key);
                    lemma_locks_push(pre, self.locks@[pre.len() as int], *key);
                    assert(key.spec_same(*key));
                    assert forall|k3: LockTableKey| !k3.spec_same(*key) && !key.spec_same(k3)
                        implies #[trigger] spec_locks_val(self.locks@, k3) == spec_locks_val(
                        pre,
                        k3,
                    ) by {
                        lemma_locks_push(pre, self.locks@[pre.len() as int], k3);
                    }
                    assert(forall|a: int| 0 <= a < pre.len() ==> self.locks@[a] == pre[a]);
                }
                Ok(())
            },
        }
    }

    /// Gives one hold back: a shared count above one is decremented, any
    /// other entry is removed (the key becomes unlocked).
    pub fn unlock(&mut self, key: &LockTableKey) -> (r: Result<(), DbError>)
        requires
            old(self).wf(),
        ensures
            final(self).wf(),
            r == Ok::<(), DbError>(()),
            old(self).spec_lock_val(*key) > 1 ==> final(self).spec_lock_val(*key) == old(self).spec_lock_val(*key) - 1,
            old(self).spec_lock_val(*key) <= 1 ==> final(self).spec_lock_val(*key) == 0,
            forall|k2: LockTableKey| !k2.spec_same(*key) && !key.spec_same(k2)
                ==> #[trigger] final(self).spec_lock_val(k2) == old(self).spec_lock_val(k2),
    {
        let ghost pre = self.locks@;
        match self.find_key(key) {
            Some(i) => {
                proof {
                    lemma_locks_first(pre, i as int, *key);
                }
                let v = self.locks[i].1;
                if v > 1 {
                    let k2 = self.locks[i].0.clone();
                    self.locks.remove(i);
                    self.locks.insert(i, (k2, v - 1));
                    proof {
                        assert(self.locks@ =~= pre.update(i as int, self.locks@[i as int]));
                        assert(self.locks@[i as int].0 == pre[i as int].0);
                        lemma_locks_update(pre, i as int, self.locks@[i as int], *key);
                        assert forall|k3: LockTableKey| !k3.spec_same(*key) && !key.spec_same(k3)
                            implies #[trigger] spec_locks_val(self.locks@, k3)
                            == spec_locks_val(pre, k3) by {
                            lemma_locks_update(pre, i as int, self.locks@[i as int], k3);
                            if pre[i as int].0.spec_same(k3) {
                                lemma_same_keys(pre[i as int].0, *key, k3);
                            }
                        }
                        assert(locks_unique(self.locks@));
                    }
                } else {
                    self.locks.remove(i);
                    proof {
                        assert(self.locks@ =~= pre.remove(i as int));
                        lemma_locks_remove(pre, i as int, *key);
                        assert forall|k3: LockTableKey| !k3.spec_same(*key) && !key.spec_same(k3)
                            implies #[trigger] spec_locks_val(self.locks@, k3)
                            == spec_locks_val(pre, k3) by {
                            lemma_locks_remove(pre, i as int, k3);
                            if pre[i as int].0.spec_same(k3) {
                                lemma_same_keys(pre[i as int].0, *key, k3);
                            }
                        }
                        assert(locks_unique(self.locks@)) by {
                            assert(forall|a: int| 0 <= a < self.locks@.len()
                                ==> self.locks@[a] == pre.remove(i as int)[a]);
                        }
                    }
                }
                Ok(())
            },
            None => {
                proof {
                    lemma_locks_absent(pre, *key);
                }
                Ok(())
            },
        }
    }
}

} // verus!
