//! A secondary index: entries that map a `u64` secondary key to the primary
//! key of a row, in ascending key order. Entries with equal keys stay in the
//! order in which they were written. The index holds no row bytes.

use vstd::prelude::*;

verus! {

/// One entry of a secondary index.
#[derive(PartialEq, Eq, Structural, Debug, Clone, Copy)]
pub struct SecondaryEntry {
    pub key: u64,
    pub primary: u64,
    pub payer: u64,
}

/// The entries of one secondary slot of a table.
pub struct SecondaryTableIndex {
    entries: Vec<SecondaryEntry>,
}

impl View for SecondaryTableIndex {
    type V = Seq<SecondaryEntry>;

    closed spec fn view(&self) -> Seq<SecondaryEntry> {
        self.entries@
    }
}

/// Keys ascend, and no two entries point at one primary key.
pub open spec fn secondary_wf(s: Seq<SecondaryEntry>) -> bool {
    &&& forall|i: int, j: int| 0 <= i < j < s.len() ==> s[i].key <= s[j].key
    &&& forall|i: int, j: int| 0 <= i < j < s.len() ==> s[i].primary != s[j].primary
}

/// Whether some entry points at `pk`.
pub open spec fn points_at(s: Seq<SecondaryEntry>, pk: u64) -> bool {
    exists|i: int| 0 <= i < s.len() && #[trigger] s[i].primary == pk
}

/// The secondary key of the entry that points at `pk`, if any.
pub open spec fn resolve(s: Seq<SecondaryEntry>, pk: u64) -> Option<u64> {
    if points_at(s, pk) {
        Some(s[choose|i: int| 0 <= i < s.len() && #[trigger] s[i].primary == pk].key)
    } else {
        None
    }
}

/// The position at which an entry with `key` is written: after every entry
/// whose key is not greater.
pub open spec fn insert_position(s: Seq<SecondaryEntry>, key: u64, p: int) -> bool {
    &&& 0 <= p <= s.len()
    &&& forall|i: int| 0 <= i < p ==> #[trigger] s[i].key <= key
    &&& forall|i: int| p <= i < s.len() ==> #[trigger] s[i].key > key
}

/// `post` is `pre` with an entry linking `key` to `pk`, billed to `payer`,
/// written after every entry whose key is not greater.
pub open spec fn linked(
    pre: Seq<SecondaryEntry>,
    post: Seq<SecondaryEntry>,
    key: u64,
    pk: u64,
    payer: u64,
) -> bool {
    exists|p: int|
        insert_position(pre, key, p) && post == pre.insert(
            p,
            SecondaryEntry { key, primary: pk, payer },
        )
}

/// `post` is `pre` without the entry that pointed at `pk`, if there was one.
pub open spec fn unlinked(pre: Seq<SecondaryEntry>, post: Seq<SecondaryEntry>, pk: u64) -> bool {
    ||| !points_at(pre, pk) && post == pre
    ||| exists|i: int| 0 <= i < pre.len() && pre[i].primary == pk && post == pre.remove(i)
}

/// `post` is `pre` with `pk` linked to `key` in place of whatever it was
/// linked to before.
pub open spec fn relinked(
    pre: Seq<SecondaryEntry>,
    post: Seq<SecondaryEntry>,
    key: u64,
    pk: u64,
    payer: u64,
) -> bool {
    exists|rest: Seq<SecondaryEntry>| #[trigger]
        unlinked(pre, rest, pk) && linked(rest, post, key, pk, payer)
}

/// In a well-formed index, the entry at `i` is the one that resolves its primary key.
pub proof fn lemma_resolve_at(s: Seq<SecondaryEntry>, i: int)
    requires
        secondary_wf(s),
        0 <= i < s.len(),
    ensures
        points_at(s, s[i].primary),
        resolve(s, s[i].primary) == Some(s[i].key),
{
    let pk = s[i].primary;
    assert(s[i].primary == pk);
    let j = choose|j: int| 0 <= j < s.len() && #[trigger] s[j].primary == pk;
    if j != i {
        if j < i {
            assert(s[j].primary != s[i].primary);
        } else {
            assert(s[i].primary != s[j].primary);
        }
    }
}

/// Inserting an entry for a primary key that no entry points at changes only
/// what that key resolves to.
pub proof fn lemma_resolve_insert(s: Seq<SecondaryEntry>, p: int, e: SecondaryEntry)
    requires
        secondary_wf(s),
        insert_position(s, e.key, p),
        !points_at(s, e.primary),
    ensures
        secondary_wf(s.insert(p, e)),
        resolve(s.insert(p, e), e.primary) == Some(e.key),
        forall|pk: u64| pk != e.primary ==> resolve(s.insert(p, e), pk) == resolve(s, pk),
{
    let t = s.insert(p, e);
    assert forall|i: int, j: int| 0 <= i < j < t.len() implies t[i].primary != t[j].primary by {
        if i == p {
            assert(s[j - 1].primary == t[j].primary);
        } else if j == p {
            assert(s[i].primary == t[i].primary);
        }
    }
    assert(t[p] == e);
    lemma_resolve_at(t, p);
    assert forall|pk: u64| pk != e.primary implies resolve(t, pk) == resolve(s, pk) by {
        if points_at(s, pk) {
            let i = choose|i: int| 0 <= i < s.len() && #[trigger] s[i].primary == pk;
            lemma_resolve_at(s, i);
            let k = if i < p { i } else { i + 1 };
            assert(t[k] == s[i]);
            lemma_resolve_at(t, k);
        } else if points_at(t, pk) {
            let k = choose|k: int| 0 <= k < t.len() && #[trigger] t[k].primary == pk;
            let i = if k < p { k } else { k - 1 };
            assert(s[i] == t[k]);
        }
    }
}

/// Removing the entry at `i` unlinks its primary key and nothing else.
pub proof fn lemma_resolve_remove(s: Seq<SecondaryEntry>, i: int)
    requires
        secondary_wf(s),
        0 <= i < s.len(),
    ensures
        secondary_wf(s.remove(i)),
        resolve(s.remove(i), s[i].primary) is None,
        forall|pk: u64| pk != s[i].primary ==> resolve(s.remove(i), pk) == resolve(s, pk),
{
    let t = s.remove(i);
    assert forall|a: int, b: int| 0 <= a < b < t.len() implies t[a].key <= t[b].key && t[a].primary
        != t[b].primary by {
        let a0 = if a < i { a } else { a + 1 };
        let b0 = if b < i { b } else { b + 1 };
        assert(t[a] == s[a0] && t[b] == s[b0]);
    }
    if points_at(t, s[i].primary) {
        let k = choose|k: int| 0 <= k < t.len() && #[trigger] t[k].primary == s[i].primary;
        let k0 = if k < i { k } else { k + 1 };
        assert(t[k] == s[k0]);
        if k0 < i {
            assert(s[k0].primary != s[i].primary);
        } else {
            assert(s[i].primary != s[k0].primary);
        }
    }
    assert forall|pk: u64| pk != s[i].primary implies resolve(t, pk) == resolve(s, pk) by {
        if points_at(s, pk) {
            let j = choose|j: int| 0 <= j < s.len() && #[trigger] s[j].primary == pk;
            lemma_resolve_at(s, j);
            assert(j != i);
            let k = if j < i { j } else { j - 1 };
            assert(t[k] == s[j]);
            lemma_resolve_at(t, k);
        } else if points_at(t, pk) {
            let k = choose|k: int| 0 <= k < t.len() && #[trigger] t[k].primary == pk;
            let k0 = if k < i { k } else { k + 1 };
            assert(s[k0] == t[k]);
        }
    }
}

impl SecondaryTableIndex {
    pub open spec fn wf(&self) -> bool {
        secondary_wf(self@)
    }

    pub fn new() -> (r: Self)
        ensures
            r.wf(),
            r@ == Seq::<SecondaryEntry>::empty(),
    {
        SecondaryTableIndex { entries: Vec::new() }
    }

    pub fn len(&self) -> (r: usize)
        ensures
            r == self@.len(),
    {
        self.entries.len()
    }

    /// The entry at a position in key order.
    pub fn entry(&self, i: usize) -> (r: SecondaryEntry)
        requires
            i < self@.len(),
        ensures
            r == self@[i as int],
    {
        self.entries[i]
    }

    /// Where the entry that points at `pk` stands, if there is one.
    fn position_of(&self, pk: u64) -> (r: Option<usize>)
        requires
            self.wf(),
        ensures
            match r {
                Some(i) => i < self@.len() && self@[i as int].primary == pk,
                None => !points_at(self@, pk),
            },
    {
        let mut i: usize = 0;
        while i < self.entries.len()
            invariant
                i <= self.entries@.len(),
                forall|j: int| 0 <= j < i ==> #[trigger] self.entries@[j].primary != pk,
            decreases self.entries.len() - i,
        {
            if self.entries[i].primary == pk {
                return Some(i);
            }
            i = i + 1;
        }
        None
    }

    /// The secondary key of the entry that points at primary key `pk`.
    pub fn find_primary(&self, pk: u64) -> (r: Option<u64>)
        requires
            self.wf(),
        ensures
            r == resolve(self@, pk),
    {
        match self.position_of(pk) {
            Some(i) => {
                proof {
                    lemma_resolve_at(self@, i as int);
                }
                Some(self.entries[i].key)
            },
            None => None,
        }
    }

    /// The first entry, in key order, whose key is at least `key`.
    pub fn lower_bound(&self, key: u64) -> (r: Option<SecondaryEntry>)
        requires
            self.wf(),
        ensures
            match r {
                Some(e) => exists|i: int|
                    0 <= i < self@.len() && self@[i] == e && e.key >= key && forall|j: int|
                        0 <= j < i ==> #[trigger] self@[j].key < key,
                None => forall|j: int| 0 <= j < self@.len() ==> #[trigger] self@[j].key < key,
            },
    {
        let mut i: usize = 0;
        while i < self.entries.len()
            invariant
                i <= self.entries@.len(),
                forall|j: int| 0 <= j < i ==> #[trigger] self.entries@[j].key < key,
            decreases self.entries.len() - i,
        {
            if self.entries[i].key >= key {
                assert(self@[i as int] == self.entries@[i as int]);
                assert(forall|j: int| 0 <= j < i ==> #[trigger] self@[j] == self.entries@[j]);
                return Some(self.entries[i]);
            }
            i = i + 1;
        }
        None
    }

    /// The first entry, in key order, whose key is greater than `key`.
    pub fn upper_bound(&self, key: u64) -> (r: Option<SecondaryEntry>)
        requires
            self.wf(),
        ensures
            match r {
                Some(e) => exists|i: int|
                    0 <= i < self@.len() && self@[i] == e && e.key > key && forall|j: int|
                        0 <= j < i ==> #[trigger] self@[j].key <= key,
                None => forall|j: int| 0 <= j < self@.len() ==> #[trigger] self@[j].key <= key,
            },
    {
        let mut i: usize = 0;
        while i < self.entries.len()
            invariant
                i <= self.entries@.len(),
                forall|j: int| 0 <= j < i ==> #[trigger] self.entries@[j].key <= key,
            decreases self.entries.len() - i,
        {
            if self.entries[i].key > key {
                assert(self@[i as int] == self.entries@[i as int]);
                assert(forall|j: int| 0 <= j < i ==> #[trigger] self@[j] == self.entries@[j]);
                return Some(self.entries[i]);
            }
            i = i + 1;
        }
        None
    }

    /// The primary key of the first entry with exactly `key`.
    pub fn find(&self, key: u64) -> (r: Option<u64>)
        requires
            self.wf(),
        ensures
            match r {
                Some(pk) => exists|i: int|
                    0 <= i < self@.len() && self@[i].key == key && self@[i].primary == pk
                        && forall|j: int| 0 <= j < i ==> #[trigger] self@[j].key < key,
                None => forall|j: int| 0 <= j < self@.len() ==> #[trigger] self@[j].key != key,
            },
    {
        match self.lower_bound(key) {
            Some(e) => {
                if e.key == key {
                    Some(e.primary)
                } else {
                    proof {
                        let i = choose|i: int|
                            0 <= i < self@.len() && self@[i] == e && e.key >= key && forall|j: int|
                                0 <= j < i ==> #[trigger] self@[j].key < key;
                        assert forall|j: int| 0 <= j < self@.len() implies #[trigger] self@[j].key
                            != key by {
                            if j > i {
                                assert(self@[i].key <= self@[j].key);
                            }
                        }
                    }
                    None
                }
            },
            None => None,
        }
    }

    /// Writes an entry after every entry whose key is not greater.
    fn insert_sorted(&mut self, e: SecondaryEntry)
        requires
            old(self).wf(),
            !points_at(old(self)@, e.primary),
        ensures
            final(self).wf(),
            exists|p: int|
                insert_position(old(self)@, e.key, p) && final(self)@ == old(self)@.insert(p, e),
            resolve(final(self)@, e.primary) == Some(e.key),
            forall|pk: u64| pk != e.primary ==> resolve(final(self)@, pk) == resolve(old(self)@, pk),
    {
        let mut p: usize = 0;
        while p < self.entries.len() && self.entries[p].key <= e.key
            invariant
                p <= self.entries@.len(),
                forall|j: int| 0 <= j < p ==> #[trigger] self.entries@[j].key <= e.key,
            decreases self.entries.len() - p,
        {
            p = p + 1;
        }
        proof {
            assert forall|j: int| p <= j < self.entries@.len() implies #[trigger] self.entries@[j].key
                > e.key by {
                assert(self.entries@[p as int].key <= self.entries@[j].key);
            }
            lemma_resolve_insert(self.entries@, p as int, e);
        }
        self.entries.insert(p, e);
    }

    /// Adds an entry linking `key` to primary key `pk`; fails where an entry
    /// already points at `pk`.
    pub fn store(&mut self, payer: u64, key: u64, pk: u64) -> (r: Result<(), crate::row::WriteError>)
        requires
            old(self).wf(),
        ensures
            final(self).wf(),
            match r {
                Ok(()) => !points_at(old(self)@, pk) && linked(old(self)@, final(self)@, key, pk, payer),
                Err(e) => e == crate::row::WriteError::KeyExists && points_at(old(self)@, pk)
                    && final(self)@ == old(self)@,
            },
            r is Ok ==> resolve(final(self)@, pk) == Some(key),
            forall|q: u64| q != pk ==> resolve(final(self)@, q) == resolve(old(self)@, q),
    {
        if self.position_of(pk).is_some() {
            return Err(crate::row::WriteError::KeyExists);
        }
        self.insert_sorted(SecondaryEntry { key, primary: pk, payer });
        Ok(())
    }

    /// Removes the entry that points at `pk`, if there is one.
    pub fn erase(&mut self, pk: u64) -> (r: Option<u64>)
        requires
            old(self).wf(),
        ensures
            final(self).wf(),
            r == resolve(old(self)@, pk),
            resolve(final(self)@, pk) is None,
            forall|q: u64| q != pk ==> resolve(final(self)@, q) == resolve(old(self)@, q),
            unlinked(old(self)@, final(self)@, pk),
            r is None ==> final(self)@ == old(self)@,
            r is Some ==> exists|i: int|
                0 <= i < old(self)@.len() && old(self)@[i].primary == pk && final(self)@ == old(
                    self,
                )@.remove(i),
    {
        match self.position_of(pk) {
            Some(i) => {
                proof {
                    lemma_resolve_at(self@, i as int);
                    lemma_resolve_remove(self@, i as int);
                }
                let e = self.entries.remove(i);
                Some(e.key)
            },
            None => None,
        }
    }

    /// Links `pk` to `key`, replacing whatever key `pk` was linked to before.
    /// The entry is written after every entry whose key is not greater.
    pub fn upsert(&mut self, payer: u64, key: u64, pk: u64)
        requires
            old(self).wf(),
        ensures
            final(self).wf(),
            resolve(final(self)@, pk) == Some(key),
            forall|q: u64| q != pk ==> resolve(final(self)@, q) == resolve(old(self)@, q),
            relinked(old(self)@, final(self)@, key, pk, payer),
    {
        let ghost start = self@;
        let removed = self.erase(pk);
        let ghost rest = self@;
        proof {
            if removed is None {
                assert(!points_at(start, pk));
            }
        }
        self.insert_sorted(SecondaryEntry { key, primary: pk, payer });
        proof {
            assert(unlinked(start, rest, pk) && linked(rest, self@, key, pk, payer));
        }
    }
}

} // verus!
