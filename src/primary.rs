//! The primary index of a table: rows keyed by a unique `u64`, kept in
//! ascending key order, with one secondary index per slot that rows fill.
//!
//! Writes go to the row bytes first and then to every secondary slot, so that
//! after each successful `emplace`, `modify` or `erase` the secondary entries
//! point exactly at the slot values of the rows now stored.
//!
//! Every way a write can fail (a taken key, an encoding too large for memory)
//! is checked before anything is written, and the secondary writes that
//! follow are proved not to fail; so no operation stops halfway, and no row
//! is ever left without its secondary entries, or an entry without its row.

use crate::row::{decode_row, encoded_len, encode_row, lemma_decode_encode, ReadError, Row, RowModel, WriteError};
use crate::secondary::{
    linked, points_at, relinked, resolve, secondary_wf, unlinked, SecondaryEntry,
    SecondaryTableIndex,
};
use vstd::prelude::*;

verus! {

/// The bytes of one stored row, with the key it is stored under and the
/// account billed for it.
pub struct PrimaryEntry {
    pub key: u64,
    pub payer: u64,
    pub bytes: Vec<u8>,
}

/// The rows of one table, addressed by (code, scope, name).
pub struct PrimaryTableIndex {
    code: u64,
    scope: u64,
    name: u64,
    rows: Vec<PrimaryEntry>,
    secondaries: Vec<SecondaryTableIndex>,
    contents: Ghost<Map<u64, Seq<u8>>>,
    payers: Ghost<Map<u64, u64>>,
}

/// A handle on one stored row: its primary key and the table it belongs to.
#[derive(PartialEq, Eq, Structural, Debug, Clone, Copy)]
pub struct PrimaryTableCursor {
    pub value: u64,
    pub code: u64,
    pub scope: u64,
    pub table: u64,
}

/// A walk over a table's rows, from both ends: it still has to hand out the
/// stored keys from `front` up to `back`. Both are `None` once the two ends
/// have met, or where the table was empty.
#[derive(PartialEq, Eq, Structural, Debug, Clone, Copy)]
pub struct PrimaryTableIterator {
    pub front: Option<u64>,
    pub back: Option<u64>,
    pub code: u64,
    pub scope: u64,
    pub table: u64,
}

/// The key that slot `s` of a row holds, if any.
pub open spec fn slot_value(r: RowModel, s: int) -> Option<u64> {
    if 0 <= s < r.secondary.len() {
        r.secondary[s]
    } else {
        None
    }
}

/// The key a cursor points at, if any.
pub open spec fn cursor_key(r: Option<PrimaryTableCursor>) -> Option<u64> {
    match r {
        Some(c) => Some(c.value),
        None => None,
    }
}

/// Whether the walk `it` has yet to hand out key `k`.
pub open spec fn covers(it: PrimaryTableIterator, k: u64) -> bool {
    match (it.front, it.back) {
        (Some(f), Some(b)) => f <= k <= b,
        _ => false,
    }
}

/// Slot `pre` became `post` by linking `pk` to the row's value `v`, where the
/// row fills the slot, and is unchanged where it does not.
pub open spec fn slot_written(
    pre: Seq<SecondaryEntry>,
    post: Seq<SecondaryEntry>,
    v: Option<u64>,
    pk: u64,
    payer: u64,
) -> bool {
    match v {
        Some(key) => linked(pre, post, key, pk, payer),
        None => post == pre,
    }
}

/// Slot `pre` became `post` by relinking `pk` to the row's value `v`, where
/// the row fills the slot, and by unlinking `pk` where it does not.
pub open spec fn slot_rewritten(
    pre: Seq<SecondaryEntry>,
    post: Seq<SecondaryEntry>,
    v: Option<u64>,
    pk: u64,
    payer: u64,
) -> bool {
    match v {
        Some(key) => relinked(pre, post, key, pk, payer),
        None => unlinked(pre, post, pk),
    }
}

/// Keys ascend strictly.
pub open spec fn strictly_ascending(keys: Seq<u64>) -> bool {
    forall|i: int, j: int| 0 <= i < j < keys.len() ==> keys[i] < keys[j]
}

impl PrimaryTableIndex {
    /// The stored primary keys, in ascending order.
    pub closed spec fn key_seq(&self) -> Seq<u64> {
        Seq::new(self.rows@.len(), |i: int| self.rows@[i].key)
    }

    /// The stored bytes of each row, by primary key.
    pub closed spec fn contents(&self) -> Map<u64, Seq<u8>> {
        self.contents@
    }

    /// The account billed for each row, by primary key.
    pub closed spec fn payers(&self) -> Map<u64, u64> {
        self.payers@
    }

    /// The entries of secondary slot `s`; a slot that no row has filled is empty.
    pub closed spec fn slot(&self, s: int) -> Seq<SecondaryEntry> {
        if 0 <= s < self.secondaries@.len() {
            self.secondaries@[s]@
        } else {
            Seq::empty()
        }
    }

    pub closed spec fn spec_code(&self) -> u64 {
        self.code
    }

    pub closed spec fn spec_scope(&self) -> u64 {
        self.scope
    }

    pub closed spec fn spec_name(&self) -> u64 {
        self.name
    }

    /// The row stored under `k`.
    pub open spec fn row_of(&self, k: u64) -> RowModel {
        decode_row(self.contents()[k]).unwrap()
    }

    /// Whether a row is stored under `k`.
    pub open spec fn has(&self, k: u64) -> bool {
        self.contents().contains_key(k)
    }

    /// Whether `c` points into this table.
    pub open spec fn owns(&self, c: PrimaryTableCursor) -> bool {
        c.code == self.spec_code() && c.scope == self.spec_scope() && c.table == self.spec_name()
    }

    /// Whether `c` points at a row of this table that is still stored.
    pub open spec fn valid_cursor(&self, c: PrimaryTableCursor) -> bool {
        self.owns(c) && self.has(c.value)
    }

    /// The first stored key that is at least `k`.
    pub open spec fn is_lower_bound(&self, k: u64, r: Option<u64>) -> bool {
        match r {
            Some(x) => self.has(x) && x >= k && forall|y: u64| self.has(y) && y >= k ==> x <= y,
            None => forall|y: u64| self.has(y) ==> y < k,
        }
    }

    /// The first stored key that is greater than `k`.
    pub open spec fn is_upper_bound(&self, k: u64, r: Option<u64>) -> bool {
        match r {
            Some(x) => self.has(x) && x > k && forall|y: u64| self.has(y) && y > k ==> x <= y,
            None => forall|y: u64| self.has(y) ==> y <= k,
        }
    }

    /// The last stored key that is less than `k`.
    pub open spec fn is_predecessor(&self, k: u64, r: Option<u64>) -> bool {
        match r {
            Some(x) => self.has(x) && x < k && forall|y: u64| self.has(y) && y < k ==> y <= x,
            None => forall|y: u64| self.has(y) ==> y >= k,
        }
    }

    /// How the rows and the secondary slots fit together:
    /// keys ascend and are exactly the keys of the stored rows; every stored
    /// row decodes and carries its own key; each slot is a well-formed
    /// secondary index whose entries point exactly at the slot values of the
    /// stored rows.
    pub open spec fn wf(&self) -> bool {
        &&& self.inner_wf()
        &&& strictly_ascending(self.key_seq())
        &&& forall|k: u64| self.has(k) <==> self.key_seq().contains(k)
        &&& forall|k: u64| self.has(k) ==> #[trigger] self.payers().contains_key(k)
        &&& forall|k: u64|
            self.has(k) ==> {
                &&& #[trigger] decode_row(self.contents()[k]) is Some
                &&& self.row_of(k).primary == k
            }
        &&& forall|s: int| #[trigger] secondary_wf(self.slot(s))
        &&& forall|s: int, k: u64|
            self.has(k) ==> #[trigger] resolve(self.slot(s), k) == slot_value(self.row_of(k), s)
        &&& forall|s: int, k: u64| #[trigger] points_at(self.slot(s), k) ==> self.has(k)
    }

    /// The stored entries agree with the model.
    pub closed spec fn inner_wf(&self) -> bool {
        &&& forall|i: int|
            0 <= i < self.rows@.len() ==> {
                &&& #[trigger] self.contents@[self.rows@[i].key] == self.rows@[i].bytes@
                &&& self.payers@[self.rows@[i].key] == self.rows@[i].payer
            }
        &&& forall|s: int|
            0 <= s < self.secondaries@.len() ==> #[trigger] self.secondaries@[s].wf()
    }

    /// An empty table.
    pub fn new(code: u64, scope: u64, name: u64) -> (r: Self)
        ensures
            r.wf(),
            r.key_seq().len() == 0,
            r.contents() == Map::<u64, Seq<u8>>::empty(),
            r.spec_code() == code,
            r.spec_scope() == scope,
            r.spec_name() == name,
    {
        let r = PrimaryTableIndex {
            code,
            scope,
            name,
            rows: Vec::new(),
            secondaries: Vec::new(),
            contents: Ghost(Map::empty()),
            payers: Ghost(Map::empty()),
        };
        assert(r.key_seq() =~= Seq::<u64>::empty());
        r
    }

    /// The account that owns the table.
    pub fn code(&self) -> (r: u64)
        ensures
            r == self.spec_code(),
    {
        self.code
    }

    /// The scope the table lives in.
    pub fn scope(&self) -> (r: u64)
        ensures
            r == self.spec_scope(),
    {
        self.scope
    }

    /// The table's name.
    pub fn name(&self) -> (r: u64)
        ensures
            r == self.spec_name(),
    {
        self.name
    }

    /// The first position whose key is at least `k`.
    fn lower_index(&self, k: u64) -> (r: usize)
        requires
            self.wf(),
        ensures
            r <= self.key_seq().len(),
            forall|i: int| 0 <= i < r ==> #[trigger] self.key_seq()[i] < k,
            forall|i: int| r <= i < self.key_seq().len() ==> #[trigger] self.key_seq()[i] >= k,
    {
        let mut i: usize = 0;
        while i < self.rows.len() && self.rows[i].key < k
            invariant
                i <= self.rows@.len(),
                forall|j: int| 0 <= j < i ==> #[trigger] self.key_seq()[j] < k,
            decreases self.rows.len() - i,
        {
            i = i + 1;
        }
        assert forall|j: int| i <= j < self.key_seq().len() implies #[trigger] self.key_seq()[j]
            >= k by {
            if j > i {
                assert(self.key_seq()[i as int] < self.key_seq()[j]);
            }
            assert(self.contents@[self.rows@[i as int].key] == self.rows@[i as int].bytes@);
        }
        i
    }

    proof fn lemma_has_index(&self, k: u64) -> (i: int)
        requires
            self.wf(),
            self.has(k),
        ensures
            0 <= i < self.key_seq().len(),
            self.key_seq()[i] == k,
    {
        choose|i: int| 0 <= i < self.key_seq().len() && self.key_seq()[i] == k
    }

    proof fn lemma_index_has(&self, i: int)
        requires
            self.wf(),
            0 <= i < self.key_seq().len(),
        ensures
            self.has(self.key_seq()[i]),
    {
        assert(self.key_seq().contains(self.key_seq()[i]));
    }

    fn cursor(&self, k: u64) -> (r: PrimaryTableCursor)
        ensures
            r.value == k,
            self.owns(r),
    {
        PrimaryTableCursor { value: k, code: self.code, scope: self.scope, table: self.name }
    }

    /// The row stored under exactly `k`.
    pub fn find(&self, k: u64) -> (r: Option<PrimaryTableCursor>)
        requires
            self.wf(),
        ensures
            match r {
                Some(c) => c.value == k && self.valid_cursor(c),
                None => !self.has(k),
            },
    {
        let i = self.lower_index(k);
        if i < self.rows.len() && self.rows[i].key == k {
            proof {
                self.lemma_index_has(i as int);
            }
            Some(self.cursor(k))
        } else {
            proof {
                if self.has(k) {
                    let j = self.lemma_has_index(k);
                    if j < i {
                    } else if j > i {
                        assert(self.key_seq()[i as int] < self.key_seq()[j]);
                    }
                }
            }
            None
        }
    }

    /// Whether a row is stored under `k`.
    pub fn contains(&self, k: u64) -> (r: bool)
        requires
            self.wf(),
        ensures
            r == self.has(k),
    {
        self.find(k).is_some()
    }

    /// The first row whose key is at least `k`.
    pub fn lower_bound(&self, k: u64) -> (r: Option<PrimaryTableCursor>)
        requires
            self.wf(),
        ensures
            self.is_lower_bound(k, cursor_key(r)),
            r matches Some(c) ==> self.owns(c),
    {
        let i = self.lower_index(k);
        if i < self.rows.len() {
            proof {
                self.lemma_index_has(i as int);
                assert forall|y: u64| self.has(y) && y >= k implies self.key_seq()[i as int]
                    <= y by {
                    let j = self.lemma_has_index(y);
                    if j > i {
                        assert(self.key_seq()[i as int] < self.key_seq()[j]);
                    }
                }
            }
            Some(self.cursor(self.rows[i].key))
        } else {
            proof {
                assert forall|y: u64| self.has(y) implies y < k by {
                    let j = self.lemma_has_index(y);
                }
            }
            None
        }
    }

    /// The first row whose key is greater than `k`.
    pub fn upper_bound(&self, k: u64) -> (r: Option<PrimaryTableCursor>)
        requires
            self.wf(),
        ensures
            self.is_upper_bound(k, cursor_key(r)),
            r matches Some(c) ==> self.owns(c),
    {
        if k == u64::MAX {
            return None;
        }
        self.lower_bound(k + 1)
    }

    /// The last row whose key is less than `k`.
    pub fn predecessor(&self, k: u64) -> (r: Option<PrimaryTableCursor>)
        requires
            self.wf(),
        ensures
            self.is_predecessor(k, cursor_key(r)),
            r matches Some(c) ==> self.owns(c),
    {
        let i = self.lower_index(k);
        if i == 0 {
            proof {
                assert forall|y: u64| self.has(y) implies y >= k by {
                    let j = self.lemma_has_index(y);
                }
            }
            None
        } else {
            proof {
                self.lemma_index_has(i - 1);
                assert forall|y: u64| self.has(y) && y < k implies y <= self.key_seq()[i - 1] by {
                    let j = self.lemma_has_index(y);
                    if j < i - 1 {
                        assert(self.key_seq()[j] < self.key_seq()[i - 1]);
                    }
                }
            }
            Some(self.cursor(self.rows[i - 1].key))
        }
    }

    /// The first row of the table.
    pub fn begin(&self) -> (r: Option<PrimaryTableCursor>)
        requires
            self.wf(),
        ensures
            self.is_lower_bound(0, cursor_key(r)),
            r matches Some(c) ==> self.owns(c),
    {
        self.lower_bound(0)
    }

    /// Whether two states hold the same rows, payers and slots.
    pub open spec fn same_model(&self, other: &Self) -> bool {
        &&& self.key_seq() == other.key_seq()
        &&& self.contents() == other.contents()
        &&& self.payers() == other.payers()
        &&& forall|s: int| #[trigger] self.slot(s) == other.slot(s)
    }

    /// Whether `other` names the same table.
    pub open spec fn same_table(&self, other: &Self) -> bool {
        &&& self.spec_code() == other.spec_code()
        &&& self.spec_scope() == other.spec_scope()
        &&& self.spec_name() == other.spec_name()
    }

    /// What a successful `emplace` of `row`, billed to `payer`, leaves behind.
    pub open spec fn emplaced(&self, pre: &Self, payer: u64, row: RowModel) -> bool {
        &&& self.contents() == pre.contents().insert(row.primary, encode_row(row))
        &&& self.payers() == pre.payers().insert(row.primary, payer)
        &&& forall|s: int|
            #[trigger] slot_written(
                pre.slot(s),
                self.slot(s),
                slot_value(row, s),
                row.primary,
                payer,
            )
        &&& forall|s: int| #[trigger] resolve(self.slot(s), row.primary) == slot_value(row, s)
        &&& forall|s: int, q: u64|
            q != row.primary ==> #[trigger] resolve(self.slot(s), q) == resolve(pre.slot(s), q)
    }

    /// The secondary index of slot `s`, where a row has ever filled it.
    pub fn secondary(&self, s: usize) -> (r: Option<&SecondaryTableIndex>)
        requires
            self.wf(),
        ensures
            match r {
                Some(x) => x@ == self.slot(s as int) && x.wf(),
                None => self.slot(s as int) == Seq::<SecondaryEntry>::empty(),
            },
    {
        if s < self.secondaries.len() {
            Some(&self.secondaries[s])
        } else {
            None
        }
    }

    /// The key that slot `s` links to primary key `pk`, if any.
    pub fn find_primary(&self, s: usize, pk: u64) -> (r: Option<u64>)
        requires
            self.wf(),
        ensures
            r == resolve(self.slot(s as int), pk),
    {
        match self.secondary(s) {
            Some(x) => x.find_primary(pk),
            None => None,
        }
    }

    /// What a successful `erase` of the row under `k` leaves behind.
    pub open spec fn erased(&self, pre: &Self, k: u64) -> bool {
        &&& self.contents() == pre.contents().remove(k)
        &&& self.payers() == pre.payers().remove(k)
        &&& forall|s: int| #[trigger] unlinked(pre.slot(s), self.slot(s), k)
        &&& forall|s: int| !#[trigger] points_at(self.slot(s), k)
        &&& forall|s: int, q: u64|
            q != k ==> #[trigger] resolve(self.slot(s), q) == resolve(pre.slot(s), q)
    }

    /// A state with the rows, payers and slot entries of a well-formed state,
    /// and well-formed slot indexes, is well formed.
    proof fn lemma_model_frame(before: Self, after: Self)
        requires
            before.wf(),
            after.rows@ == before.rows@,
            after.contents@ == before.contents@,
            after.payers@ == before.payers@,
            forall|s: int| #[trigger] after.slot(s) == before.slot(s),
            forall|s: int|
                0 <= s < after.secondaries@.len() ==> #[trigger] after.secondaries@[s].wf(),
        ensures
            after.wf(),
            after.same_model(&before),
    {
        assert(after.key_seq() =~= before.key_seq());
        assert(after.inner_wf());
        assert forall|q: u64| after.has(q) <==> after.key_seq().contains(q) by {
            assert(before.has(q) <==> before.key_seq().contains(q));
        }
        assert forall|q: u64| after.has(q) implies #[trigger] after.payers().contains_key(q) by {
            assert(before.has(q) ==> before.payers().contains_key(q));
        }
        assert forall|q: u64| after.has(q) implies {
            &&& #[trigger] decode_row(after.contents()[q]) is Some
            &&& after.row_of(q).primary == q
        } by {
            assert(before.has(q) ==> decode_row(before.contents()[q]) is Some);
        }
        assert forall|s: int| #[trigger] secondary_wf(after.slot(s)) by {
            assert(after.slot(s) == before.slot(s));
        }
        assert forall|s: int, k: u64| after.has(k) implies #[trigger] resolve(after.slot(s), k)
            == slot_value(after.row_of(k), s) by {
            assert(after.slot(s) == before.slot(s));
        }
        assert forall|s: int, k: u64| #[trigger] points_at(after.slot(s), k) implies after.has(k) by {
            assert(after.slot(s) == before.slot(s));
        }
    }

    /// After a write to slot `j` alone, the rows, the payers, every other slot
    /// and the well-formedness of every slot carry over.
    proof fn lemma_slot_frame(before: Self, after: Self, j: int)
        requires
            before.inner_wf(),
            forall|q: u64| before.has(q) <==> before.key_seq().contains(q),
            forall|s: int| #[trigger] secondary_wf(before.slot(s)),
            after.rows@ == before.rows@,
            after.contents@ == before.contents@,
            after.payers@ == before.payers@,
            after.secondaries@.len() == before.secondaries@.len(),
            forall|s: int|
                0 <= s < before.secondaries@.len() && s != j ==> after.secondaries@[s]
                    == before.secondaries@[s],
            0 <= j < after.secondaries@.len() ==> after.secondaries@[j].wf(),
        ensures
            after.inner_wf(),
            after.key_seq() == before.key_seq(),
            after.contents() == before.contents(),
            after.payers() == before.payers(),
            forall|q: u64| after.has(q) <==> after.key_seq().contains(q),
            forall|s: int| s != j ==> #[trigger] after.slot(s) == before.slot(s),
            forall|s: int| #[trigger] secondary_wf(after.slot(s)),
    {
        assert forall|s: int| 0 <= s < after.secondaries@.len() implies #[trigger] after.secondaries@[s].wf() by {
            if s != j {
                assert(after.secondaries@[s] == before.secondaries@[s]);
            }
        }
        assert(after.key_seq() =~= before.key_seq());
        assert forall|q: u64| after.has(q) <==> after.key_seq().contains(q) by {
            assert(before.has(q) <==> before.key_seq().contains(q));
        }
        assert forall|s: int| s != j implies #[trigger] after.slot(s) == before.slot(s) by {}
        assert forall|s: int| #[trigger] secondary_wf(after.slot(s)) by {
            if s != j {
                assert(after.slot(s) == before.slot(s));
            }
        }
    }

    /// Makes room for at least `n` secondary slots.
    fn grow_slots(&mut self, n: usize)
        requires
            old(self).wf(),
        ensures
            final(self).wf(),
            final(self).same_model(old(self)),
            final(self).same_table(old(self)),
            final(self).secondaries@.len() >= n,
            final(self).rows@ == old(self).rows@,
    {
        while self.secondaries.len() < n
            invariant
                self.wf(),
                self.same_model(old(self)),
                self.same_table(old(self)),
                self.rows@ == old(self).rows@,
            decreases n - self.secondaries@.len(),
        {
            let ghost pre = *self;
            self.secondaries.push(SecondaryTableIndex::new());
            proof {
                assert forall|s: int| #[trigger] self.slot(s) == pre.slot(s) by {
                    if s == pre.secondaries@.len() {
                        assert(self.slot(s) =~= pre.slot(s));
                    }
                }
                assert forall|s: int| 0 <= s < self.secondaries@.len() implies #[trigger] self.secondaries@[s].wf() by {
                    if s < pre.secondaries@.len() {
                        assert(self.secondaries@[s] == pre.secondaries@[s]);
                    }
                }
                PrimaryTableIndex::lemma_model_frame(pre, *self);
            }
        }
    }

    /// Stores `row` under its primary key, billed to `payer`, and links every
    /// filled slot to it. Fails, changing nothing, where the key is taken or
    /// the row's encoding would not fit in memory.
    pub fn emplace(&mut self, payer: u64, row: &Row) -> (r: Result<(), WriteError>)
        requires
            old(self).wf(),
        ensures
            final(self).wf(),
            final(self).same_table(old(self)),
            r == Err::<(), WriteError>(WriteError::KeyExists) <==> old(self).has(row.primary),
            r == Err::<(), WriteError>(WriteError::NotEnoughSpace) <==> !old(self).has(row.primary)
                && encoded_len(row@) > usize::MAX,
            !old(self).has(row.primary) && encoded_len(row@) <= usize::MAX ==> r is Ok,
            r is Err ==> final(self).same_model(old(self)),
            r is Ok ==> final(self).emplaced(old(self), payer, row@),
    {
        let k = row.primary;
        if self.find(k).is_some() {
            return Err(WriteError::KeyExists);
        }
        let bytes = match row.write() {
            Ok(b) => b,
            Err(e) => {
                return Err(e);
            },
        };
        let n = row.secondary.len();
        let m = row.data.len();
        proof {
            assert(row@.secondary.len() == n && row@.data.len() == m);
            lemma_decode_encode(row@);
        }
        let ghost b = bytes@;
        let blen = bytes.len();
        assert(encoded_len(row@) == blen);
        self.grow_slots(n);
        let ghost pre = *self;
        let i = self.lower_index(k);
        self.rows.insert(i, PrimaryEntry { key: k, payer, bytes });
        self.contents = Ghost(self.contents@.insert(k, b));
        self.payers = Ghost(self.payers@.insert(k, payer));
        proof {
            assert(self.key_seq() =~= pre.key_seq().insert(i as int, k));
            assert forall|x: int| 0 <= x < self.rows@.len() implies {
                &&& #[trigger] self.contents@[self.rows@[x].key] == self.rows@[x].bytes@
                &&& self.payers@[self.rows@[x].key] == self.rows@[x].payer
            } by {
                if x != i {
                    let x0 = if x < i { x } else { x - 1 };
                    assert(self.rows@[x] == pre.rows@[x0]);
                    pre.lemma_index_has(x0);
                    assert(pre.key_seq()[x0] == pre.rows@[x0].key);
                    assert(pre.rows@[x0].key != k);
                    assert(pre.contents@[pre.rows@[x0].key] == pre.rows@[x0].bytes@);
                } else {
                    assert(self.rows@[x].bytes@ == b);
                }
            }
            assert forall|q: u64| self.has(q) <==> self.key_seq().contains(q) by {
                if self.has(q) && q != k {
                    let j = pre.lemma_has_index(q);
                    let j2 = if j < i { j } else { j + 1 };
                    assert(self.key_seq()[j2] == q);
                }
                if self.key_seq().contains(q) && q != k {
                    let j2 = choose|j2: int| 0 <= j2 < self.key_seq().len() && self.key_seq()[j2] == q;
                    let j = if j2 < i { j2 } else { j2 - 1 };
                    assert(pre.key_seq()[j] == q);
                    pre.lemma_index_has(j);
                }
                if q == k {
                    assert(self.key_seq()[i as int] == k);
                }
            }
            assert forall|s: int| #[trigger] secondary_wf(self.slot(s)) by {
                assert(self.slot(s) == pre.slot(s));
            }
            assert forall|s: int| !points_at(self.slot(s), k) by {
                if points_at(self.slot(s), k) {
                    assert(points_at(pre.slot(s), k));
                }
            }
        }
        let mut j: usize = 0;
        while j < n
            invariant
                j <= n,
                n == row.secondary@.len(),
                k == row.primary,
                self.inner_wf(),
                strictly_ascending(self.key_seq()),
                forall|q: u64| self.has(q) <==> self.key_seq().contains(q),
                self.contents() == pre.contents().insert(k, encode_row(row@)),
                self.payers() == pre.payers().insert(k, payer),
                self.same_table(&pre),
                self.secondaries@.len() >= n,
                decode_row(encode_row(row@)) == Some(row@),
                forall|q: u64| pre.has(q) ==> #[trigger] decode_row(pre.contents()[q]) is Some
                    && pre.row_of(q).primary == q,
                forall|q: u64| pre.has(q) ==> #[trigger] pre.payers().contains_key(q),
                forall|q: u64| self.has(q) <==> (pre.has(q) || q == k),
                forall|s: int| #[trigger] secondary_wf(self.slot(s)),
                forall|s: int, q: u64|
                    pre.has(q) ==> #[trigger] resolve(pre.slot(s), q) == slot_value(pre.row_of(q), s),
                forall|s: int, q: u64|
                    q != k ==> #[trigger] resolve(self.slot(s), q) == resolve(pre.slot(s), q),
                forall|s: int|
                    0 <= s < j ==> #[trigger] resolve(self.slot(s), k) == slot_value(row@, s),
                forall|s: int| !(0 <= s < j) ==> !#[trigger] points_at(self.slot(s), k),
                forall|s: int|
                    0 <= s < j ==> #[trigger] slot_written(
                        pre.slot(s),
                        self.slot(s),
                        slot_value(row@, s),
                        k,
                        payer,
                    ),
                forall|s: int| !(0 <= s < j) ==> #[trigger] self.slot(s) == pre.slot(s),
                forall|s: int, q: u64| #[trigger] points_at(pre.slot(s), q) ==> pre.has(q),
            decreases n - j,
        {
            let ghost before = *self;
            proof {
                assert(!points_at(before.slot(j as int), k));
                assert(before.slot(j as int) == before.secondaries@[j as int]@);
            }
            match row.secondary[j] {
                Some(v) => {
                    let stored = self.secondaries[j].store(payer, v, k);
                    assert(stored is Ok);
                    assert(resolve(self.slot(j as int), k) == Some(v));
                },
                None => {
                    assert(resolve(self.slot(j as int), k) is None);
                },
            }
            proof {
                PrimaryTableIndex::lemma_slot_frame(before, *self, j as int);
                assert forall|s: int| 0 <= s <= j implies #[trigger] resolve(self.slot(s), k)
                    == slot_value(row@, s) by {
                    if s < j {
                        assert(self.slot(s) == before.slot(s));
                    }
                }
                assert forall|s: int| !(0 <= s <= j) implies !#[trigger] points_at(self.slot(s), k) by {
                    assert(self.slot(s) == before.slot(s));
                }
                assert forall|s: int, q: u64| q != k implies #[trigger] resolve(self.slot(s), q)
                    == resolve(pre.slot(s), q) by {
                    if s == j {
                        assert(resolve(self.slot(s), q) == resolve(before.slot(s), q));
                    } else {
                        assert(self.slot(s) == before.slot(s));
                    }
                }
                assert forall|s: int| 0 <= s <= j implies #[trigger] slot_written(
                    pre.slot(s),
                    self.slot(s),
                    slot_value(row@, s),
                    k,
                    payer,
                ) by {
                    if s < j {
                        assert(self.slot(s) == before.slot(s));
                    }
                }
                assert forall|s: int| !(0 <= s <= j) implies #[trigger] self.slot(s) == pre.slot(s) by {
                    assert(self.slot(s) == before.slot(s));
                }
            }
            j = j + 1;
        }
        proof {
            assert forall|s: int, q: u64| #[trigger] points_at(self.slot(s), q) implies self.has(q) by {
                if q != k {
                    assert(resolve(self.slot(s), q) == resolve(pre.slot(s), q));
                }
            }
            assert forall|s: int| #[trigger] slot_written(
                old(self).slot(s),
                self.slot(s),
                slot_value(row@, s),
                k,
                payer,
            ) by {
                assert(old(self).slot(s) == pre.slot(s));
            }
        }
        Ok(())
    }

    /// The position of a stored key.
    fn index_of(&self, k: u64) -> (r: usize)
        requires
            self.wf(),
            self.has(k),
        ensures
            r < self.rows@.len(),
            self.key_seq()[r as int] == k,
            self.rows@[r as int].key == k,
            self.contents()[k] == self.rows@[r as int].bytes@,
            self.payers()[k] == self.rows@[r as int].payer,
    {
        let i = self.lower_index(k);
        proof {
            let j = self.lemma_has_index(k);
            if j > i {
                assert(self.key_seq()[i as int] < self.key_seq()[j]);
            }
            assert(self.contents@[self.rows@[i as int].key] == self.rows@[i as int].bytes@);
        }
        i
    }

    /// What a successful `modify` that wrote `row`, billed to `payer`, leaves
    /// behind.
    pub open spec fn modified(&self, pre: &Self, payer: u64, row: RowModel) -> bool {
        &&& self.contents() == pre.contents().insert(row.primary, encode_row(row))
        &&& self.payers() == pre.payers().insert(row.primary, payer)
        &&& self.key_seq() == pre.key_seq()
        &&& forall|s: int|
            #[trigger] slot_rewritten(
                pre.slot(s),
                self.slot(s),
                slot_value(row, s),
                row.primary,
                payer,
            )
        &&& forall|s: int| #[trigger] resolve(self.slot(s), row.primary) == slot_value(row, s)
        &&& forall|s: int, q: u64|
            q != row.primary ==> #[trigger] resolve(self.slot(s), q) == resolve(pre.slot(s), q)
    }

    /// Rewrites the row that `cursor` points at with `row`, which keeps its
    /// primary key, and sets every secondary slot to the new row's value:
    /// filled slots are linked to their new keys and empty ones unlinked.
    /// `payer` bills the row to another account; `None` keeps the current one.
    /// Returns the length of the new encoding, or fails, changing nothing,
    /// where that encoding would not fit in memory.
    pub fn modify(&mut self, cursor: &PrimaryTableCursor, payer: Option<u64>, row: &Row) -> (r:
        Result<usize, WriteError>)
        requires
            old(self).wf(),
            old(self).valid_cursor(*cursor),
            row.primary == cursor.value,
        ensures
            final(self).wf(),
            final(self).same_table(old(self)),
            match r {
                Ok(len) => len == encoded_len(row@) && final(self).modified(
                    old(self),
                    match payer {
                        Some(p) => p,
                        None => old(self).payers()[row.primary],
                    },
                    row@,
                ),
                Err(e) => e == WriteError::NotEnoughSpace && encoded_len(row@) > usize::MAX
                    && final(self).same_model(old(self)),
            },
    {
        let k = cursor.value;
        let bytes = match row.write() {
            Ok(b) => b,
            Err(e) => {
                return Err(e);
            },
        };
        let n = row.secondary.len();
        let m = row.data.len();
        proof {
            assert(row@.secondary.len() == n && row@.data.len() == m);
            lemma_decode_encode(row@);
        }
        let ghost b = bytes@;
        let blen = bytes.len();
        self.grow_slots(n);
        let i = self.index_of(k);
        let new_payer = match payer {
            Some(p) => p,
            None => self.rows[i].payer,
        };
        let ghost pre = *self;
        self.rows.set(i, PrimaryEntry { key: k, payer: new_payer, bytes });
        self.contents = Ghost(self.contents@.insert(k, b));
        self.payers = Ghost(self.payers@.insert(k, new_payer));
        proof {
            assert(self.key_seq() =~= pre.key_seq());
            assert forall|x: int| 0 <= x < self.rows@.len() implies {
                &&& #[trigger] self.contents@[self.rows@[x].key] == self.rows@[x].bytes@
                &&& self.payers@[self.rows@[x].key] == self.rows@[x].payer
            } by {
                if x != i {
                    assert(self.rows@[x] == pre.rows@[x]);
                    assert(pre.key_seq()[x] != pre.key_seq()[i as int]);
                    assert(pre.contents@[pre.rows@[x].key] == pre.rows@[x].bytes@);
                }
            }
            assert forall|q: u64| self.has(q) <==> self.key_seq().contains(q) by {
                assert(pre.has(q) <==> pre.key_seq().contains(q));
            }
            assert forall|s: int| #[trigger] secondary_wf(self.slot(s)) by {
                assert(self.slot(s) == pre.slot(s));
            }
        }
        let count = self.secondaries.len();
        let mut j: usize = 0;
        while j < count
            invariant
                j <= count,
                count == self.secondaries@.len(),
                n == row.secondary@.len(),
                n <= count,
                k == row.primary,
                self.inner_wf(),
                strictly_ascending(self.key_seq()),
                self.key_seq() == pre.key_seq(),
                forall|q: u64| self.has(q) <==> self.key_seq().contains(q),
                self.contents() == pre.contents().insert(k, encode_row(row@)),
                self.payers() == pre.payers().insert(k, new_payer),
                self.same_table(&pre),
                pre.has(k),
                decode_row(encode_row(row@)) == Some(row@),
                forall|q: u64| pre.has(q) ==> #[trigger] decode_row(pre.contents()[q]) is Some
                    && pre.row_of(q).primary == q,
                forall|q: u64| pre.has(q) ==> #[trigger] pre.payers().contains_key(q),
                forall|q: u64| self.has(q) <==> pre.has(q),
                forall|s: int| #[trigger] secondary_wf(self.slot(s)),
                forall|s: int, q: u64|
                    pre.has(q) ==> #[trigger] resolve(pre.slot(s), q) == slot_value(pre.row_of(q), s),
                forall|s: int, q: u64|
                    q != k ==> #[trigger] resolve(self.slot(s), q) == resolve(pre.slot(s), q),
                forall|s: int|
                    0 <= s < j ==> #[trigger] resolve(self.slot(s), k) == slot_value(row@, s),
                forall|s: int, q: u64| #[trigger] points_at(pre.slot(s), q) ==> pre.has(q),
                forall|s: int|
                    0 <= s < j ==> #[trigger] slot_rewritten(
                        pre.slot(s),
                        self.slot(s),
                        slot_value(row@, s),
                        k,
                        new_payer,
                    ),
                forall|s: int| !(0 <= s < j) ==> #[trigger] self.slot(s) == pre.slot(s),
            decreases count - j,
        {
            let ghost before = *self;
            let value = if j < n {
                row.secondary[j]
            } else {
                None
            };
            assert(value == slot_value(row@, j as int));
            assert(before.slot(j as int) == before.secondaries@[j as int]@);
            assert(before.slot(j as int) == pre.slot(j as int));
            match value {
                Some(v) => {
                    self.secondaries[j].upsert(new_payer, v, k);
                    assert(relinked(pre.slot(j as int), self.slot(j as int), v, k, new_payer));
                },
                None => {
                    self.secondaries[j].erase(k);
                    assert(unlinked(pre.slot(j as int), self.slot(j as int), k));
                },
            }
            proof {
                PrimaryTableIndex::lemma_slot_frame(before, *self, j as int);
                assert(resolve(self.slot(j as int), k) == slot_value(row@, j as int));
                assert forall|s: int| 0 <= s <= j implies #[trigger] resolve(self.slot(s), k)
                    == slot_value(row@, s) by {
                    if s < j {
                        assert(self.slot(s) == before.slot(s));
                    }
                }
                assert forall|s: int, q: u64| q != k implies #[trigger] resolve(self.slot(s), q)
                    == resolve(pre.slot(s), q) by {
                    if s == j {
                        assert(resolve(self.slot(s), q) == resolve(before.slot(s), q));
                    } else {
                        assert(self.slot(s) == before.slot(s));
                    }
                }
                assert forall|s: int| 0 <= s <= j implies #[trigger] slot_rewritten(
                    pre.slot(s),
                    self.slot(s),
                    slot_value(row@, s),
                    k,
                    new_payer,
                ) by {
                    if s < j {
                        assert(self.slot(s) == before.slot(s));
                    }
                }
                assert forall|s: int| !(0 <= s <= j) implies #[trigger] self.slot(s) == pre.slot(s) by {
                    assert(self.slot(s) == before.slot(s));
                }
            }
            j = j + 1;
        }
        proof {
            assert forall|s: int| #[trigger] resolve(self.slot(s), k) == slot_value(row@, s) by {
                if !(0 <= s < count) {
                    assert(self.slot(s) =~= Seq::<SecondaryEntry>::empty());
                }
            }
            assert forall|s: int| #[trigger] slot_rewritten(
                old(self).slot(s),
                self.slot(s),
                slot_value(row@, s),
                k,
                new_payer,
            ) by {
                assert(old(self).slot(s) == pre.slot(s));
                if !(0 <= s < count) {
                    assert(pre.slot(s) =~= Seq::<SecondaryEntry>::empty());
                    assert(self.slot(s) == pre.slot(s));
                }
            }
            assert forall|s: int, q: u64| #[trigger] points_at(self.slot(s), q) implies self.has(q) by {
                if q != k {
                    assert(resolve(self.slot(s), q) == resolve(pre.slot(s), q));
                }
            }
            assert forall|s: int, q: u64| self.has(q) implies #[trigger] resolve(self.slot(s), q)
                == slot_value(self.row_of(q), s) by {
                if q != k {
                    assert(resolve(self.slot(s), q) == resolve(pre.slot(s), q));
                }
            }
        }
        Ok(blen)
    }

    /// The key that follows the one at position `i`.
    proof fn lemma_successor(&self, i: int, r: Option<u64>)
        requires
            self.wf(),
            0 <= i < self.key_seq().len(),
            self.is_upper_bound(self.key_seq()[i], r),
        ensures
            r == if i + 1 < self.key_seq().len() {
                Some(self.key_seq()[i + 1])
            } else {
                None::<u64>
            },
    {
        if i + 1 < self.key_seq().len() {
            self.lemma_index_has(i + 1);
        }
        match r {
            Some(x) => {
                let j = self.lemma_has_index(x);
                if j <= i {
                    if j < i {
                        assert(self.key_seq()[j] < self.key_seq()[i]);
                    }
                } else if j > i + 1 {
                    assert(self.key_seq()[i + 1] < self.key_seq()[j]);
                }
            },
            None => {},
        }
    }

    /// The first key of the table.
    proof fn lemma_first(&self, r: Option<u64>)
        requires
            self.wf(),
            self.is_lower_bound(0, r),
        ensures
            r == if 0 < self.key_seq().len() {
                Some(self.key_seq()[0])
            } else {
                None::<u64>
            },
    {
        if 0 < self.key_seq().len() {
            self.lemma_index_has(0);
        }
        match r {
            Some(x) => {
                let j = self.lemma_has_index(x);
                if j > 0 {
                    assert(self.key_seq()[0] < self.key_seq()[j]);
                }
            },
            None => {},
        }
    }

    /// The greatest stored key.
    fn last_key(&self) -> (r: Option<u64>)
        requires
            self.wf(),
        ensures
            match r {
                Some(x) => self.has(x) && forall|y: u64| self.has(y) ==> y <= x,
                None => self.key_seq().len() == 0 && forall|y: u64| !self.has(y),
            },
            self.key_seq().len() > 0 ==> r == Some(self.key_seq().last()),
    {
        let len = self.rows.len();
        if len == 0 {
            proof {
                assert forall|y: u64| !self.has(y) by {
                    if self.has(y) {
                        let j = self.lemma_has_index(y);
                    }
                }
            }
            None
        } else {
            proof {
                self.lemma_index_has(len - 1);
                assert forall|y: u64| self.has(y) implies y <= self.key_seq()[len - 1] by {
                    let j = self.lemma_has_index(y);
                    if j < len - 1 {
                        assert(self.key_seq()[j] < self.key_seq()[len - 1]);
                    }
                }
            }
            Some(self.rows[len - 1].key)
        }
    }

    /// A walk over the whole table: `next` hands out the rows from the first
    /// up, `next_back` from the last down.
    pub fn iter(&self) -> (r: PrimaryTableIterator)
        requires
            self.wf(),
        ensures
            self.valid_walk(r),
            forall|k: u64| self.has(k) ==> #[trigger] covers(r, k),
            self.is_lower_bound(0, r.front),
            self.key_seq().len() > 0 ==> r.back == Some(self.key_seq().last()),
    {
        let front = match self.begin() {
            Some(c) => Some(c.value),
            None => None,
        };
        let back = self.last_key();
        PrimaryTableIterator { front, back, code: self.code, scope: self.scope, table: self.name }
    }

    /// Whether `it` is a walk over this table whose ends are stored rows.
    pub open spec fn valid_walk(&self, it: PrimaryTableIterator) -> bool {
        &&& self.walks(it)
        &&& match (it.front, it.back) {
            (Some(f), Some(b)) => self.has(f) && self.has(b) && f <= b,
            (None, None) => true,
            _ => false,
        }
    }

    /// Whether `it` walks this table.
    pub open spec fn walks(&self, it: PrimaryTableIterator) -> bool {
        it.code == self.spec_code() && it.scope == self.spec_scope() && it.table
            == self.spec_name()
    }

    /// The stored primary keys, in the order a walk from the first row hands
    /// them out.
    pub fn primary_keys(&self) -> (r: Vec<u64>)
        requires
            self.wf(),
        ensures
            r@ == self.key_seq(),
    {
        let mut out: Vec<u64> = Vec::new();
        let mut it = self.iter();
        proof {
            self.lemma_first(it.front);
        }
        while it.front.is_some()
            invariant
                self.wf(),
                self.valid_walk(it),
                out@.len() <= self.key_seq().len(),
                out@ == self.key_seq().take(out@.len() as int),
                it.front == if out@.len() < self.key_seq().len() {
                    Some(self.key_seq()[out@.len() as int])
                } else {
                    None::<u64>
                },
                out@.len() < self.key_seq().len() ==> it.back == Some(self.key_seq().last()),
            decreases self.key_seq().len() - out@.len(),
        {
            let ghost i = out@.len() as int;
            let ghost n = self.key_seq().len() as int;
            proof {
                self.lemma_index_has(i);
                if i < n - 1 {
                    assert(self.key_seq()[i] < self.key_seq()[n - 1]);
                }
            }
            let c = it.next(self);
            let c = c.unwrap();
            out.push(c.value);
            proof {
                if i < n - 1 {
                    self.lemma_successor(i, it.front);
                }
                assert(out@ =~= self.key_seq().take(i + 1));
            }
        }
        assert(out@ =~= self.key_seq());
        out
    }

    /// The number of stored rows, counted by walking the table.
    pub fn count(&self) -> (r: usize)
        requires
            self.wf(),
        ensures
            r == self.key_seq().len(),
            r == self.contents().dom().len(),
    {
        let keys = self.primary_keys();
        proof {
            self.lemma_dom_len();
        }
        keys.len()
    }

    proof fn lemma_dom_len(&self)
        requires
            self.wf(),
        ensures
            self.contents().dom().len() == self.key_seq().len(),
            self.contents().dom() == self.key_seq().to_set(),
    {
        assert forall|q: u64| self.contents().dom().contains(q) <==> self.key_seq().to_set().contains(q) by {
            assert(self.has(q) <==> self.key_seq().contains(q));
        }
        assert(self.contents().dom() =~= self.key_seq().to_set());
        assert(self.key_seq().no_duplicates()) by {
            assert forall|i: int, j: int|
                0 <= i < self.key_seq().len() && 0 <= j < self.key_seq().len() && i != j implies
                self.key_seq()[i] != self.key_seq()[j] by {
                if i < j {
                    assert(self.key_seq()[i] < self.key_seq()[j]);
                } else {
                    assert(self.key_seq()[j] < self.key_seq()[i]);
                }
            }
        }
        self.key_seq().unique_seq_to_set();
    }

    /// A primary key that no row holds yet: 0 for an empty table, otherwise one
    /// more than the greatest stored key; `None` where the greatest stored key
    /// is already `u64::MAX`.
    pub fn available_primary_key(&self) -> (r: Option<u64>)
        requires
            self.wf(),
        ensures
            match r {
                Some(x) => (forall|q: u64| self.has(q) ==> q < x) && (x == 0 || self.has(
                    (x - 1) as u64,
                )),
                None => self.has(u64::MAX),
            },
            self.key_seq().len() == 0 ==> r == Some(0u64),
    {
        let len = self.rows.len();
        if len == 0 {
            proof {
                assert forall|q: u64| self.has(q) implies q < 0 by {
                    let j = self.lemma_has_index(q);
                }
            }
            return Some(0);
        }
        let last = self.rows[len - 1].key;
        proof {
            self.lemma_index_has(len - 1);
            assert forall|q: u64| self.has(q) implies q <= last by {
                let j = self.lemma_has_index(q);
                if j < len - 1 {
                    assert(self.key_seq()[j] < self.key_seq()[len - 1]);
                }
            }
        }
        if last == u64::MAX {
            None
        } else {
            Some(last + 1)
        }
    }
}

impl PrimaryTableCursor {
    /// Decodes the row that the cursor points at.
    pub fn get(&self, table: &PrimaryTableIndex) -> (r: Result<Row, ReadError>)
        requires
            table.wf(),
            table.valid_cursor(*self),
        ensures
            r matches Ok(row) && row@ == table.row_of(self.value),
    {
        let i = table.index_of(self.value);
        Row::read(table.rows[i].bytes.as_slice())
    }

    /// A walk over the rows from this one to the last.
    pub fn into_iter(self, table: &PrimaryTableIndex) -> (r: PrimaryTableIterator)
        requires
            table.wf(),
            table.valid_cursor(self),
        ensures
            table.valid_walk(r),
            r.front == Some(self.value),
            forall|k: u64| table.has(k) ==> (#[trigger] covers(r, k) <==> k >= self.value),
    {
        let back = table.last_key();
        PrimaryTableIterator { front: Some(self.value), back, code: self.code, scope: self.scope, table: self.table }
    }

    /// Rewrites the row that the cursor points at; see `PrimaryTableIndex::modify`.
    pub fn modify(&self, table: &mut PrimaryTableIndex, payer: Option<u64>, row: &Row) -> (r:
        Result<usize, WriteError>)
        requires
            old(table).wf(),
            old(table).valid_cursor(*self),
            row.primary == self.value,
        ensures
            final(table).wf(),
            final(table).same_table(old(table)),
            match r {
                Ok(len) => len == encoded_len(row@) && final(table).modified(
                    old(table),
                    match payer {
                        Some(p) => p,
                        None => old(table).payers()[row.primary],
                    },
                    row@,
                ),
                Err(e) => e == WriteError::NotEnoughSpace && encoded_len(row@) > usize::MAX
                    && final(table).same_model(old(table)),
            },
    {
        table.modify(self, payer, row)
    }

    /// Removes the row that the cursor points at and unlinks it from every
    /// secondary slot it filled; returns the row as it was.
    pub fn erase(&self, table: &mut PrimaryTableIndex) -> (r: Result<Row, ReadError>)
        requires
            old(table).wf(),
            old(table).valid_cursor(*self),
        ensures
            final(table).wf(),
            final(table).same_table(old(table)),
            r matches Ok(row) && row@ == old(table).row_of(self.value),
            final(table).erased(old(table), self.value),
    {
        let k = self.value;
        let i = table.index_of(k);
        let row = match Row::read(table.rows[i].bytes.as_slice()) {
            Ok(row) => row,
            Err(e) => {
                return Err(e);
            },
        };
        let ghost pre = *table;
        table.rows.remove(i);
        table.contents = Ghost(table.contents@.remove(k));
        table.payers = Ghost(table.payers@.remove(k));
        proof {
            assert(table.key_seq() =~= pre.key_seq().remove(i as int));
            assert forall|x: int| 0 <= x < table.rows@.len() implies {
                &&& #[trigger] table.contents@[table.rows@[x].key] == table.rows@[x].bytes@
                &&& table.payers@[table.rows@[x].key] == table.rows@[x].payer
            } by {
                let x0 = if x < i { x } else { x + 1 };
                assert(table.rows@[x] == pre.rows@[x0]);
                assert(pre.key_seq()[x0] != pre.key_seq()[i as int]);
                assert(pre.contents@[pre.rows@[x0].key] == pre.rows@[x0].bytes@);
            }
            assert forall|q: u64| table.has(q) <==> table.key_seq().contains(q) by {
                assert(pre.has(q) <==> pre.key_seq().contains(q));
                if pre.key_seq().contains(q) && q != k {
                    let j = choose|j: int| 0 <= j < pre.key_seq().len() && pre.key_seq()[j] == q;
                    let j2 = if j < i { j } else { j - 1 };
                    assert(table.key_seq()[j2] == q);
                }
                if table.key_seq().contains(q) {
                    let j2 = choose|j2: int| 0 <= j2 < table.key_seq().len() && table.key_seq()[j2] == q;
                    let j = if j2 < i { j2 } else { j2 + 1 };
                    assert(pre.key_seq()[j] == q);
                    pre.lemma_index_has(j);
                    assert(q != k) by {
                        if j < i {
                            assert(pre.key_seq()[j] < pre.key_seq()[i as int]);
                        } else {
                            assert(pre.key_seq()[i as int] < pre.key_seq()[j]);
                        }
                    }
                }
            }
            assert forall|s: int| #[trigger] secondary_wf(table.slot(s)) by {
                assert(table.slot(s) == pre.slot(s));
            }
            assert forall|s: int| 0 <= s < table.secondaries@.len() implies #[trigger] table.secondaries@[s].wf() by {
                assert(table.secondaries@[s] == pre.secondaries@[s]);
            }
            assert(table.inner_wf());
            assert forall|s: int| #[trigger] resolve(table.slot(s), k) == slot_value(row@, s) by {
                assert(table.slot(s) == pre.slot(s));
            }
        }
        let n = row.secondary.len();
        let mut j: usize = 0;
        while j < n
            invariant
                j <= n,
                n == row.secondary@.len(),
                table.inner_wf(),
                strictly_ascending(table.key_seq()),
                forall|q: u64| table.has(q) <==> table.key_seq().contains(q),
                table.contents() == pre.contents().remove(k),
                table.payers() == pre.payers().remove(k),
                table.same_table(&pre),
                pre.has(k),
                forall|q: u64| pre.has(q) ==> #[trigger] decode_row(pre.contents()[q]) is Some
                    && pre.row_of(q).primary == q,
                forall|q: u64| pre.has(q) ==> #[trigger] pre.payers().contains_key(q),
                forall|q: u64| table.has(q) <==> (pre.has(q) && q != k),
                forall|s: int| #[trigger] secondary_wf(table.slot(s)),
                forall|s: int, q: u64|
                    pre.has(q) ==> #[trigger] resolve(pre.slot(s), q) == slot_value(pre.row_of(q), s),
                forall|s: int, q: u64|
                    q != k ==> #[trigger] resolve(table.slot(s), q) == resolve(pre.slot(s), q),
                forall|s: int| 0 <= s < j ==> !#[trigger] points_at(table.slot(s), k),
                forall|s: int| !(0 <= s < j) ==> #[trigger] resolve(table.slot(s), k) == slot_value(row@, s),
                forall|s: int| 0 <= s < j ==> #[trigger] unlinked(pre.slot(s), table.slot(s), k),
                forall|s: int| !(0 <= s < j) ==> #[trigger] table.slot(s) == pre.slot(s),
                forall|s: int, q: u64| #[trigger] points_at(pre.slot(s), q) ==> pre.has(q),
            decreases n - j,
        {
            let ghost before = *table;
            proof {
                assert(resolve(before.slot(j as int), k) == slot_value(row@, j as int));
            }
            match row.secondary[j] {
                Some(_) => {
                    if j < table.secondaries.len() {
                        table.secondaries[j].erase(k);
                        assert(!points_at(table.secondaries@[j as int]@, k));
                    } else {
                        assert(table.slot(j as int) =~= Seq::<SecondaryEntry>::empty());
                    }
                },
                None => {},
            }
            proof {
                assert(!points_at(table.slot(j as int), k));
                PrimaryTableIndex::lemma_slot_frame(before, *table, j as int);
                assert forall|s: int| 0 <= s <= j implies !#[trigger] points_at(table.slot(s), k) by {
                    if s < j {
                        assert(table.slot(s) == before.slot(s));
                    }
                }
                assert forall|s: int| !(0 <= s <= j) implies #[trigger] resolve(table.slot(s), k)
                    == slot_value(row@, s) by {
                    assert(table.slot(s) == before.slot(s));
                }
                assert forall|s: int, q: u64| q != k implies #[trigger] resolve(table.slot(s), q)
                    == resolve(pre.slot(s), q) by {
                    if s == j {
                        assert(resolve(table.slot(s), q) == resolve(before.slot(s), q));
                    } else {
                        assert(table.slot(s) == before.slot(s));
                    }
                }
                assert forall|s: int| 0 <= s <= j implies #[trigger] unlinked(pre.slot(s), table.slot(s), k) by {
                    if s < j {
                        assert(table.slot(s) == before.slot(s));
                    }
                }
                assert forall|s: int| !(0 <= s <= j) implies #[trigger] table.slot(s) == pre.slot(s) by {
                    assert(table.slot(s) == before.slot(s));
                }
            }
            j = j + 1;
        }
        proof {
            assert forall|s: int| !#[trigger] points_at(table.slot(s), k) by {
                if !(0 <= s < n) {
                    assert(resolve(table.slot(s), k) == slot_value(row@, s));
                }
            }
            assert forall|s: int, q: u64| #[trigger] points_at(table.slot(s), q) implies table.has(q) by {
                if q != k {
                    assert(resolve(table.slot(s), q) == resolve(pre.slot(s), q));
                }
            }
            assert forall|s: int, q: u64| table.has(q) implies #[trigger] resolve(table.slot(s), q)
                == slot_value(table.row_of(q), s) by {
                assert(resolve(table.slot(s), q) == resolve(pre.slot(s), q));
            }
            assert forall|q: u64| table.has(q) implies #[trigger] table.payers().contains_key(q) by {
                assert(pre.has(q));
            }
            assert forall|q: u64| table.has(q) implies {
                &&& #[trigger] decode_row(table.contents()[q]) is Some
                &&& table.row_of(q).primary == q
            } by {
                assert(pre.has(q));
            }
        }
        Ok(row)
    }
}

impl PrimaryTableIterator {
    /// The cursor this walk hands out for key `k`.
    pub open spec fn cursor_at(self, k: u64) -> PrimaryTableCursor {
        PrimaryTableCursor { value: k, code: self.code, scope: self.scope, table: self.table }
    }

    /// Hands out the smallest key the walk has yet to hand out.
    pub fn next(&mut self, table: &PrimaryTableIndex) -> (r: Option<PrimaryTableCursor>)
        requires
            table.wf(),
            table.valid_walk(*old(self)),
        ensures
            table.valid_walk(*final(self)),
            match old(self).front {
                Some(f) => {
                    &&& r == Some(old(self).cursor_at(f))
                    &&& forall|k: u64|
                        table.has(k) ==> (#[trigger] covers(*final(self), k) <==> (covers(
                            *old(self),
                            k,
                        ) && k != f))
                    &&& if old(self).back == Some(f) {
                        final(self).front is None && final(self).back is None
                    } else {
                        table.is_upper_bound(f, final(self).front) && final(self).back == old(
                            self,
                        ).back
                    }
                },
                None => r is None && final(self).front is None && final(self).back is None,
            },
    {
        match (self.front, self.back) {
            (Some(f), Some(b)) => {
                let c = PrimaryTableCursor { value: f, code: self.code, scope: self.scope, table: self.table };
                if f == b {
                    self.front = None;
                    self.back = None;
                } else {
                    match table.upper_bound(f) {
                        Some(n) => {
                            self.front = Some(n.value);
                        },
                        None => {
                            self.front = None;
                            self.back = None;
                        },
                    }
                }
                Some(c)
            },
            _ => {
                self.front = None;
                self.back = None;
                None
            },
        }
    }

    /// Hands out the greatest key the walk has yet to hand out.
    pub fn next_back(&mut self, table: &PrimaryTableIndex) -> (r: Option<PrimaryTableCursor>)
        requires
            table.wf(),
            table.valid_walk(*old(self)),
        ensures
            table.valid_walk(*final(self)),
            match old(self).back {
                Some(b) => {
                    &&& r == Some(old(self).cursor_at(b))
                    &&& forall|k: u64|
                        table.has(k) ==> (#[trigger] covers(*final(self), k) <==> (covers(
                            *old(self),
                            k,
                        ) && k != b))
                    &&& if old(self).front == Some(b) {
                        final(self).front is None && final(self).back is None
                    } else {
                        table.is_predecessor(b, final(self).back) && final(self).front == old(
                            self,
                        ).front
                    }
                },
                None => r is None && final(self).front is None && final(self).back is None,
            },
    {
        match (self.front, self.back) {
            (Some(f), Some(b)) => {
                let c = PrimaryTableCursor { value: b, code: self.code, scope: self.scope, table: self.table };
                if f == b {
                    self.front = None;
                    self.back = None;
                } else {
                    match table.predecessor(b) {
                        Some(n) => {
                            self.back = Some(n.value);
                        },
                        None => {
                            self.front = None;
                            self.back = None;
                        },
                    }
                }
                Some(c)
            },
            _ => {
                self.front = None;
                self.back = None;
                None
            },
        }
    }
}

/// A row stored by a successful `emplace` is found under its key and decodes
/// to the row that was written.
pub proof fn lemma_emplace_then_get(
    pre: PrimaryTableIndex,
    post: PrimaryTableIndex,
    payer: u64,
    row: RowModel,
)
    requires
        pre.wf(),
        post.wf(),
        row.secondary.len() <= u64::MAX,
        row.data.len() <= u64::MAX,
        post.emplaced(&pre, payer, row),
    ensures
        post.has(row.primary),
        post.row_of(row.primary) == row,
{
    lemma_decode_encode(row);
}

/// A walk from the first row visits the stored keys in strictly ascending
/// order, each once, and visits them all.
pub proof fn lemma_walk_order(t: PrimaryTableIndex)
    requires
        t.wf(),
    ensures
        strictly_ascending(t.key_seq()),
        t.key_seq().no_duplicates(),
        t.key_seq().to_set() == t.contents().dom(),
        t.key_seq().len() == t.contents().dom().len(),
{
    t.lemma_dom_len();
}

/// After `erase`, the key is gone from the table and no secondary slot
/// resolves it any more.
pub proof fn lemma_erase_unlinks(pre: PrimaryTableIndex, post: PrimaryTableIndex, k: u64)
    requires
        pre.wf(),
        post.wf(),
        post.erased(&pre, k),
    ensures
        !post.has(k),
        forall|s: int| #[trigger] resolve(post.slot(s), k) is None,
        forall|q: u64| q != k ==> (post.has(q) <==> pre.has(q)),
{
}

/// `modify` with a row that keeps its primary key keeps the set of stored
/// keys, stores the new row, and makes every slot resolve the key to the new
/// row's value, so that none resolves it to an old value the new row dropped.
pub proof fn lemma_modify_relinks(
    pre: PrimaryTableIndex,
    post: PrimaryTableIndex,
    payer: u64,
    row: RowModel,
)
    requires
        pre.wf(),
        post.wf(),
        pre.has(row.primary),
        row.secondary.len() <= u64::MAX,
        row.data.len() <= u64::MAX,
        post.modified(&pre, payer, row),
    ensures
        post.contents().dom() == pre.contents().dom(),
        post.row_of(row.primary) == row,
        forall|s: int| #[trigger] resolve(post.slot(s), row.primary) == slot_value(row, s),
        forall|s: int|
            slot_value(pre.row_of(row.primary), s) != slot_value(row, s) ==> #[trigger] resolve(
                post.slot(s),
                row.primary,
            ) != slot_value(pre.row_of(row.primary), s),
{
    lemma_decode_encode(row);
    assert(post.contents().dom() =~= pre.contents().dom());
}

} // verus!
