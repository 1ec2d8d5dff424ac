//! Rows and their byte encoding.
//!
//! A row is laid out as: the primary key (8 bytes, little endian), the number
//! of secondary slots `n` (8 bytes), one 9-byte record per slot (a tag, 0 for
//! an empty slot and 1 for a filled one, then the key), the payload length `m`
//! (8 bytes) and the payload. The whole encoding is `24 + 9 * n + m` bytes long,
//! and decoding accepts exactly that many.

use vstd::bytes::*;
use vstd::prelude::*;
use vstd::slice::slice_subrange;

verus! {

/// Why an encoding could not be produced.
#[derive(PartialEq, Eq, Structural, Debug, Clone, Copy)]
pub enum WriteError {
    /// The encoding would not fit in addressable memory.
    NotEnoughSpace,
    /// A row with the same primary key is already stored.
    KeyExists,
}

/// Why bytes could not be decoded into a row.
#[derive(PartialEq, Eq, Structural, Debug, Clone, Copy)]
pub enum ReadError {
    /// The bytes are not exactly one well-formed row.
    Malformed,
}

/// A row: its primary key, its secondary keys by slot, and an opaque payload.
#[derive(PartialEq, Eq, Debug, Clone)]
pub struct Row {
    pub primary: u64,
    pub secondary: Vec<Option<u64>>,
    pub data: Vec<u8>,
}

/// What a row holds, as mathematical values.
pub struct RowModel {
    pub primary: u64,
    pub secondary: Seq<Option<u64>>,
    pub data: Seq<u8>,
}

impl View for Row {
    type V = RowModel;

    open spec fn view(&self) -> RowModel {
        RowModel { primary: self.primary, secondary: self.secondary@, data: self.data@ }
    }
}

/// The nine bytes that record one slot.
pub open spec fn slot_bytes(s: Option<u64>) -> Seq<u8> {
    match s {
        None => seq![0u8] + spec_u64_to_le_bytes(0),
        Some(k) => seq![1u8] + spec_u64_to_le_bytes(k),
    }
}

/// The records of all slots, in slot order.
pub open spec fn slots_bytes(s: Seq<Option<u64>>) -> Seq<u8>
    decreases s.len(),
{
    if s.len() == 0 {
        Seq::empty()
    } else {
        slots_bytes(s.drop_last()) + slot_bytes(s.last())
    }
}

/// The length of a row's encoding.
pub open spec fn encoded_len(r: RowModel) -> int {
    24 + 9 * r.secondary.len() + r.data.len() as int
}

/// The encoding of a row.
pub open spec fn encode_row(r: RowModel) -> Seq<u8> {
    spec_u64_to_le_bytes(r.primary) + spec_u64_to_le_bytes(r.secondary.len() as u64) + slots_bytes(
        r.secondary,
    ) + spec_u64_to_le_bytes(r.data.len() as u64) + r.data
}

/// The little-endian integer in the eight bytes from `at`.
pub open spec fn u64_at(b: Seq<u8>, at: int) -> u64 {
    spec_u64_from_le_bytes(b.subrange(at, at + 8))
}

/// The slot recorded in the nine bytes from `at`.
pub open spec fn slot_at(b: Seq<u8>, at: int) -> Option<u64> {
    if b[at] == 0 {
        None
    } else {
        Some(u64_at(b, at + 1))
    }
}

/// The row that `b` encodes, if `b` is exactly one well-formed row.
pub open spec fn decode_row(b: Seq<u8>) -> Option<RowModel> {
    if b.len() < 24 {
        None
    } else {
        let n = u64_at(b, 8) as int;
        if b.len() < 24 + 9 * n {
            None
        } else {
            let m = u64_at(b, 16 + 9 * n) as int;
            if b.len() != 24 + 9 * n + m {
                None
            } else if exists|i: int| 0 <= i < n && #[trigger] b[16 + 9 * i] > 1 {
                None
            } else {
                Some(
                    RowModel {
                        primary: u64_at(b, 0),
                        secondary: Seq::new(n as nat, |i: int| slot_at(b, 16 + 9 * i)),
                        data: b.subrange(24 + 9 * n, b.len() as int),
                    },
                )
            }
        }
    }
}

proof fn lemma_slots_bytes(s: Seq<Option<u64>>)
    ensures
        slots_bytes(s).len() == 9 * s.len(),
        forall|i: int|
            0 <= i < s.len() ==> #[trigger] slots_bytes(s).subrange(9 * i, 9 * i + 9) == slot_bytes(
                s[i],
            ),
    decreases s.len(),
{
    lemma_auto_spec_u64_to_from_le_bytes();
    if s.len() > 0 {
        let p = s.drop_last();
        lemma_slots_bytes(p);
        let b = slots_bytes(s);
        assert forall|i: int| 0 <= i < s.len() implies #[trigger] b.subrange(9 * i, 9 * i + 9)
            == slot_bytes(s[i]) by {
            if i < p.len() {
                assert(b.subrange(9 * i, 9 * i + 9) =~= slots_bytes(p).subrange(9 * i, 9 * i + 9));
            } else {
                assert(b.subrange(9 * i, 9 * i + 9) =~= slot_bytes(s.last()));
            }
        }
    }
}

/// Decoding the encoding of a row gives that row back.
pub proof fn lemma_decode_encode(r: RowModel)
    requires
        r.secondary.len() <= u64::MAX,
        r.data.len() <= u64::MAX,
    ensures
        decode_row(encode_row(r)) == Some(r),
{
    lemma_auto_spec_u64_to_from_le_bytes();
    lemma_slots_bytes(r.secondary);
    let b = encode_row(r);
    let n = r.secondary.len() as int;
    let sb = slots_bytes(r.secondary);
    assert(b.subrange(0, 8) =~= spec_u64_to_le_bytes(r.primary));
    assert(b.subrange(8, 16) =~= spec_u64_to_le_bytes(n as u64));
    assert(b.subrange(16 + 9 * n, 24 + 9 * n) =~= spec_u64_to_le_bytes(r.data.len() as u64));
    assert(b.subrange(24 + 9 * n, b.len() as int) =~= r.data);
    assert forall|i: int| 0 <= i < n implies b.subrange(16 + 9 * i, 25 + 9 * i) == slot_bytes(
        r.secondary[i],
    ) by {
        assert(b.subrange(16 + 9 * i, 25 + 9 * i) =~= sb.subrange(9 * i, 9 * i + 9));
    }
    assert forall|i: int| 0 <= i < n implies !(#[trigger] b[16 + 9 * i] > 1) && slot_at(
        b,
        16 + 9 * i,
    ) == r.secondary[i] by {
        let s = b.subrange(16 + 9 * i, 25 + 9 * i);
        assert(s == slot_bytes(r.secondary[i]));
        assert(b[16 + 9 * i] == s[0]);
        assert(b.subrange(17 + 9 * i, 25 + 9 * i) =~= s.subrange(1, 9));
        match r.secondary[i] {
            None => {},
            Some(k) => {
                assert(s.subrange(1, 9) =~= spec_u64_to_le_bytes(k));
            },
        }
    }
    let d = decode_row(b).unwrap();
    assert(d.secondary =~= r.secondary);
}

impl Row {
    /// The length of the encoding, when it fits in memory.
    pub fn num_bytes(&self) -> (r: Option<usize>)
        ensures
            match r {
                Some(len) => len == encoded_len(self@),
                None => encoded_len(self@) > usize::MAX,
            },
    {
        let n = self.secondary.len();
        if n > (usize::MAX - 24) / 9 {
            return None;
        }
        let fixed = 24 + 9 * n;
        if self.data.len() > usize::MAX - fixed {
            return None;
        }
        Some(fixed + self.data.len())
    }

    /// The encoding of the row; it fails only where it would not fit in memory.
    pub fn write(&self) -> (r: Result<Vec<u8>, WriteError>)
        ensures
            match r {
                Ok(b) => b@ == encode_row(self@) && b@.len() == encoded_len(self@),
                Err(e) => e == WriteError::NotEnoughSpace && encoded_len(self@) > usize::MAX,
            },
    {
        proof {
            lemma_slots_bytes(self.secondary@);
        }
        if self.num_bytes().is_none() {
            return Err(WriteError::NotEnoughSpace);
        }
        let mut out = u64_to_le_bytes(self.primary);
        let mut count = u64_to_le_bytes(self.secondary.len() as u64);
        out.append(&mut count);
        let ghost head = out@;
        let mut i: usize = 0;
        while i < self.secondary.len()
            invariant
                i <= self.secondary.len(),
                out@ == head + slots_bytes(self.secondary@.take(i as int)),
            decreases self.secondary.len() - i,
        {
            let mut rec = match self.secondary[i] {
                None => {
                    let mut v = vec![0u8];
                    let mut k = u64_to_le_bytes(0);
                    v.append(&mut k);
                    v
                },
                Some(key) => {
                    let mut v = vec![1u8];
                    let mut k = u64_to_le_bytes(key);
                    v.append(&mut k);
                    v
                },
            };
            assert(rec@ =~= slot_bytes(self.secondary@[i as int]));
            out.append(&mut rec);
            proof {
                let t = self.secondary@.take(i + 1);
                assert(t.drop_last() =~= self.secondary@.take(i as int));
            }
            i = i + 1;
        }
        assert(self.secondary@.take(i as int) =~= self.secondary@);
        let mut len = u64_to_le_bytes(self.data.len() as u64);
        out.append(&mut len);
        let mut payload = self.data.clone();
        assert(payload@ =~= self.data@);
        out.append(&mut payload);
        Ok(out)
    }

    /// Decodes a row, accepting exactly its declared length.
    pub fn read(bytes: &[u8]) -> (r: Result<Row, ReadError>)
        ensures
            match r {
                Ok(row) => decode_row(bytes@) == Some(row@),
                Err(e) => decode_row(bytes@) is None,
            },
    {
        proof {
            lemma_auto_spec_u64_to_from_le_bytes();
        }
        let len = bytes.len();
        if len < 24 {
            return Err(ReadError::Malformed);
        }
        let n = u64_from_le_bytes(slice_subrange(bytes, 8, 16));
        if n > ((len - 24) / 9) as u64 {
            return Err(ReadError::Malformed);
        }
        let n = n as usize;
        let fixed = 16 + 9 * n;
        let m = u64_from_le_bytes(slice_subrange(bytes, fixed, fixed + 8));
        if m != (len - fixed - 8) as u64 {
            return Err(ReadError::Malformed);
        }
        let mut secondary: Vec<Option<u64>> = Vec::new();
        let mut i: usize = 0;
        while i < n
            invariant
                i <= n,
                16 + 9 * n + 8 <= len,
                len == bytes@.len(),
                u64_at(bytes@, 8) == n,
                u64_at(bytes@, 16 + 9 * n) == m,
                len == 24 + 9 * n + m,
                secondary@.len() == i,
                forall|j: int| 0 <= j < i ==> #[trigger] bytes@[16 + 9 * j] <= 1,
                forall|j: int| 0 <= j < i ==> secondary@[j] == slot_at(bytes@, 16 + 9 * j),
            decreases n - i,
        {
            let at = 16 + 9 * i;
            let tag = bytes[at];
            if tag > 1 {
                assert(bytes@[16 + 9 * (i as int)] > 1);
                return Err(ReadError::Malformed);
            }
            if tag == 0 {
                secondary.push(None);
            } else {
                let key = u64_from_le_bytes(slice_subrange(bytes, at + 1, at + 9));
                secondary.push(Some(key));
            }
            i = i + 1;
        }
        let primary = u64_from_le_bytes(slice_subrange(bytes, 0, 8));
        let data = vstd::slice::slice_to_vec(slice_subrange(bytes, fixed + 8, len));
        let row = Row { primary, secondary, data };
        assert(row@.secondary =~= decode_row(bytes@).unwrap().secondary);
        Ok(row)
    }
}

} // verus!
