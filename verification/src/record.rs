use vstd::prelude::*;
use vstd::bytes::{spec_u64_from_le_bytes, spec_u64_to_le_bytes, u64_from_le_bytes, u64_to_le_bytes};
use vstd::slice::slice_subrange;

use crate::consts::{MAX_RECORD_LENGTH, RECORD_SIZE};

verus! {

/// One entry of the index: a key and the number of its data slot.
#[derive(Debug, Clone, Copy, PartialEq, Eq, Hash, Structural)]
pub struct Record {
    pub key: u64,
    pub data_id: u64,
}

/// The 16 bytes of a record: key then data id, each little-endian.
pub open spec fn spec_record_bytes(r: Record) -> Seq<u8> {
    spec_u64_to_le_bytes(r.key) + spec_u64_to_le_bytes(r.data_id)
}

/// The record that 16 bytes encode.
pub open spec fn spec_record_from_bytes(b: Seq<u8>) -> Record {
    Record {
        key: spec_u64_from_le_bytes(b.subrange(0, 8)),
        data_id: spec_u64_from_le_bytes(b.subrange(8, 16)),
    }
}

/// Decoding the encoding of a record gives the record back.
pub proof fn lemma_record_bytes_roundtrip(r: Record)
    ensures
        spec_record_bytes(r).len() == RECORD_SIZE,
        spec_record_from_bytes(spec_record_bytes(r)) == r,
{
    vstd::bytes::lemma_auto_spec_u64_to_from_le_bytes();
    let b = spec_record_bytes(r);
    assert(b.subrange(0, 8) =~= spec_u64_to_le_bytes(r.key));
    assert(b.subrange(8, 16) =~= spec_u64_to_le_bytes(r.data_id));
}

impl Record {
    pub fn new(key: u64, data_id: u64) -> (r: Self)
        ensures
            r.key == key,
            r.data_id == data_id,
    {
        Self { key, data_id }
    }

    /// Byte offset of the record's data slot in the data store.
    pub fn data_address(&self) -> (a: u64)
        requires
            self.data_id * MAX_RECORD_LENGTH <= u64::MAX,
        ensures
            a == self.data_id * MAX_RECORD_LENGTH,
    {
        self.data_id * (MAX_RECORD_LENGTH as u64)
    }

    /// The 16-byte encoding of the record.
    pub fn to_bytes(&self) -> (b: Vec<u8>)
        ensures
            b@ == spec_record_bytes(*self),
            b@.len() == RECORD_SIZE,
    {
        let mut b = u64_to_le_bytes(self.key);
        let mut d = u64_to_le_bytes(self.data_id);
        b.append(&mut d);
        b
    }

    /// The record encoded by the first 16 bytes of `value`.
    pub fn from_bytes(value: &[u8]) -> (r: Self)
        requires
            value@.len() >= RECORD_SIZE,
        ensures
            r == spec_record_from_bytes(value@),
    {
        let k = u64_from_le_bytes(slice_subrange(value, 0, 8));
        let d = u64_from_le_bytes(slice_subrange(value, 8, 16));
        Self { key: k, data_id: d }
    }
}

impl Record {
    /// The data of this record, read from the data store of `btree`.
    pub fn get_data(&mut self, btree: &mut crate::btree::BTree) -> (r: Result<
        crate::data::Data,
        crate::data::DataError,
    >)
        requires
            old(btree).data_file.wf(),
            old(btree).data_file.in_range(old(self).data_id),
        ensures
            *final(self) == *old(self),
            match (r, old(btree).data_file.spec_read(old(self).data_id)) {
                (Ok(d), Ok(s)) => d@ == s,
                (Err(e1), Err(e2)) => e1 == e2,
                _ => false,
            },
            final(btree).data_file.wf(),
            final(btree).data_file.next_id == old(btree).data_file.next_id,
            final(btree).data_file.buffer_size == old(btree).data_file.buffer_size,
            forall|i: int| #[trigger] final(btree).data_file.byte_at(i) == old(btree).data_file.byte_at(i),
            final(btree).nodes_file == old(btree).nodes_file,
            final(btree).root_id == old(btree).root_id,
            final(btree).heights == old(btree).heights,
            final(btree).order == old(btree).order,
    {
        btree.data_file.get_data(self)
    }

    /// Writes `data` into this record's data slot in the data store of
    /// `btree`, counting a new data id.
    pub fn write_data(&mut self, btree: &mut crate::btree::BTree, data: &crate::data::Data)
        requires
            old(btree).data_file.wf(),
            old(btree).data_file.in_range(old(self).data_id),
            old(btree).data_file.next_id < u64::MAX,
        ensures
            *final(self) == *old(self),
            crate::btree::spec_data_written(old(btree).data_file, final(btree).data_file, old(self).data_id, data@),
            final(btree).data_file.next_id == old(btree).data_file.next_id + 1,
            final(btree).nodes_file == old(btree).nodes_file,
            final(btree).root_id == old(btree).root_id,
            final(btree).heights == old(btree).heights,
            final(btree).order == old(btree).order,
    {
        btree.data_file.write_data(self, data);
    }
}

/// `s` right-aligned in a field of `width` bytes: spaces in front of it.
pub open spec fn spec_right_aligned(s: Seq<u8>, width: nat) -> Seq<u8> {
    if s.len() >= width {
        s
    } else {
        Seq::new((width - s.len()) as nat, |i: int| 32u8) + s
    }
}

/// How a record is described: its key right-aligned in five places, then
/// its data id and the offset of its data slot.
pub open spec fn spec_record_text(r: Record) -> Seq<u8> {
    "key: "@.map_values(|c: char| c as u8) + spec_right_aligned(crate::text::spec_decimal(r.key as nat), 5)
        + ", data: :_<30 | data_id: "@.map_values(|c: char| c as u8) + crate::text::spec_decimal(
        r.data_id as nat,
    ) + ", data_address: "@.map_values(|c: char| c as u8) + crate::text::spec_decimal(
        (r.data_id * MAX_RECORD_LENGTH) as nat,
    )
}

impl Record {
    /// The record described as text.
    pub fn to_string(&self) -> (s: String)
        requires
            self.data_id * MAX_RECORD_LENGTH <= u64::MAX,
        ensures
            s@ == crate::text::spec_ascii_chars(spec_record_text(*self)),
    {
        let mut out: Vec<u8> = Vec::new();
        proof {
            reveal_strlit("key: ");
        }
        push_text(&mut out, "key: ");
        let mut digits: Vec<u8> = Vec::new();
        crate::text::push_decimal(&mut digits, self.key);
        let ghost before_pad = out@;
        let mut n: usize = digits.len();
        while n < 5
            invariant
                digits@.len() <= n <= 5 || (n == digits@.len() && n >= 5),
                out@ == before_pad + Seq::new((n - digits@.len()) as nat, |i: int| 32u8),
            decreases 5 - n,
        {
            out.push(32);
            n = n + 1;
            proof {
                assert(out@ =~= before_pad + Seq::new((n - digits@.len()) as nat, |i: int| 32u8));
            }
        }
        let mut j: usize = 0;
        let ghost before_digits = out@;
        while j < digits.len()
            invariant
                j <= digits@.len(),
                out@ == before_digits + digits@.subrange(0, j as int),
            decreases digits@.len() - j,
        {
            out.push(digits[j]);
            j = j + 1;
        }
        proof {
            assert(digits@.subrange(0, j as int) =~= digits@);
            let padded = spec_right_aligned(crate::text::spec_decimal(self.key as nat), 5);
            if digits@.len() >= 5 {
                assert(Seq::new((n - digits@.len()) as nat, |i: int| 32u8) =~= Seq::<u8>::empty());
            }
            assert(out@ =~= "key: "@.map_values(|c: char| c as u8) + padded);
        }
        proof {
            reveal_strlit(", data: :_<30 | data_id: ");
        }
        push_text(&mut out, ", data: :_<30 | data_id: ");
        crate::text::push_decimal(&mut out, self.data_id);
        proof {
            reveal_strlit(", data_address: ");
        }
        push_text(&mut out, ", data_address: ");
        crate::text::push_decimal(&mut out, self.data_address());
        proof {
            let t = spec_record_text(*self);
            assert(out@ =~= t);
            crate::text::lemma_decimal_ascii(self.key as nat);
            crate::text::lemma_decimal_ascii(self.data_id as nat);
            crate::text::lemma_decimal_ascii((self.data_id * MAX_RECORD_LENGTH) as nat);
            assert(crate::text::spec_is_ascii(out@)) by {
                reveal_strlit("key: ");
                reveal_strlit(", data: :_<30 | data_id: ");
                reveal_strlit(", data_address: ");
                assert forall|i: int| 0 <= i < out@.len() implies #[trigger] out@[i] < 128 by {
                    assert(t[i] == out@[i]);
                }
            }
        }
        crate::text::ascii_string(out)
    }
}

/// Appends the bytes of the ASCII text `s`.
fn push_text(out: &mut Vec<u8>, s: &str)
    requires
        s.is_ascii(),
    ensures
        final(out)@ == old(out)@ + s@.map_values(|c: char| c as u8),
{
    let bytes = s.as_bytes();
    let mut i: usize = 0;
    while i < bytes.len()
        invariant
            i <= bytes@.len(),
            out@ == old(out)@ + bytes@.subrange(0, i as int),
        decreases bytes@.len() - i,
    {
        out.push(bytes[i]);
        i = i + 1;
    }
    proof {
        assert(bytes@.subrange(0, i as int) =~= bytes@);
        assert(bytes@ =~= s@.map_values(|c: char| c as u8));
    }
}

} // verus!
