use vstd::prelude::*;

use crate::consts::{MAX_RECORD_LENGTH, PADDING_CHAR};
use crate::data::{Data, DataError, spec_padded};
use crate::record::Record;

verus! {

/// The file after writing `data` at byte offset `pos`: bytes before `pos`
/// past the old end become zeros.
pub open spec fn spec_write_at(file: Seq<u8>, pos: int, data: Seq<u8>) -> Seq<u8> {
    Seq::new(
        if file.len() >= pos + data.len() {
            file.len()
        } else {
            (pos + data.len()) as nat
        },
        |i: int|
            if pos <= i < pos + data.len() {
                data[i - pos]
            } else if i < file.len() {
                file[i]
            } else {
                0u8
            },
    )
}

/// Writes `data` into `file` at byte offset `pos`, as a seek and a write do.
fn write_at(file: &mut Vec<u8>, pos: usize, data: &Vec<u8>)
    requires
        pos + data@.len() <= usize::MAX,
    ensures
        final(file)@ == spec_write_at(old(file)@, pos as int, data@),
{
    let ghost f0 = file@;
    let ghost target = spec_write_at(f0, pos as int, data@);
    while file.len() < pos
        invariant
            file@.len() <= pos || file@ == f0,
            file@.len() >= f0.len(),
            forall|i: int|
                0 <= i < file@.len() ==> file@[i] == (if i < f0.len() {
                    f0[i]
                } else {
                    0u8
                }),
        decreases pos - file@.len(),
    {
        file.push(0);
    }
    let mut j: usize = 0;
    while j < data.len()
        invariant
            j <= data@.len(),
            pos + data@.len() <= usize::MAX,
            file@.len() >= pos,
            file@.len() == (if f0.len() >= pos + j {
                f0.len()
            } else {
                (pos + j) as nat
            }),
            target == spec_write_at(f0, pos as int, data@),
            forall|i: int|
                0 <= i < file@.len() ==> file@[i] == (if pos <= i < pos + j {
                    data@[i - pos]
                } else if i < f0.len() {
                    f0[i]
                } else {
                    0u8
                }),
        decreases data@.len() - j,
    {
        let b = data[j];
        if pos + j < file.len() {
            file.set(pos + j, b);
        } else {
            file.push(b);
        }
        j = j + 1;
    }
    assert(file@ =~= target);
}

/// The data store: a file of `MAX_RECORD_LENGTH`-byte slots, one per data id,
/// read and written through a buffer of `buffer_size` slots.
pub struct DataFile {
    /// The file's bytes.
    pub file: Vec<u8>,
    pub next_id: u64,
    pub buffer: Vec<u8>,
    pub curr_buf_position: u64,
    pub curr_buf_len: u64,
    pub buffer_size: usize,
    pub file_write_ctr: u32,
    pub file_read_ctr: u32,
}

/// Where the buffer-sized block that holds the slot of `data_id` starts.
pub open spec fn spec_block_start(buffer_size: usize, data_id: u64) -> int {
    data_id / (buffer_size as u64) * (buffer_size * MAX_RECORD_LENGTH)
}

proof fn lemma_slot_fits(off: int, bs: int)
    requires
        0 <= off < bs * 30,
        off % 30 == 0,
    ensures
        off + 30 <= bs * 30,
{
    assert(off + 30 <= bs * 30) by (nonlinear_arith)
        requires
            0 <= off < bs * 30,
            off % 30 == 0,
    ;
}

impl DataFile {
    /// The store's own invariant.
    pub open spec fn wf(&self) -> bool {
        &&& self.buffer@.len() == self.buffer_size * MAX_RECORD_LENGTH
        &&& self.curr_buf_position + self.buffer@.len() <= usize::MAX
        &&& self.curr_buf_len <= self.buffer@.len()
    }

    /// Byte `i` of the stored data, as the next read would see it: the buffer
    /// over the file, and padding past the file's end.
    pub open spec fn byte_at(&self, i: int) -> u8 {
        if self.curr_buf_position <= i < self.curr_buf_position + self.buffer@.len() {
            self.buffer@[i - self.curr_buf_position]
        } else if 0 <= i < self.file@.len() {
            self.file@[i]
        } else {
            PADDING_CHAR
        }
    }

    /// The bytes of the data slot of `data_id`.
    pub open spec fn slot(&self, data_id: u64) -> Seq<u8> {
        Seq::new(
            MAX_RECORD_LENGTH as nat,
            |j: int| self.byte_at(data_id * MAX_RECORD_LENGTH + j),
        )
    }

    /// What reading the slot of `data_id` gives: its bytes as data, or a
    /// refusal when the slot starts with padding.
    pub open spec fn spec_read(&self, data_id: u64) -> Result<Seq<u8>, DataError> {
        if self.slot(data_id)[0] == PADDING_CHAR {
            Err(DataError::EmptyLetters)
        } else {
            Ok(self.slot(data_id))
        }
    }

    /// The data ids whose slots a read or a write can reach: the buffer
    /// holds slots at all, and the file's offsets do not overflow.
    pub open spec fn in_range(&self, data_id: u64) -> bool {
        &&& self.buffer_size > 0
        &&& (data_id + self.buffer_size) * MAX_RECORD_LENGTH <= usize::MAX
    }

    pub fn new(buffer_size: usize) -> (f: Self)
        requires
            buffer_size * MAX_RECORD_LENGTH <= usize::MAX,
        ensures
            f.wf(),
            f.file@.len() == 0,
            f.next_id == 0,
            f.buffer_size == buffer_size,
            f.curr_buf_position == 0,
            f.curr_buf_len == 0,
            f.file_write_ctr == 0,
            f.file_read_ctr == 0,
            forall|i: int| #[trigger] f.byte_at(i) == PADDING_CHAR,
    {
        let n = buffer_size * MAX_RECORD_LENGTH;
        let mut buffer: Vec<u8> = Vec::with_capacity(n);
        while buffer.len() < n
            invariant
                buffer@.len() <= n,
                forall|i: int| 0 <= i < buffer@.len() ==> buffer@[i] == PADDING_CHAR,
            decreases n - buffer@.len(),
        {
            buffer.push(PADDING_CHAR);
        }
        Self {
            file: Vec::new(),
            next_id: 0,
            buffer,
            curr_buf_position: 0,
            curr_buf_len: 0,
            buffer_size,
            file_write_ctr: 0,
            file_read_ctr: 0,
        }
    }

    /// Offset of the buffer-sized block that holds the slot of `data_id`.
    fn get_buf_pos(&self, data_id: u64) -> (p: u64)
        requires
            self.wf(),
            self.in_range(data_id),
        ensures
            p == data_id / (self.buffer_size as u64) * (self.buffer_size * MAX_RECORD_LENGTH),
            p <= data_id * MAX_RECORD_LENGTH,
            data_id * MAX_RECORD_LENGTH - p < self.buffer_size * MAX_RECORD_LENGTH,
            (data_id * MAX_RECORD_LENGTH - p) % (MAX_RECORD_LENGTH as int) == 0,
            p + self.buffer_size * MAX_RECORD_LENGTH <= usize::MAX,
    {
        let bs = self.buffer_size as u64;
        let q = data_id / bs;
        proof {
            let d = data_id as int;
            let b = bs as int;
            assert(q * b <= d && d - q * b < b) by (nonlinear_arith)
                requires
                    q == d / b,
                    b > 0,
                    d >= 0,
            ;
            assert(q * b * 30 <= d * 30) by (nonlinear_arith)
                requires
                    q * b <= d,
            ;
            assert((d - q * b) * 30 < b * 30) by (nonlinear_arith)
                requires
                    d - q * b < b,
            ;
            assert(q * b * 30 == q * (b * 30)) by (nonlinear_arith);
            assert((d * 30 - q * b * 30) == (d - q * b) * 30) by (nonlinear_arith);
            assert(((d - q * b) * 30) % 30 == 0) by (nonlinear_arith);
            assert((d + b) * 30 == d * 30 + b * 30) by (nonlinear_arith);
        }
        q * bs * (MAX_RECORD_LENGTH as u64)
    }

    /// Writes the buffer to the file at its position.
    pub fn write_buffer(&mut self)
        requires
            old(self).wf(),
        ensures
            final(self).wf(),
            final(self).file@ == spec_write_at(
                old(self).file@,
                old(self).curr_buf_position as int,
                old(self).buffer@,
            ),
            final(self).buffer@ == old(self).buffer@,
            final(self).next_id == old(self).next_id,
            final(self).curr_buf_position == old(self).curr_buf_position,
            final(self).curr_buf_len == old(self).curr_buf_len,
            final(self).buffer_size == old(self).buffer_size,
            final(self).file_read_ctr == old(self).file_read_ctr,
            final(self).file_write_ctr == old(self).file_write_ctr.wrapping_add(1),
            forall|i: int| #[trigger] final(self).byte_at(i) == old(self).byte_at(i),
    {
        let pos = self.curr_buf_position as usize;
        write_at(&mut self.file, pos, &self.buffer);
        self.file_write_ctr = self.file_write_ctr.wrapping_add(1);
    }

    /// Writes the buffer out, then loads the block that holds the slot of
    /// `data_id` (padding past the file's end).
    fn read_buffer(&mut self, data_id: u64)
        requires
            old(self).wf(),
            old(self).in_range(data_id),
        ensures
            final(self).wf(),
            final(self).curr_buf_position == data_id / (old(self).buffer_size as u64) * (
            old(self).buffer_size * MAX_RECORD_LENGTH),
            final(self).next_id == old(self).next_id,
            final(self).buffer_size == old(self).buffer_size,
            final(self).file_read_ctr == old(self).file_read_ctr.wrapping_add(1),
            final(self).file_write_ctr == old(self).file_write_ctr.wrapping_add(1),
            forall|i: int| #[trigger] final(self).byte_at(i) == old(self).byte_at(i),
    {
        self.write_buffer();
        let ghost mid = *self;
        let n = self.buffer.len();
        let mut j: usize = 0;
        while j < n
            invariant
                j <= n,
                n == self.buffer@.len(),
                mid.wf(),
                self.file@ == mid.file@,
                self.buffer_size == mid.buffer_size,
                self.curr_buf_position == mid.curr_buf_position,
                self.curr_buf_len == mid.curr_buf_len,
                self.next_id == mid.next_id,
                self.file_read_ctr == mid.file_read_ctr,
                self.file_write_ctr == mid.file_write_ctr,
                forall|i: int| 0 <= i < j ==> self.buffer@[i] == PADDING_CHAR,
            decreases n - j,
        {
            self.buffer.set(j, PADDING_CHAR);
            j = j + 1;
        }
        let buf_pos = self.get_buf_pos(data_id);
        let pos = buf_pos as usize;
        let flen = self.file.len();
        let count: usize = if pos >= flen {
            0
        } else if flen - pos < n {
            flen - pos
        } else {
            n
        };
        let mut j: usize = 0;
        while j < count
            invariant
                j <= count <= n,
                n == self.buffer@.len(),
                flen == self.file@.len(),
                pos + count <= flen || count == 0,
                self.file@ == mid.file@,
                self.buffer_size == mid.buffer_size,
                self.curr_buf_position == mid.curr_buf_position,
                self.next_id == mid.next_id,
                self.file_read_ctr == mid.file_read_ctr,
                self.file_write_ctr == mid.file_write_ctr,
                forall|i: int|
                    0 <= i < n ==> self.buffer@[i] == (if i < j {
                        self.file@[pos + i]
                    } else {
                        PADDING_CHAR
                    }),
            decreases count - j,
        {
            let b = self.file[pos + j];
            self.buffer.set(j, b);
            j = j + 1;
        }
        self.curr_buf_len = count as u64;
        self.curr_buf_position = buf_pos;
        self.file_read_ctr = self.file_read_ctr.wrapping_add(1);
        proof {
            assert forall|i: int| #[trigger] self.byte_at(i) == old(self).byte_at(i) by {
                assert(mid.byte_at(i) == old(self).byte_at(i));
            }
        }
    }

    /// The data in the slot of `record`'s data id.
    pub fn get_data(&mut self, record: &Record) -> (r: Result<Data, DataError>)
        requires
            old(self).wf(),
            old(self).in_range(record.data_id),
        ensures
            final(self).wf(),
            match (r, old(self).spec_read(record.data_id)) {
                (Ok(d), Ok(s)) => d@ == s,
                (Err(e1), Err(e2)) => e1 == e2,
                _ => false,
            },
            final(self).next_id == old(self).next_id,
            final(self).buffer_size == old(self).buffer_size,
            forall|i: int| #[trigger] final(self).byte_at(i) == old(self).byte_at(i),
            ({
                let bp = spec_block_start(old(self).buffer_size, record.data_id);
                if bp != old(self).curr_buf_position || record.data_id * MAX_RECORD_LENGTH - bp
                    >= old(self).curr_buf_len {
                    &&& final(self).curr_buf_position == bp
                    &&& final(self).file_read_ctr == old(self).file_read_ctr.wrapping_add(1)
                    &&& final(self).file_write_ctr == old(self).file_write_ctr.wrapping_add(1)
                } else {
                    &&& final(self).curr_buf_position == old(self).curr_buf_position
                    &&& final(self).file_read_ctr == old(self).file_read_ctr
                    &&& final(self).file_write_ctr == old(self).file_write_ctr
                }
            }),
    {
        let record_buf_position = self.get_buf_pos(record.data_id);
        let data_buf_offset: usize = (record.data_address() - record_buf_position) as usize;
        if record_buf_position != self.curr_buf_position || data_buf_offset as u64
            >= self.curr_buf_len {
            self.read_buffer(record.data_id);
        }
        proof {
            lemma_slot_fits(data_buf_offset as int, self.buffer_size as int);
        }
        let slice = vstd::slice::slice_subrange(
            self.buffer.as_slice(),
            data_buf_offset,
            data_buf_offset + MAX_RECORD_LENGTH,
        );
        assert(slice@ =~= self.slot(record.data_id));
        assert(self.slot(record.data_id) =~= old(self).slot(record.data_id));
        assert(spec_padded(slice@) =~= slice@);
        Data::try_from(slice)
    }

    /// Writes `data` into the slot of `record`'s data id and counts a new
    /// data id.
    pub fn write_data(&mut self, record: &Record, data: &Data)
        requires
            old(self).wf(),
            old(self).in_range(record.data_id),
            old(self).next_id < u64::MAX,
        ensures
            final(self).wf(),
            final(self).next_id == old(self).next_id + 1,
            final(self).buffer_size == old(self).buffer_size,
            final(self).slot(record.data_id) == data@,
            ({
                let bp = spec_block_start(old(self).buffer_size, record.data_id);
                if bp != old(self).curr_buf_position {
                    &&& final(self).curr_buf_position == bp
                    &&& final(self).file_read_ctr == old(self).file_read_ctr.wrapping_add(1)
                    &&& final(self).file_write_ctr == old(self).file_write_ctr.wrapping_add(1)
                } else {
                    &&& final(self).curr_buf_position == old(self).curr_buf_position
                    &&& final(self).file_read_ctr == old(self).file_read_ctr
                    &&& final(self).file_write_ctr == old(self).file_write_ctr
                }
            }),
            forall|i: int|
                !(record.data_id * MAX_RECORD_LENGTH <= i < record.data_id * MAX_RECORD_LENGTH
                    + MAX_RECORD_LENGTH) ==> #[trigger] final(self).byte_at(i) == old(
                    self,
                ).byte_at(i),
    {
        self.update_data(record, data);
        let ghost mid = *self;
        self.next_id = self.next_id + 1;
        proof {
            assert forall|i: int|
                !(record.data_id * MAX_RECORD_LENGTH <= i < record.data_id * MAX_RECORD_LENGTH
                    + MAX_RECORD_LENGTH) implies #[trigger] self.byte_at(i) == old(self).byte_at(i) by {
                assert(mid.byte_at(i) == old(self).byte_at(i));
            }
            assert(self.slot(record.data_id) =~= mid.slot(record.data_id));
        }
    }

    /// Writes `data` into the slot of `record`'s data id.
    pub fn update_data(&mut self, record: &Record, data: &Data)
        requires
            old(self).wf(),
            old(self).in_range(record.data_id),
        ensures
            final(self).wf(),
            final(self).next_id == old(self).next_id,
            final(self).buffer_size == old(self).buffer_size,
            final(self).slot(record.data_id) == data@,
            ({
                let bp = spec_block_start(old(self).buffer_size, record.data_id);
                if bp != old(self).curr_buf_position {
                    &&& final(self).curr_buf_position == bp
                    &&& final(self).file_read_ctr == old(self).file_read_ctr.wrapping_add(1)
                    &&& final(self).file_write_ctr == old(self).file_write_ctr.wrapping_add(1)
                } else {
                    &&& final(self).curr_buf_position == old(self).curr_buf_position
                    &&& final(self).file_read_ctr == old(self).file_read_ctr
                    &&& final(self).file_write_ctr == old(self).file_write_ctr
                }
            }),
            forall|i: int|
                !(record.data_id * MAX_RECORD_LENGTH <= i < record.data_id * MAX_RECORD_LENGTH
                    + MAX_RECORD_LENGTH) ==> #[trigger] final(self).byte_at(i) == old(
                    self,
                ).byte_at(i),
    {
        let record_buf_position = self.get_buf_pos(record.data_id);
        let data_buf_offset: usize = (record.data_address() - record_buf_position) as usize;
        if record_buf_position != self.curr_buf_position {
            self.read_buffer(record.data_id);
        }
        proof {
            lemma_slot_fits(data_buf_offset as int, self.buffer_size as int);
        }
        let ghost mid = *self;
        let bytes = data.to_bytes();
        let blen = self.buffer.len();
        let mut j: usize = 0;
        while j < MAX_RECORD_LENGTH
            invariant
                j <= MAX_RECORD_LENGTH,
                blen == self.buffer@.len(),
                bytes@ == data@,
                bytes@.len() == MAX_RECORD_LENGTH,
                data_buf_offset + MAX_RECORD_LENGTH <= self.buffer@.len(),
                self.buffer@.len() == mid.buffer@.len(),
                forall|i: int|
                    0 <= i < self.buffer@.len() ==> self.buffer@[i] == (if data_buf_offset <= i
                        < data_buf_offset + j {
                        bytes@[i - data_buf_offset]
                    } else {
                        mid.buffer@[i]
                    }),
                self.file@ == mid.file@,
                self.curr_buf_position == mid.curr_buf_position,
                self.curr_buf_len == mid.curr_buf_len,
                self.next_id == mid.next_id,
                self.buffer_size == mid.buffer_size,
                self.file_read_ctr == mid.file_read_ctr,
                self.file_write_ctr == mid.file_write_ctr,
            decreases MAX_RECORD_LENGTH - j,
        {
            self.buffer.set(data_buf_offset + j, bytes[j]);
            j = j + 1;
        }
        assert(self.slot(record.data_id) =~= data@);
        proof {
            assert forall|i: int|
                !(record.data_id * MAX_RECORD_LENGTH <= i < record.data_id * MAX_RECORD_LENGTH
                    + MAX_RECORD_LENGTH) implies #[trigger] self.byte_at(i) == old(self).byte_at(i) by {
                assert(mid.byte_at(i) == old(self).byte_at(i));
            }
        }
    }
}

} // verus!
