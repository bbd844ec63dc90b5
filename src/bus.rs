//! The bus: read and write buffers, frame encoding and status frame decoding.
use vstd::prelude::*;
use vstd::slice::slice_subrange;
use core::time::Duration;
use crate::bytestuff::{stuffed, unstuffed, stuff_into, unstuff_in_place};
use crate::checksum::{crc16, calculate_checksum};
use crate::error::{ReadError, WriteError};

verus! {

/// Size of an instruction frame header: prefix, packet ID, length, instruction.
pub const HEADER_SIZE: usize = 8;

/// Size of a status frame header: an instruction frame header and the error field.
pub const STATUS_HEADER_SIZE: usize = 9;

/// The instruction ID carried by status frames.
pub const STATUS_INSTRUCTION: u8 = 0x55;

/// The four bytes that start every frame.
pub open spec fn header_prefix() -> Seq<u8> {
    seq![0xFFu8, 0xFFu8, 0xFDu8, 0x00u8]
}

fn prefix_byte(j: usize) -> (r: u8)
    requires
        j < 4,
    ensures
        r == header_prefix()[j as int],
{
    if j < 2 {
        0xFF
    } else if j == 2 {
        0xFD
    } else {
        0x00
    }
}

/// The header prefix, or as much of its start as fits, begins at `i` in `s`.
pub open spec fn header_candidate(s: Seq<u8>, i: int) -> bool {
    &&& 0 <= i <= s.len()
    &&& forall|j: int| 0 <= j < 4 && i + j < s.len() ==> s[i + j] == #[trigger] header_prefix()[j]
}

/// The first candidate position at or after `i`.
pub open spec fn first_candidate_from(s: Seq<u8>, i: int) -> int
    decreases s.len() - i,
{
    if i >= s.len() {
        s.len() as int
    } else if header_candidate(s, i) {
        i
    } else {
        first_candidate_from(s, i + 1)
    }
}

pub proof fn lemma_first_candidate_bounds(s: Seq<u8>, i: int)
    requires
        0 <= i <= s.len(),
    ensures
        i <= first_candidate_from(s, i) <= s.len(),
        header_candidate(s, first_candidate_from(s, i)),
        forall|k: int| i <= k < first_candidate_from(s, i) ==> !#[trigger] header_candidate(s, k),
    decreases s.len() - i,
{
    if i < s.len() && !header_candidate(s, i) {
        lemma_first_candidate_bounds(s, i + 1);
    }
}

/// Number of leading bytes of `s` that cannot start a frame.
pub open spec fn garbage_len(s: Seq<u8>) -> int {
    first_candidate_from(s, 0)
}

/// `s` without its leading garbage.
pub open spec fn resync(s: Seq<u8>) -> Seq<u8> {
    s.skip(garbage_len(s))
}

/// A little-endian 16-bit value.
pub open spec fn le16(lo: u8, hi: u8) -> int {
    lo as int + 256 * hi as int
}

/// `t` starts with a whole status frame header.
pub open spec fn has_status_header(t: Seq<u8>) -> bool {
    t.len() >= 9 && t.take(4) == header_prefix()
}

/// The length field of the frame at the start of `t`.
pub open spec fn declared_len(t: Seq<u8>) -> int {
    le16(t[5], t[6])
}

/// Total stuffed length of the frame at the start of `t`.
pub open spec fn frame_len(t: Seq<u8>) -> int {
    7 + declared_len(t)
}

/// A whole status frame, with a sound length field, is at the start of `t`.
pub open spec fn frame_complete(t: Seq<u8>) -> bool {
    &&& has_status_header(t)
    &&& declared_len(t) >= 4
    &&& t.len() >= frame_len(t)
}

/// The checksum stored at the end of the frame at the start of `t`.
pub open spec fn stored_checksum(t: Seq<u8>) -> int {
    le16(t[frame_len(t) - 2], t[frame_len(t) - 1])
}

/// The checksum computed over the frame at the start of `t`.
pub open spec fn computed_checksum(t: Seq<u8>) -> u16 {
    crc16(0, t.take(frame_len(t) - 2))
}

/// The error, if any, that the complete frame at the start of `t` is read with.
pub open spec fn status_error(t: Seq<u8>) -> Option<ReadError> {
    if stored_checksum(t) != computed_checksum(t) as int {
        Some(ReadError::InvalidChecksum { message: stored_checksum(t) as u16, computed: computed_checksum(t) })
    } else if t[7] != STATUS_INSTRUCTION {
        Some(ReadError::InvalidInstruction { actual: t[7], expected: STATUS_INSTRUCTION })
    } else if t[8] != 0 {
        Some(ReadError::MotorError { code: t[8] })
    } else {
        None
    }
}

/// The decoded status frame at the start of `t`: its header and its unstuffed parameters.
pub open spec fn decoded_status(t: Seq<u8>) -> Seq<u8> {
    t.take(9) + unstuffed(t.subrange(9, frame_len(t) - 2))
}

/// Lower and upper byte of a 16-bit value.
pub open spec fn le16_bytes(v: int) -> Seq<u8> {
    seq![(v % 256) as u8, (v / 256) as u8]
}

/// The instruction frame up to its checksum.
pub open spec fn instruction_head(packet_id: u8, instruction_id: u8, parameters: Seq<u8>) -> Seq<u8> {
    let body = stuffed(parameters);
    header_prefix() + seq![packet_id] + le16_bytes(body.len() + 3int) + seq![instruction_id] + body
}

/// The whole wire frame of an instruction.
pub open spec fn instruction_frame(packet_id: u8, instruction_id: u8, parameters: Seq<u8>) -> Seq<u8> {
    let head = instruction_head(packet_id, instruction_id, parameters);
    head + le16_bytes(crc16(0, head) as int)
}

/// Finds the first position where a header prefix may start.
///
/// A partial prefix at the end of the buffer counts; without any candidate the
/// buffer length is returned.
pub fn find_header(buffer: &[u8]) -> (r: usize)
    ensures
        r == garbage_len(buffer@),
{
    let mut i: usize = 0;
    while i < buffer.len()
        invariant
            i <= buffer@.len(),
            first_candidate_from(buffer@, 0) == first_candidate_from(buffer@, i as int),
        decreases buffer@.len() - i,
    {
        let n = buffer.len();
        let possible = if buffer.len() - i < 4 { buffer.len() - i } else { 4 };
        let mut j: usize = 0;
        let mut matches = true;
        while j < possible
            invariant
                j <= possible,
                possible <= 4,
                i < buffer@.len(),
                n == buffer@.len(),
                i + possible <= buffer@.len(),
                possible == 4 || possible == buffer@.len() - i,
                matches <==> forall|k: int| 0 <= k < j ==> buffer@[i + k] == #[trigger] header_prefix()[k],
            decreases possible - j,
        {
            if buffer[i + j] != prefix_byte(j) {
                matches = false;
            }
            j = j + 1;
        }
        if matches {
            return i;
        }
        i = i + 1;
    }
    buffer.len()
}

/// Relies on `<[u8]>::copy_within`: `buf[from..to]` is copied to the start of
/// `buf`, and the bytes from `to - from` on are left as they were.
#[verifier::external_body]
fn move_to_front(buf: &mut Vec<u8>, from: usize, to: usize)
    requires
        from <= to <= old(buf)@.len(),
    ensures
        final(buf)@ == old(buf)@.subrange(from as int, to as int) + old(buf)@.skip(to - from),
    opens_invariants none
    no_unwind
{
    buf.copy_within(from..to, 0);
}

/// A bus speaking the protocol over a byte stream that the caller drives.
///
/// Bytes `0..read_len` of the read buffer are the bytes received and not yet
/// consumed. The write buffer always starts with the header prefix.
pub struct Bus {
    read_timeout: Duration,
    read_buffer: Vec<u8>,
    read_len: usize,
    write_buffer: Vec<u8>,
}

impl Bus {
    pub closed spec fn wf(&self) -> bool {
        &&& self.read_len <= self.read_buffer@.len()
        &&& self.write_buffer@.len() >= HEADER_SIZE + 2
        &&& self.write_buffer@.take(4) == header_prefix()
    }

    /// The bytes received and not yet consumed.
    pub closed spec fn pending(&self) -> Seq<u8> {
        self.read_buffer@.take(self.read_len as int)
    }

    pub closed spec fn read_capacity(&self) -> nat {
        self.read_buffer@.len()
    }

    pub closed spec fn write_capacity(&self) -> nat {
        self.write_buffer@.len()
    }

    pub closed spec fn timeout(&self) -> Duration {
        self.read_timeout
    }

    /// Creates a bus with 128 byte read and write buffers.
    pub fn new(read_timeout: Duration) -> (r: Bus)
        ensures
            r.wf(),
            r.pending() == Seq::<u8>::empty(),
            r.read_capacity() == 128,
            r.write_capacity() == 128,
            r.timeout() == read_timeout,
    {
        Self::with_buffer_sizes(read_timeout, 128, 128)
    }

    /// Creates a bus with read and write buffers of the given sizes.
    pub fn with_buffer_sizes(read_timeout: Duration, read_buffer: usize, write_buffer: usize) -> (r: Bus)
        requires
            write_buffer >= HEADER_SIZE + 2,
        ensures
            r.wf(),
            r.pending() == Seq::<u8>::empty(),
            r.read_capacity() == read_buffer,
            r.write_capacity() == write_buffer,
            r.timeout() == read_timeout,
    {
        Self::with_buffers(read_timeout, vec![0u8; read_buffer], vec![0u8; write_buffer])
    }

    /// Creates a bus over the given buffers; the write buffer must hold at least
    /// an empty instruction frame.
    pub fn with_buffers(read_timeout: Duration, read_buffer: Vec<u8>, write_buffer: Vec<u8>) -> (r: Bus)
        requires
            write_buffer@.len() >= HEADER_SIZE + 2,
        ensures
            r.wf(),
            r.pending() == Seq::<u8>::empty(),
            r.read_capacity() == read_buffer@.len(),
            r.write_capacity() == write_buffer@.len(),
            r.timeout() == read_timeout,
    {
        let ghost len = write_buffer@.len();
        let mut write_buffer = write_buffer;
        let mut j: usize = 0;
        while j < 4
            invariant
                j <= 4,
                write_buffer@.len() == len,
                write_buffer@.len() >= HEADER_SIZE + 2,
                forall|k: int| 0 <= k < j ==> write_buffer@[k] == #[trigger] header_prefix()[k],
            decreases 4 - j,
        {
            write_buffer[j] = prefix_byte(j);
            j = j + 1;
        }
        assert(write_buffer@.take(4) =~= header_prefix());
        Bus { read_timeout, read_buffer, read_len: 0, write_buffer }
    }

    /// The timeout for reading one status frame.
    pub fn read_timeout(&self) -> (r: Duration)
        ensures
            r == self.timeout(),
    {
        self.read_timeout
    }

    /// Number of bytes that can still be received before the read buffer is full.
    pub fn read_space(&self) -> (r: usize)
        requires
            self.wf(),
        ensures
            r == self.read_capacity() - self.pending().len(),
    {
        self.read_buffer.len() - self.read_len
    }

    /// Takes the bytes that arrived from the stream, drops leading garbage and tells
    /// whether a whole status frame now starts the buffer.
    ///
    /// A frame whose length field is too small, or which could never fit in the
    /// read buffer, is reported, and its header prefix is dropped.
    pub fn receive(&mut self, data: &[u8]) -> (r: Result<bool, ReadError>)
        requires
            old(self).wf(),
            data@.len() <= old(self).read_capacity() - old(self).pending().len(),
        ensures
            final(self).wf(),
            final(self).read_capacity() == old(self).read_capacity(),
            final(self).write_capacity() == old(self).write_capacity(),
            final(self).timeout() == old(self).timeout(),
            ({
                let t = resync(old(self).pending() + data@);
                if has_status_header(t) && declared_len(t) < 4 {
                    &&& r == Err::<bool, ReadError>(ReadError::InvalidLength { length: declared_len(t) as u16 })
                    &&& final(self).pending() == t.skip(4)
                } else if has_status_header(t) && frame_len(t) > old(self).read_capacity() {
                    &&& r == Err::<bool, ReadError>(
                        ReadError::BufferTooSmall {
                            required: frame_len(t) as usize,
                            capacity: old(self).read_capacity() as usize,
                        },
                    )
                    &&& final(self).pending() == t.skip(4)
                } else {
                    &&& r == Ok::<bool, ReadError>(frame_complete(t))
                    &&& final(self).pending() == t
                }
            }),
    {
        let ghost before = self.read_buffer@;
        let start = self.read_len;
        let cap = self.read_buffer.len();
        let mut k: usize = 0;
        while k < data.len()
            invariant
                k <= data@.len(),
                cap == self.read_buffer@.len(),
                start == self.read_len,
                start + data@.len() <= self.read_buffer@.len(),
                self.read_buffer@.len() == before.len(),
                self.write_buffer == old(self).write_buffer,
                self.read_timeout == old(self).read_timeout,
                forall|m: int| 0 <= m < start ==> #[trigger] self.read_buffer@[m] == before[m],
                forall|m: int| 0 <= m < k ==> #[trigger] self.read_buffer@[start + m] == data@[m],
            decreases data@.len() - k,
        {
            self.read_buffer[start + k] = data[k];
            k = k + 1;
        }
        self.read_len = start + data.len();
        assert(self.pending() =~= old(self).pending() + data@) by {
            assert forall|m: int| 0 <= m < self.read_len implies #[trigger] self.pending()[m] == (old(self).pending() + data@)[m] by {
                if m >= start {
                    assert(self.read_buffer@[start + (m - start)] == data@[m - start]);
                }
            }
        }
        let ghost s = self.pending();
        self.remove_garbage();
        let ghost t = self.pending();
        proof {
            lemma_first_candidate_bounds(s, 0);
            assert forall|j: int| 0 <= j < 4 && j < t.len() implies t[j] == #[trigger] header_prefix()[j] by {
                assert(t[j] == s[garbage_len(s) + j]);
            }
            if t.len() >= 4 {
                assert(t.take(4) =~= header_prefix());
            }
        }
        if self.read_len < STATUS_HEADER_SIZE {
            return Ok(false);
        }
        let length: u16 = self.read_buffer[5] as u16 + (self.read_buffer[6] as u16) * 256;
        if length < 4 {
            self.consume_read_bytes(4);
            return Err(ReadError::InvalidLength { length });
        }
        let required: usize = 7 + length as usize;
        if required > self.read_buffer.len() {
            self.consume_read_bytes(4);
            return Err(ReadError::BufferTooSmall { required, capacity: self.read_buffer.len() });
        }
        Ok(self.read_len >= required)
    }

    /// Encodes an instruction frame into the write buffer and returns it, ready to
    /// be sent.
    ///
    /// Pending received bytes are dropped first, whatever the outcome: they belong
    /// to an earlier exchange.
    pub fn write_instruction(&mut self, packet_id: u8, instruction_id: u8, parameters: &[u8]) -> (r: Result<&[u8], WriteError>)
        requires
            old(self).wf(),
        ensures
            final(self).wf(),
            final(self).pending() == Seq::<u8>::empty(),
            final(self).read_capacity() == old(self).read_capacity(),
            final(self).write_capacity() == old(self).write_capacity(),
            final(self).timeout() == old(self).timeout(),
            match r {
                Ok(frame) => frame@ == instruction_frame(packet_id, instruction_id, parameters@),
                Err(WriteError::BufferTooSmall { capacity }) => {
                    &&& capacity == old(self).write_capacity()
                    &&& HEADER_SIZE + stuffed(parameters@).len() + 2 > capacity
                },
                Err(WriteError::MessageTooLarge { body_len }) => {
                    &&& HEADER_SIZE + stuffed(parameters@).len() + 2 <= old(self).write_capacity()
                    &&& body_len == stuffed(parameters@).len()
                    &&& body_len + 3 > 0xFFFF
                },
            },
    {
        self.read_len = 0;
        let cap = self.write_buffer.len();
        self.write_buffer[4] = packet_id;
        self.write_buffer[5] = 0;
        self.write_buffer[6] = 0;
        self.write_buffer[7] = instruction_id;
        let ghost head = self.write_buffer@.take(8);
        proof {
            assert(self.write_buffer@.take(4) == old(self).write_buffer@.take(4));
        }
        let stuffed_len = stuff_into(parameters, &mut self.write_buffer, HEADER_SIZE, cap - 2);
        proof {
            assert(self.write_buffer@.take(4) =~= header_prefix()) by {
                assert forall|m: int| 0 <= m < 4 implies #[trigger] self.write_buffer@.take(4)[m] == header_prefix()[m] by {
                    assert(self.write_buffer@.take(8)[m] == head[m]);
                    assert(old(self).write_buffer@.take(4)[m] == header_prefix()[m]);
                }
            }
        }
        let n = match stuffed_len {
            None => {
                return Err(WriteError::BufferTooSmall { capacity: cap });
            },
            Some(n) => n,
        };
        if n > 0xFFFF - 3 {
            return Err(WriteError::MessageTooLarge { body_len: n });
        }
        let ghost mid = self.write_buffer@;
        let ghost body = self.write_buffer@.subrange(8, 8 + n);
        let length: usize = n + 3;
        self.write_buffer[5] = (length % 256) as u8;
        self.write_buffer[6] = (length / 256) as u8;
        let end = HEADER_SIZE + n;
        let ghost expected_head = instruction_head(packet_id, instruction_id, parameters@);
        proof {
            let w = self.write_buffer@;
            assert(head[4] == packet_id);
            assert(head[7] == instruction_id);
            assert forall|m: int| 0 <= m < end implies #[trigger] w.subrange(0, end as int)[m] == expected_head[m] by {
                if m < 4 {
                    assert(w.take(4)[m] == header_prefix()[m]);
                } else if m == 4 || m == 7 {
                    assert(mid.take(8)[m] == head[m]);
                } else if m >= 8 {
                    assert(body[m - 8] == w[m]);
                    assert(stuffed(parameters@)[m - 8] == body[m - 8]);
                }
            }
            assert(w.subrange(0, end as int) =~= expected_head);
        }
        let checksum = calculate_checksum(0, slice_subrange(self.write_buffer.as_slice(), 0, end));
        self.write_buffer[end] = (checksum % 256) as u8;
        self.write_buffer[end + 1] = (checksum / 256) as u8;
        proof {
            assert(self.write_buffer@.take(4) =~= header_prefix()) by {
                assert forall|m: int| 0 <= m < 4 implies #[trigger] self.write_buffer@.take(4)[m] == header_prefix()[m] by {
                    assert(self.write_buffer@[m] == expected_head[m]);
                }
            }
            assert(self.write_buffer@.subrange(0, end + 2) =~= instruction_frame(packet_id, instruction_id, parameters@)) by {
                assert forall|m: int| 0 <= m < end implies #[trigger] self.write_buffer@.subrange(0, end + 2)[m] == expected_head[m] by {
                    assert(self.write_buffer@[m] == expected_head[m]);
                }
            }
        }
        Ok(slice_subrange(self.write_buffer.as_slice(), 0, end + 2))
    }

    /// Decodes the status frame at the start of the read buffer.
    ///
    /// The frame's bytes are consumed: at once when it is rejected, and when the
    /// returned response is dropped otherwise.
    pub fn read_status_response(&mut self) -> (r: Result<Response<'_>, ReadError>)
        requires
            old(self).wf(),
            frame_complete(old(self).pending()),
        ensures
            ({
                let t = old(self).pending();
                match r {
                    Ok(response) => {
                        &&& status_error(t) is None
                        &&& response.wf()
                        &&& response.bytes() == decoded_status(t)
                        &&& response.stuffed_len() == frame_len(t)
                        &&& response.remaining() == t.skip(frame_len(t))
                    },
                    Err(e) => {
                        &&& status_error(t) == Some(e)
                        &&& final(self).wf()
                        &&& final(self).pending() == t.skip(frame_len(t))
                        &&& final(self).read_capacity() == old(self).read_capacity()
                        &&& final(self).write_capacity() == old(self).write_capacity()
                        &&& final(self).timeout() == old(self).timeout()
                    },
                }
            }),
    {
        let ghost t = self.pending();
        let length: usize = self.read_buffer[5] as usize + (self.read_buffer[6] as usize) * 256;
        let total: usize = 7 + length;
        let parameters_end: usize = total - 2;
        assert(self.read_buffer@.take(parameters_end as int) == t.take(parameters_end as int));
        let message: u16 = self.read_buffer[parameters_end] as u16 + (self.read_buffer[parameters_end + 1] as u16) * 256;
        let computed = calculate_checksum(0, slice_subrange(self.read_buffer.as_slice(), 0, parameters_end));
        if message != computed {
            self.consume_read_bytes(total);
            return Err(ReadError::InvalidChecksum { message, computed });
        }
        let instruction = self.read_buffer[7];
        if instruction != STATUS_INSTRUCTION {
            self.consume_read_bytes(total);
            return Err(ReadError::InvalidInstruction { actual: instruction, expected: STATUS_INSTRUCTION });
        }
        let code = self.read_buffer[8];
        if code != 0 {
            self.consume_read_bytes(total);
            return Err(ReadError::MotorError { code });
        }
        let ghost before = self.read_buffer@;
        let parameter_count = unstuff_in_place(&mut self.read_buffer, STATUS_HEADER_SIZE, parameters_end);
        proof {
            assert(before.subrange(9, parameters_end as int) == t.subrange(9, parameters_end as int));
            assert(self.read_buffer@.take(9 + parameter_count) =~= decoded_status(t)) by {
                assert forall|m: int| 0 <= m < 9 + parameter_count implies #[trigger] self.read_buffer@.take(9 + parameter_count)[m] == decoded_status(t)[m] by {
                    if m < 9 {
                        assert(self.read_buffer@.take(9)[m] == before.take(9)[m]);
                    } else {
                        assert(self.read_buffer@.subrange(9, 9 + parameter_count)[m - 9] == self.read_buffer@[m]);
                    }
                }
            }
            assert(self.pending().skip(total as int) =~= t.skip(total as int)) by {
                assert forall|m: int| 0 <= m < t.len() - total implies #[trigger] self.pending().skip(total as int)[m] == t.skip(total as int)[m] by {
                    assert(self.read_buffer@.skip(parameters_end as int)[m + 2] == before.skip(parameters_end as int)[m + 2]);
                }
            }
        }
        Ok(Response { bus: self, stuffed_message_len: total, parameter_count })
    }

    /// Drops the first `len` pending bytes, moving the rest to the start of the buffer.
    fn consume_read_bytes(&mut self, len: usize)
        requires
            old(self).read_len <= old(self).read_buffer@.len(),
            len <= old(self).read_len,
        ensures
            final(self).read_len <= final(self).read_buffer@.len(),
            final(self).pending() == old(self).pending().skip(len as int),
            final(self).read_buffer@.len() == old(self).read_buffer@.len(),
            final(self).write_buffer == old(self).write_buffer,
            final(self).read_timeout == old(self).read_timeout,
        opens_invariants none
        no_unwind
    {
        let ghost before = self.read_buffer@;
        move_to_front(&mut self.read_buffer, len, self.read_len);
        self.read_len = self.read_len - len;
        assert(self.pending() =~= before.take(old(self).read_len as int).skip(len as int));
    }

    /// Drops leading garbage from the pending bytes.
    fn remove_garbage(&mut self)
        requires
            old(self).wf(),
        ensures
            final(self).wf(),
            final(self).pending() == resync(old(self).pending()),
            final(self).read_capacity() == old(self).read_capacity(),
            final(self).write_capacity() == old(self).write_capacity(),
            final(self).timeout() == old(self).timeout(),
    {
        let garbage = find_header(slice_subrange(self.read_buffer.as_slice(), 0, self.read_len));
        proof {
            assert(self.read_buffer@.subrange(0, self.read_len as int) == self.pending());
            lemma_first_candidate_bounds(self.pending(), 0);
        }
        self.consume_read_bytes(garbage);
    }
}

/// A status frame that sits at the start of a bus's read buffer.
///
/// When dropped, the frame's bytes are removed from the read buffer.
pub struct Response<'a> {
    bus: &'a mut Bus,
    /// Length of the frame as received, stuffing and checksum included.
    stuffed_message_len: usize,
    /// Number of parameters once the stuffing is removed.
    parameter_count: usize,
}

impl<'a> Response<'a> {
    #[verifier::type_invariant]
    spec fn inv(&self) -> bool {
        &&& self.bus.read_len <= self.bus.read_buffer@.len()
        &&& self.stuffed_message_len <= self.bus.read_len
    }

    pub closed spec fn wf(&self) -> bool {
        &&& self.bus.wf()
        &&& STATUS_HEADER_SIZE + self.parameter_count <= self.stuffed_message_len
        &&& self.stuffed_message_len <= self.bus.read_len
    }

    /// Header and parameters of the frame, without stuffing or checksum.
    pub closed spec fn bytes(&self) -> Seq<u8> {
        self.bus.read_buffer@.take(STATUS_HEADER_SIZE + self.parameter_count)
    }

    pub closed spec fn stuffed_len(&self) -> nat {
        self.stuffed_message_len as nat
    }

    /// The pending bytes of the bus, the frame included.
    pub closed spec fn bus_pending(&self) -> Seq<u8> {
        self.bus.pending()
    }

    /// The pending bytes that follow the frame.
    pub closed spec fn remaining(&self) -> Seq<u8> {
        self.bus.pending().skip(self.stuffed_message_len as int)
    }

    /// The raw bytes of the message: header and parameters, without checksum or stuffing.
    pub fn as_bytes(&self) -> (r: &[u8])
        requires
            self.wf(),
        ensures
            r@ == self.bytes(),
    {
        slice_subrange(self.bus.read_buffer.as_slice(), 0, STATUS_HEADER_SIZE + self.parameter_count)
    }

    /// The packet ID of the response.
    pub fn packet_id(&self) -> (r: u8)
        requires
            self.wf(),
        ensures
            r == self.bytes()[4],
    {
        self.as_bytes()[4]
    }

    /// The instruction ID of the response.
    pub fn instruction_id(&self) -> (r: u8)
        requires
            self.wf(),
        ensures
            r == self.bytes()[7],
    {
        self.as_bytes()[7]
    }

    /// The error field of the response.
    pub fn error(&self) -> (r: u8)
        requires
            self.wf(),
        ensures
            r == self.bytes()[8],
    {
        self.as_bytes()[8]
    }

    /// The parameters of the response.
    pub fn parameters(&self) -> (r: &[u8])
        requires
            self.wf(),
        ensures
            r@ == self.bytes().skip(STATUS_HEADER_SIZE as int),
    {
        slice_subrange(self.as_bytes(), STATUS_HEADER_SIZE, STATUS_HEADER_SIZE + self.parameter_count)
    }
}

impl<'a> Drop for Response<'a> {
    fn drop(&mut self)
        ensures
            old(self).wf() ==> final(self).bus_pending() == old(self).remaining(),
        opens_invariants none
        no_unwind
    {
        proof {
            use_type_invariant(&*self);
        }
        let len = self.stuffed_message_len;
        self.stuffed_message_len = 0;
        self.bus.consume_read_bytes(len);
    }
}

} // verus!
