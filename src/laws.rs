//! Properties of framing, resynchronisation and decoding, stated over the
//! specifications that the bus's operations are verified against.
use vstd::prelude::*;
use crate::bytestuff::{stuffed, unstuffed, lemma_unstuff_stuff};
use crate::checksum::crc16;
use crate::bus::{
    header_prefix, header_candidate, first_candidate_from, garbage_len, resync, le16, le16_bytes,
    frame_complete, frame_len, stored_checksum, computed_checksum, status_error, decoded_status,
    instruction_head, instruction_frame, lemma_first_candidate_bounds,
};
use crate::error::ReadError;

verus! {

proof fn lemma_le16_bytes(v: int)
    requires
        0 <= v < 0x10000,
    ensures
        le16(le16_bytes(v)[0], le16_bytes(v)[1]) == v,
{
    let lo = v % 256;
    let hi = v / 256;
    assert(0 <= lo < 256 && 0 <= hi < 256 && v == lo + 256 * hi) by (nonlinear_arith)
        requires
            0 <= v < 0x10000,
            lo == v % 256,
            hi == v / 256,
    ;
}

/// An encoded instruction frame decodes to what it was made from: it starts with
/// the header prefix, carries the packet and instruction IDs, its length field
/// covers the rest of it, its checksum matches, and unstuffing its body gives
/// back the parameters.
pub proof fn lemma_instruction_round_trip(packet_id: u8, instruction_id: u8, parameters: Seq<u8>)
    requires
        stuffed(parameters).len() + 3 <= 0xFFFF,
    ensures
        ({
            let f = instruction_frame(packet_id, instruction_id, parameters);
            &&& f.take(4) == header_prefix()
            &&& f[4] == packet_id
            &&& f[7] == instruction_id
            &&& 7 + le16(f[5], f[6]) == f.len()
            &&& le16(f[f.len() - 2], f[f.len() - 1]) == crc16(0, f.take(f.len() - 2)) as int
            &&& unstuffed(f.subrange(8, f.len() - 2)) == parameters
        }),
{
    let body = stuffed(parameters);
    let head = instruction_head(packet_id, instruction_id, parameters);
    let f = instruction_frame(packet_id, instruction_id, parameters);
    let c = crc16(0, head) as int;
    assert(head.len() == 8 + body.len());
    assert(f.take(4) =~= header_prefix());
    assert(f.take(f.len() - 2) =~= head);
    assert(f.subrange(8, f.len() - 2) =~= body);
    lemma_le16_bytes(body.len() + 3int);
    lemma_le16_bytes(c);
    assert(f[5] == le16_bytes(body.len() + 3int)[0]);
    assert(f[6] == le16_bytes(body.len() + 3int)[1]);
    assert(f[f.len() - 2] == le16_bytes(c)[0]);
    assert(f[f.len() - 1] == le16_bytes(c)[1]);
    lemma_unstuff_stuff(parameters);
}

proof fn lemma_first_candidate_is(s: Seq<u8>, i: int, c: int)
    requires
        0 <= i <= c <= s.len(),
        header_candidate(s, c),
        forall|k: int| i <= k < c ==> !#[trigger] header_candidate(s, k),
    ensures
        first_candidate_from(s, i) == c,
    decreases c - i,
{
    if i < c {
        lemma_first_candidate_is(s, i + 1, c);
    }
}

/// Garbage that holds no whole header prefix is dropped entirely in front of a
/// frame, and the frame is kept whole.
pub proof fn lemma_resync_garbage(garbage: Seq<u8>, frame: Seq<u8>)
    requires
        frame.len() >= 4,
        frame.take(4) == header_prefix(),
        forall|i: int| 0 <= i && i + 4 <= garbage.len() ==> #[trigger] garbage.subrange(i, i + 4) != header_prefix(),
    ensures
        garbage_len(garbage + frame) == garbage.len(),
        resync(garbage + frame) == frame,
{
    let s = garbage + frame;
    let g = garbage.len() as int;
    assert(frame[0] == header_prefix()[0]);
    assert(frame[1] == header_prefix()[1]);
    assert forall|k: int| 0 <= k < g implies !#[trigger] header_candidate(s, k) by {
        if header_candidate(s, k) {
            if k + 4 <= g {
                assert(garbage.subrange(k, k + 4) =~= header_prefix()) by {
                    assert forall|j: int| 0 <= j < 4 implies #[trigger] garbage.subrange(k, k + 4)[j] == header_prefix()[j] by {
                        assert(s[k + j] == header_prefix()[j]);
                    }
                }
            } else {
                let j = g - k;
                assert(s[k + j] == header_prefix()[j]);
                assert(s[k + j + 1] == header_prefix()[j + 1]) by {
                    if j < 3 {
                        assert(s[k + (j + 1)] == header_prefix()[j + 1]);
                    }
                };
            }
        }
    }
    assert(header_candidate(s, g)) by {
        assert forall|j: int| 0 <= j < 4 && g + j < s.len() implies s[g + j] == #[trigger] header_prefix()[j] by {
            assert(frame.take(4)[j] == header_prefix()[j]);
        }
    }
    lemma_first_candidate_is(s, 0, g);
    assert(s.skip(g) =~= frame);
}

/// Resynchronising after each of two pieces leaves the same bytes as
/// resynchronising once after both: a frame split over two reads is found as if
/// it came in one.
pub proof fn lemma_resync_split(s: Seq<u8>, b: Seq<u8>)
    ensures
        resync(resync(s) + b) == resync(s + b),
{
    let g = garbage_len(s);
    lemma_first_candidate_bounds(s, 0);
    let y = s.skip(g) + b;
    let sb = s + b;
    lemma_first_candidate_bounds(y, 0);
    let c = garbage_len(y);
    assert(sb.skip(g) =~= y);
    assert forall|k: int| 0 <= k < g implies !#[trigger] header_candidate(sb, k) by {
        if header_candidate(sb, k) {
            assert forall|j: int| 0 <= j < 4 && k + j < s.len() implies s[k + j] == #[trigger] header_prefix()[j] by {
                assert(sb[k + j] == header_prefix()[j]);
            }
            assert(header_candidate(s, k));
        }
    }
    assert forall|k: int| 0 <= k <= y.len() implies #[trigger] header_candidate(sb, g + k) == header_candidate(y, k) by {
        assert forall|j: int| 0 <= j < 4 && k + j < y.len() implies sb[g + k + j] == #[trigger] y[k + j] by {
            assert(sb.skip(g)[k + j] == y[k + j]);
        }
        if header_candidate(y, k) {
            assert forall|j: int| 0 <= j < 4 && g + k + j < sb.len() implies sb[g + k + j] == #[trigger] header_prefix()[j] by {
                assert(sb[g + k + j] == y[k + j]);
            }
        }
        if header_candidate(sb, g + k) {
            assert forall|j: int| 0 <= j < 4 && k + j < y.len() implies y[k + j] == #[trigger] header_prefix()[j] by {
                assert(sb[g + k + j] == y[k + j]);
                assert(sb[(g + k) + j] == header_prefix()[j]);
            }
        }
    }
    assert forall|k: int| 0 <= k < g + c implies !#[trigger] header_candidate(sb, k) by {
        if k >= g {
            assert(header_candidate(sb, g + (k - g)) == header_candidate(y, k - g));
        }
    }
    assert(header_candidate(sb, g + c));
    lemma_first_candidate_is(sb, 0, g + c);
    assert(sb.skip(g + c) =~= y.skip(c));
}

/// A frame whose stored checksum does not match is rejected with a checksum
/// error, and exactly its bytes are dropped: what followed it is what stays.
pub proof fn lemma_bad_checksum_dropped(frame: Seq<u8>, rest: Seq<u8>)
    requires
        frame_complete(frame),
        frame.len() == frame_len(frame),
        stored_checksum(frame) != computed_checksum(frame) as int,
    ensures
        ({
            let t = frame + rest;
            &&& frame_complete(t)
            &&& frame_len(t) == frame.len()
            &&& status_error(t) == Some(
                ReadError::InvalidChecksum {
                    message: stored_checksum(frame) as u16,
                    computed: computed_checksum(frame),
                },
            )
            &&& t.skip(frame_len(t)) == rest
        }),
{
    let t = frame + rest;
    assert(t.take(4) =~= frame.take(4));
    assert(t.take(frame_len(t) - 2) =~= frame.take(frame_len(frame) - 2));
    assert(t.skip(frame_len(t)) =~= rest);
}

/// With two whole frames pending, the first is the one decoded, with the same
/// outcome as if it were alone, and the second is exactly what remains once the
/// first is consumed.
pub proof fn lemma_back_to_back(first: Seq<u8>, second: Seq<u8>)
    requires
        frame_complete(first),
        first.len() == frame_len(first),
    ensures
        ({
            let t = first + second;
            &&& frame_complete(t)
            &&& frame_len(t) == first.len()
            &&& status_error(t) == status_error(first)
            &&& decoded_status(t) == decoded_status(first)
            &&& t.skip(frame_len(t)) == second
        }),
{
    let t = first + second;
    assert(t.take(4) =~= first.take(4));
    assert(t.take(frame_len(t) - 2) =~= first.take(frame_len(first) - 2));
    assert(t.take(9) =~= first.take(9));
    assert(t.subrange(9, frame_len(t) - 2) =~= first.subrange(9, frame_len(first) - 2));
    assert(t.skip(frame_len(t)) =~= second);
}

} // verus!
