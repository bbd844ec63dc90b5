//! Byte stuffing of frame bodies.
//!
//! Inside a body, every run `FF FF FD` is followed by an extra `FD`, so that a
//! body can never hold the header prefix `FF FF FD 00`.
use vstd::prelude::*;

verus! {

/// How much of the run `FF FF FD` the bytes seen so far end with (0, 1 or 2 bytes).
/// A completed run resets the count to 0.
pub open spec fn step(st: nat, b: u8) -> nat {
    if completes(st, b) {
        0
    } else if b == 0xFF {
        if st >= 2 { 2 } else { st + 1 }
    } else {
        0
    }
}

/// The byte `b` completes a run `FF FF FD`.
pub open spec fn completes(st: nat, b: u8) -> bool {
    st == 2 && b == 0xFD
}

/// The match state after the raw bytes `s`.
pub open spec fn match_state(s: Seq<u8>) -> nat
    decreases s.len(),
{
    if s.len() == 0 {
        0
    } else {
        step(match_state(s.drop_last()), s.last())
    }
}

/// The stuffed form of the raw bytes `s`.
pub open spec fn stuffed(s: Seq<u8>) -> Seq<u8>
    decreases s.len(),
{
    if s.len() == 0 {
        Seq::empty()
    } else {
        let prev = s.drop_last();
        if completes(match_state(prev), s.last()) {
            stuffed(prev) + seq![s.last(), 0xFDu8]
        } else {
            stuffed(prev).push(s.last())
        }
    }
}

/// State while reading stuffed bytes: 0 to 2 as in `step`, 3 right after a full run,
/// where an `FD` is an escape byte.
pub open spec fn unstep(st: nat, b: u8) -> nat {
    if st == 3 {
        if b == 0xFD {
            0
        } else if b == 0xFF {
            1
        } else {
            0
        }
    } else if completes(st, b) {
        3
    } else {
        step(st, b)
    }
}

/// Whether byte `b`, read in state `st`, is data (and not an escape byte).
pub open spec fn emits(st: nat, b: u8) -> bool {
    !(st == 3 && b == 0xFD)
}

pub open spec fn unstuff_state(t: Seq<u8>) -> nat
    decreases t.len(),
{
    if t.len() == 0 {
        0
    } else {
        unstep(unstuff_state(t.drop_last()), t.last())
    }
}

/// The raw bytes of the stuffed bytes `t`.
pub open spec fn unstuffed(t: Seq<u8>) -> Seq<u8>
    decreases t.len(),
{
    if t.len() == 0 {
        Seq::empty()
    } else {
        let prev = t.drop_last();
        if emits(unstuff_state(prev), t.last()) {
            unstuffed(prev).push(t.last())
        } else {
            unstuffed(prev)
        }
    }
}

proof fn lemma_match_state_bound(s: Seq<u8>)
    ensures
        match_state(s) <= 2,
    decreases s.len(),
{
    if s.len() > 0 {
        lemma_match_state_bound(s.drop_last());
    }
}

/// Unstuffing undoes stuffing.
pub proof fn lemma_unstuff_stuff(s: Seq<u8>)
    ensures
        unstuffed(stuffed(s)) == s,
        unstuff_state(stuffed(s)) == match_state(s),
    decreases s.len(),
{
    if s.len() > 0 {
        let prev = s.drop_last();
        let b = s.last();
        lemma_unstuff_stuff(prev);
        lemma_match_state_bound(prev);
        let t = stuffed(prev);
        let st = match_state(prev);
        if completes(st, b) {
            let t1 = t.push(b);
            let t2 = t1.push(0xFDu8);
            assert(t + seq![b, 0xFDu8] == t2);
            assert(t2.drop_last() == t1);
            assert(t1.drop_last() == t);
            assert(unstuff_state(t1) == 3);
            assert(unstuffed(t1) == s.drop_last().push(b));
            assert(s.drop_last().push(b) == s);
        } else {
            let t1 = t.push(b);
            assert(t1.drop_last() == t);
            assert(s.drop_last().push(b) == s);
        }
    }
}

/// Stuffing a prefix gives no more bytes than stuffing the whole.
pub proof fn lemma_stuffed_prefix_len(s: Seq<u8>, i: int)
    requires
        0 <= i <= s.len(),
    ensures
        stuffed(s.take(i)).len() <= stuffed(s).len(),
    decreases s.len(),
{
    if i < s.len() {
        let prev = s.drop_last();
        assert(prev.take(i) == s.take(i));
        lemma_stuffed_prefix_len(prev, i);
    } else {
        assert(s.take(i) == s);
    }
}

proof fn lemma_take_last<T>(s: Seq<T>, i: int)
    requires
        0 <= i < s.len(),
    ensures
        s.take(i + 1).drop_last() == s.take(i),
        s.take(i + 1).last() == s[i],
{
    assert(s.take(i + 1).drop_last() == s.take(i));
}

proof fn lemma_skip_next<T>(a: Seq<T>, b: Seq<T>, i: int)
    requires
        0 <= i < a.len(),
        a.len() == b.len(),
        a.skip(i) == b.skip(i),
    ensures
        a.skip(i + 1) == b.skip(i + 1),
{
    assert forall|k: int| 0 <= k < a.len() - (i + 1) implies #[trigger] a.skip(i + 1)[k] == b.skip(i + 1)[k] by {
        assert(a.skip(i)[k + 1] == b.skip(i)[k + 1]);
    }
    assert(a.skip(i + 1) =~= b.skip(i + 1));
}

fn next_state(st: u8, b: u8) -> (r: u8)
    requires
        st <= 2,
    ensures
        r as nat == step(st as nat, b),
        r <= 2,
{
    if st == 2 && b == 0xFD {
        0
    } else if b == 0xFF {
        if st >= 2 { 2 } else { st + 1 }
    } else {
        0
    }
}

/// Writes the stuffed form of `src` into `dst` from index `start` on, if it ends
/// by `limit`; returns its length. Bytes before `start` are left alone.
pub fn stuff_into(src: &[u8], dst: &mut Vec<u8>, start: usize, limit: usize) -> (r: Option<usize>)
    requires
        start <= limit <= old(dst)@.len(),
    ensures
        final(dst)@.len() == old(dst)@.len(),
        final(dst)@.take(start as int) == old(dst)@.take(start as int),
        match r {
            Some(n) => {
                &&& n == stuffed(src@).len()
                &&& start + n <= limit
                &&& final(dst)@.subrange(start as int, start + n) == stuffed(src@)
            },
            None => start + stuffed(src@).len() > limit,
        },
{
    let mut i: usize = 0;
    let mut j: usize = start;
    let mut st: u8 = 0;
    while i < src.len()
        invariant
            i <= src@.len(),
            start <= j <= limit <= dst@.len(),
            dst@.len() == old(dst)@.len(),
            dst@.take(start as int) == old(dst)@.take(start as int),
            j - start == stuffed(src@.take(i as int)).len(),
            dst@.subrange(start as int, j as int) == stuffed(src@.take(i as int)),
            st as nat == match_state(src@.take(i as int)),
            st <= 2,
        decreases src@.len() - i,
    {
        let b = src[i];
        proof {
            lemma_take_last(src@, i as int);
        }
        let ghost before = dst@;
        if st == 2 && b == 0xFD {
            if limit - j < 2 {
                proof {
                    lemma_stuffed_prefix_len(src@, i + 1);
                    assert(src@.take(src@.len() as int) == src@);
                }
                return None;
            }
            dst[j] = b;
            dst[j + 1] = 0xFD;
            proof {
                assert(dst@.subrange(start as int, j + 2) == before.subrange(start as int, j as int)
                    + seq![b, 0xFDu8]);
                assert(dst@.take(start as int) == before.take(start as int));
            }
            j = j + 2;
        } else {
            if limit - j < 1 {
                proof {
                    lemma_stuffed_prefix_len(src@, i + 1);
                    assert(src@.take(src@.len() as int) == src@);
                }
                return None;
            }
            dst[j] = b;
            proof {
                assert(dst@.subrange(start as int, j + 1) == before.subrange(start as int, j as int).push(b));
                assert(dst@.take(start as int) == before.take(start as int));
            }
            j = j + 1;
        }
        st = next_state(st, b);
        i = i + 1;
    }
    proof {
        assert(src@.take(src@.len() as int) == src@);
    }
    Some(j - start)
}

/// Removes the stuffing from `buf[start..end]` in place: the raw bytes end up at
/// `buf[start..start + n]`; bytes outside `start..end` are left alone.
pub fn unstuff_in_place(buf: &mut Vec<u8>, start: usize, end: usize) -> (n: usize)
    requires
        start <= end <= old(buf)@.len(),
    ensures
        final(buf)@.len() == old(buf)@.len(),
        n == unstuffed(old(buf)@.subrange(start as int, end as int)).len(),
        n <= end - start,
        final(buf)@.subrange(start as int, start + n) == unstuffed(
            old(buf)@.subrange(start as int, end as int),
        ),
        final(buf)@.take(start as int) == old(buf)@.take(start as int),
        final(buf)@.skip(end as int) == old(buf)@.skip(end as int),
{
    let ghost body = old(buf)@.subrange(start as int, end as int);
    let mut i: usize = start;
    let mut w: usize = start;
    let mut st: u8 = 0;
    while i < end
        invariant
            start <= w <= i <= end <= buf@.len(),
            buf@.len() == old(buf)@.len(),
            body == old(buf)@.subrange(start as int, end as int),
            buf@.take(start as int) == old(buf)@.take(start as int),
            buf@.skip(i as int) == old(buf)@.skip(i as int),
            w - start == unstuffed(body.take(i - start)).len(),
            buf@.subrange(start as int, w as int) == unstuffed(body.take(i - start)),
            st as nat == unstuff_state(body.take(i - start)),
            st <= 3,
        decreases end - i,
    {
        let ghost before = buf@;
        let b = buf[i];
        proof {
            assert(before[i as int] == before.skip(i as int)[0]);
            assert(b == body[i - start]);
            lemma_take_last(body, i - start);
        }
        if !(st == 3 && b == 0xFD) {
            buf[w] = b;
            proof {
                assert(buf@.subrange(start as int, w + 1) == before.subrange(start as int, w as int).push(b));
                assert(buf@.take(start as int) == before.take(start as int));
                assert(buf@.skip(i + 1) == before.skip(i + 1));
                lemma_skip_next(before, old(buf)@, i as int);
            }
            w = w + 1;
        } else {
            proof {
                lemma_skip_next(buf@, old(buf)@, i as int);
            }
        }
        st = if st == 3 {
            if b == 0xFF { 1 } else { 0 }
        } else if st == 2 && b == 0xFD {
            3
        } else if b == 0xFF {
            if st >= 2 { 2 } else { st + 1 }
        } else {
            0
        };
        i = i + 1;
    }
    proof {
        assert(body.take(end - start) == body);
        assert(buf@.skip(end as int) == old(buf)@.skip(end as int));
    }
    w - start
}

} // verus!
