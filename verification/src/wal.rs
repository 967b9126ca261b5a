//! The framing of the write-ahead log: each entry's encoded bytes are written
//! after their length, as four little-endian bytes. Reading the log splits it
//! back into entries; what is left after the last whole entry is less than a
//! length prefix, or a prefix whose entry was cut short.
//!
//! The entries themselves are encoded and decoded by the application.
use vstd::prelude::*;
use vstd::slice::{slice_subrange, slice_to_vec};

verus! {

/// The four little-endian bytes of `n`.
pub open spec fn le_bytes(n: nat) -> Seq<u8> {
    seq![(n % 256) as u8, ((n / 256) % 256) as u8, ((n / 65536) % 256) as u8, ((n / 16777216) % 256) as u8]
}

/// The number that four little-endian bytes hold.
pub open spec fn le_value(b: Seq<u8>) -> nat {
    (b[0] + b[1] * 256 + b[2] * 65536 + b[3] * 16777216) as nat
}

/// One entry as it stands in the log.
pub open spec fn frame(p: Seq<u8>) -> Seq<u8> {
    le_bytes(p.len()) + p
}

/// Entries one after the other.
pub open spec fn frames(ps: Seq<Seq<u8>>) -> Seq<u8>
    decreases ps.len(),
{
    if ps.len() == 0 {
        Seq::empty()
    } else {
        frame(ps[0]) + frames(ps.drop_first())
    }
}

/// What reading a log gives: the entries up to the point where fewer than
/// four bytes are left, or `None` where a length names more bytes than
/// follow it.
pub open spec fn unframe(b: Seq<u8>) -> Option<Seq<Seq<u8>>>
    decreases b.len(),
{
    if b.len() < 4 {
        Some(Seq::empty())
    } else {
        let n = le_value(b) as int;
        if 4 + n > b.len() {
            None
        } else {
            match unframe(b.skip(4 + n)) {
                Some(rest) => Some(seq![b.subrange(4, 4 + n)] + rest),
                None => None,
            }
        }
    }
}

/// A log whose last entry is cut short.
#[derive(Debug, Clone, Copy, PartialEq, Eq, Structural)]
pub enum TruncatedEntry {
    /// An entry at byte `offset` announces `needed` bytes; `available` follow.
    At { offset: usize, needed: u32, available: usize },
}

proof fn le_roundtrip(n: nat)
    requires
        n <= u32::MAX,
    ensures
        le_value(le_bytes(n)) == n,
        le_bytes(n).len() == 4,
{
    let b = le_bytes(n);
    assert(b[0] == n % 256);
    assert(b[1] == (n / 256) % 256);
    assert(b[2] == (n / 65536) % 256);
    assert(b[3] == (n / 16777216) % 256);
    assert((n % 256) + ((n / 256) % 256) * 256 + ((n / 65536) % 256) * 65536 + ((n / 16777216) % 256) * 16777216
        == n) by (nonlinear_arith)
        requires
            n <= 4294967295,
    ;
}

/// The bytes that stand in the log for one entry.
pub fn encode_frame(payload: &[u8]) -> (r: Vec<u8>)
    requires
        payload@.len() <= u32::MAX,
    ensures
        r@ == frame(payload@),
{
    let n: usize = payload.len();
    let mut r: Vec<u8> = Vec::new();
    r.push((n % 256) as u8);
    r.push(((n / 256) % 256) as u8);
    r.push(((n / 65536) % 256) as u8);
    r.push(((n / 16777216) % 256) as u8);
    let mut i: usize = 0;
    while i < payload.len()
        invariant
            n == payload@.len(),
            i <= n,
            r@ == le_bytes(n as nat) + payload@.take(i as int),
        decreases payload.len() - i,
    {
        r.push(payload[i]);
        proof {
            assert(payload@.take(i + 1) =~= payload@.take(i as int).push(payload@[i as int]));
        }
        i = i + 1;
    }
    proof {
        assert(payload@.take(n as int) =~= payload@);
    }
    r
}

/// The entries of a log, in the order they were written; an entry cut short
/// at the end is an error, a partial length prefix at the end is ignored.
pub fn decode_frames(bytes: &[u8]) -> (r: Result<Vec<Vec<u8>>, TruncatedEntry>)
    ensures
        match r {
            Ok(v) => unframe(bytes@) == Some(v@.map_values(|e: Vec<u8>| e@)),
            Err(_) => unframe(bytes@) is None,
        },
{
    let mut out: Vec<Vec<u8>> = Vec::new();
    let mut pos: usize = 0;
    let len = bytes.len();
    proof {
        assert(bytes@.skip(0) =~= bytes@);
        assert(out@.map_values(|e: Vec<u8>| e@) =~= Seq::<Seq<u8>>::empty());
    }
    while len - pos >= 4
        invariant
            len == bytes@.len(),
            pos <= len,
            unframe(bytes@) == match unframe(bytes@.skip(pos as int)) {
                Some(rest) => Some(out@.map_values(|e: Vec<u8>| e@) + rest),
                None => None::<Seq<Seq<u8>>>,
            },
        decreases len - pos,
    {
        let ghost tail = bytes@.skip(pos as int);
        let n: u32 = (bytes[pos] as u32) + (bytes[pos + 1] as u32) * 256 + (bytes[pos + 2] as u32) * 65536
            + (bytes[pos + 3] as u32) * 16777216;
        proof {
            assert(n == le_value(tail));
        }
        let avail = len - pos - 4;
        if (n as usize) > avail {
            return Err(TruncatedEntry::At { offset: pos, needed: n, available: avail });
        }
        let end = pos + 4 + (n as usize);
        let entry = slice_to_vec(slice_subrange(bytes, pos + 4, end));
        proof {
            assert(tail.subrange(4, 4 + n as int) =~= entry@);
            assert(tail.skip(4 + n as int) =~= bytes@.skip(end as int));
        }
        let ghost before = out@.map_values(|e: Vec<u8>| e@);
        out.push(entry);
        proof {
            assert(out@.map_values(|e: Vec<u8>| e@) =~= before.push(entry@));
            match unframe(bytes@.skip(end as int)) {
                Some(rest) => {
                    assert(before.push(entry@) + rest =~= before + (seq![entry@] + rest));
                },
                None => {},
            }
        }
        pos = end;
    }
    proof {
        assert(out@.map_values(|e: Vec<u8>| e@) + Seq::<Seq<u8>>::empty() =~= out@.map_values(|e: Vec<u8>| e@));
    }
    Ok(out)
}

/// Reading back a log gives the entries that were written to it, in order.
pub proof fn unframe_reads_back_frames(ps: Seq<Seq<u8>>)
    requires
        forall|i: int| 0 <= i < ps.len() ==> (#[trigger] ps[i]).len() <= u32::MAX,
    ensures
        unframe(frames(ps)) == Some(ps),
    decreases ps.len(),
{
    if ps.len() == 0 {
        assert(unframe(frames(ps)) == Some(Seq::<Seq<u8>>::empty()));
        assert(ps =~= Seq::<Seq<u8>>::empty());
    } else {
        let p = ps[0];
        let rest = ps.drop_first();
        assert forall|i: int| 0 <= i < rest.len() implies (#[trigger] rest[i]).len() <= u32::MAX by {
            assert(rest[i] == ps[i + 1]);
        }
        unframe_reads_back_frames(rest);
        le_roundtrip(p.len());
        let b = frames(ps);
        assert(b == le_bytes(p.len()) + p + frames(rest));
        assert(b.subrange(0, 4) =~= le_bytes(p.len()));
        assert(le_value(b) == le_value(le_bytes(p.len())));
        assert(b.subrange(4, 4 + p.len() as int) =~= p);
        assert(b.skip(4 + p.len() as int) =~= frames(rest));
        assert(seq![p] + rest =~= ps);
    }
}

/// Appending an entry to a log appends it to what reading gives.
pub proof fn appended_entry_is_read_last(ps: Seq<Seq<u8>>, p: Seq<u8>)
    requires
        forall|i: int| 0 <= i < ps.len() ==> (#[trigger] ps[i]).len() <= u32::MAX,
        p.len() <= u32::MAX,
    ensures
        unframe(frames(ps) + frame(p)) == Some(ps.push(p)),
{
    frames_push(ps, p);
    assert forall|i: int| 0 <= i < ps.push(p).len() implies (#[trigger] ps.push(p)[i]).len() <= u32::MAX by {
        if i < ps.len() {
            assert(ps.push(p)[i] == ps[i]);
        }
    }
    unframe_reads_back_frames(ps.push(p));
}

proof fn frames_push(ps: Seq<Seq<u8>>, p: Seq<u8>)
    ensures
        frames(ps.push(p)) == frames(ps) + frame(p),
    decreases ps.len(),
{
    if ps.len() == 0 {
        assert(ps.push(p).drop_first() =~= Seq::<Seq<u8>>::empty());
        assert(ps.push(p)[0] == p);
        assert(frames(ps.push(p).drop_first()) == Seq::<u8>::empty());
        assert(frames(ps.push(p)) =~= frame(p));
        assert(frames(ps) + frame(p) =~= frame(p));
    } else {
        frames_push(ps.drop_first(), p);
        assert(ps.push(p).drop_first() =~= ps.drop_first().push(p));
        assert(frames(ps.push(p)) =~= frame(ps[0]) + (frames(ps.drop_first()) + frame(p)));
    }
}

} // verus!
