//! Byte ring between the tap inside the navigation process and its readers.
//!
//! The writer never waits: it copies the newest bytes in and advances `head`.
//! A reader keeps its own `tail`; one that lags by more than a whole ring is
//! moved up to the oldest byte still present and told how many it missed.
//!
//! `plan_write` and `plan_read` do the index arithmetic alone, for callers whose
//! bytes live in a shared mapping; [`Ring`] is the same ring over owned memory.
use vstd::prelude::*;

verus! {

/// Capacity of one ring in bytes (256 KiB, a power of two).
pub const RING_SIZE: usize = 262144;

/// Selects the slot of a stream position.
pub const RING_MASK: u64 = 262143;

pub open spec fn min_nat(a: nat, b: nat) -> nat {
    if a < b {
        a
    } else {
        b
    }
}

/// How many of `len` offered bytes a write stores: at most one full ring.
pub open spec fn stored(len: nat) -> nat {
    min_nat(len, RING_SIZE as nat)
}

/// The last `n` items of `s`, or all of `s` when it is shorter.
pub open spec fn last_n(s: Seq<u8>, n: nat) -> Seq<u8> {
    if s.len() <= n {
        s
    } else {
        s.subrange(s.len() - n, s.len() as int)
    }
}

/// Where the bytes of one write go.
pub struct WritePlan {
    /// First byte of the caller's buffer that is stored.
    pub start: usize,
    /// Slot of that byte.
    pub off: usize,
    /// Bytes copied before the ring wraps.
    pub first: usize,
    /// Bytes copied from slot zero on after the wrap.
    pub rest: usize,
    /// `head` once the bytes are in place.
    pub head: u64,
}

/// Where the bytes of one read come from.
pub struct ReadPlan {
    /// Bytes that were overwritten before this reader got to them.
    pub lost: u64,
    /// Stream position of the first byte copied.
    pub from: u64,
    /// Slot of that byte.
    pub off: usize,
    /// Bytes copied before the ring wraps.
    pub first: usize,
    /// Bytes copied from slot zero on after the wrap.
    pub rest: usize,
    /// The reader's `tail` afterwards.
    pub tail: u64,
}

impl ReadPlan {
    pub open spec fn copied(&self) -> nat {
        (self.first + self.rest) as nat
    }
}

/// How far a reader is behind. Positions are 64-bit and wrap.
pub open spec fn lag(head: u64, tail: u64) -> nat {
    if tail <= head {
        (head - tail) as nat
    } else {
        (head + 0x1_0000_0000_0000_0000 - tail) as nat
    }
}

/// A `tail` a read can be made from: one at or behind `head`, or one so far past
/// it that it counts as lagging a full ring behind.
pub open spec fn readable(head: u64, tail: u64) -> bool {
    tail <= head || (head >= RING_SIZE && lag(head, tail) > RING_SIZE)
}

/// Bytes missed by a reader at `tail`.
pub open spec fn lost_bytes(head: u64, tail: u64) -> nat {
    if lag(head, tail) > RING_SIZE {
        (lag(head, tail) - RING_SIZE) as nat
    } else {
        0
    }
}

/// The position a reader at `tail` reads from.
pub open spec fn read_from(head: u64, tail: u64) -> int {
    if lag(head, tail) > RING_SIZE {
        head - RING_SIZE
    } else {
        tail as int
    }
}

/// How many bytes a read into a buffer of `room` bytes copies.
pub open spec fn read_count(head: u64, tail: u64, room: nat) -> nat {
    min_nat((head - read_from(head, tail)) as nat, room)
}

fn slot_of(pos: u64) -> (off: usize)
    ensures
        off == pos as int % RING_SIZE as int,
        off < RING_SIZE,
{
    assert(pos & 262143 == pos % 262144) by (bit_vector);
    (pos & RING_MASK) as usize
}

/// Lays out a write of `len` bytes at `head`: only the freshest `RING_SIZE` bytes
/// are stored, in at most two pieces.
pub fn plan_write(head: u64, len: usize) -> (p: WritePlan)
    requires
        head + stored(len as nat) <= u64::MAX,
    ensures
        p.start == len - stored(len as nat),
        p.off == head as int % RING_SIZE as int,
        p.first == min_nat((RING_SIZE - p.off) as nat, stored(len as nat)),
        p.first + p.rest == stored(len as nat),
        p.head == head + stored(len as nat),
{
    let mut start: usize = 0;
    let mut n: usize = len;
    if n > RING_SIZE {
        start = n - RING_SIZE;
        n = RING_SIZE;
    }
    let off: usize = slot_of(head);
    let room: usize = RING_SIZE - off;
    let first: usize = if room < n { room } else { n };
    WritePlan { start, off, first, rest: n - first, head: head + n as u64 }
}

/// Lays out a read into `room` bytes for a reader at `tail`.
pub fn plan_read(head: u64, tail: u64, room: usize) -> (p: ReadPlan)
    requires
        readable(head, tail),
    ensures
        p.lost == lost_bytes(head, tail),
        p.from == read_from(head, tail),
        p.copied() == read_count(head, tail, room as nat),
        p.off == p.from as int % RING_SIZE as int,
        p.first == min_nat((RING_SIZE - p.off) as nat, p.copied()),
        p.tail == p.from + p.copied(),
        p.tail <= head,
{
    let mut lost: u64 = 0;
    let mut from: u64 = tail;
    let behind: u64 = head.wrapping_sub(tail);
    assert(behind == lag(head, tail));
    if behind > RING_SIZE as u64 {
        lost = behind - RING_SIZE as u64;
        from = head - RING_SIZE as u64;
    }
    let avail: usize = (head - from) as usize;
    let n: usize = if avail < room { avail } else { room };
    let off: usize = slot_of(from);
    let left: usize = RING_SIZE - off;
    let first: usize = if left < n { left } else { n };
    ReadPlan { lost, from, off, first, rest: n - first, tail: from + n as u64 }
}

/// Copies `n` bytes of `src` from `from` on into `dst` from `at` on.
fn copy_bytes(dst: &mut [u8], at: usize, src: &[u8], from: usize, n: usize)
    requires
        at + n <= old(dst)@.len(),
        from + n <= src@.len(),
    ensures
        final(dst)@.len() == old(dst)@.len(),
        forall|i: int|
            #![trigger final(dst)@[i]]
            0 <= i < old(dst)@.len() ==> final(dst)@[i] == (if at <= i < at + n {
                src@[from + i - at]
            } else {
                old(dst)@[i]
            }),
{
    let ghost before = dst@;
    let (room, have): (usize, usize) = (dst.len(), src.len());
    let mut k: usize = 0;
    while k < n
        invariant
            k <= n,
            at + n <= room == dst@.len(),
            from + n <= have == src@.len(),
            dst@.len() == before.len(),
            forall|i: int|
                #![trigger dst@[i]]
                0 <= i < before.len() ==> dst@[i] == (if at <= i < at + k {
                    src@[from + i - at]
                } else {
                    before[i]
                }),
        decreases n - k,
    {
        dst[at + k] = src[from + k];
        k = k + 1;
    }
}

/// What a ring holds.
pub struct RingView {
    /// Bytes stored since the ring was made.
    pub head: u64,
    /// Times the device behind the ring was opened.
    pub opens: u64,
    /// The bytes still present, oldest first: the last ones stored, up to a full ring.
    pub recent: Seq<u8>,
}

impl RingView {
    /// A ring still has its last bytes, as many as there are and as fit.
    pub open spec fn wf(self) -> bool {
        self.recent.len() == min_nat(self.head as nat, RING_SIZE as nat)
    }

    /// The stream position of the oldest byte present.
    pub open spec fn oldest(self) -> int {
        self.head - self.recent.len()
    }

    /// What a reader at `tail` has in front of it, oldest first.
    pub open spec fn pending(self, tail: u64) -> Seq<u8> {
        self.recent.skip(read_from(self.head, tail) - self.oldest())
    }

    /// The ring after `buf` was appended.
    pub open spec fn appended(self, buf: Seq<u8>) -> RingView {
        RingView {
            head: (self.head + stored(buf.len())) as u64,
            opens: self.opens,
            recent: last_n(self.recent + buf, RING_SIZE as nat),
        }
    }
}

/// One ring over owned memory.
pub struct Ring {
    head: u64,
    opens: u64,
    data: Vec<u8>,
}

impl View for Ring {
    type V = RingView;

    closed spec fn view(&self) -> RingView {
        RingView {
            head: self.head,
            opens: self.opens,
            recent: Seq::new(
                min_nat(self.head as nat, RING_SIZE as nat),
                |i: int|
                    self.data@[(self.head - min_nat(self.head as nat, RING_SIZE as nat) + i)
                        % RING_SIZE as int],
            ),
        }
    }
}

impl Ring {
    pub closed spec fn wf(&self) -> bool {
        self.data@.len() == RING_SIZE
    }

    /// Every well-formed ring has a well-formed view.
    pub proof fn lemma_view_wf(&self)
        requires
            self.wf(),
        ensures
            self@.wf(),
    {
    }

    /// An empty ring.
    pub fn new() -> (r: Ring)
        ensures
            r.wf(),
            r@ == (RingView { head: 0, opens: 0, recent: Seq::empty() }),
    {
        let r: Ring = Ring { head: 0, opens: 0, data: vec![0u8; RING_SIZE] };
        assert(r@.recent =~= Seq::<u8>::empty());
        r
    }

    /// Appends `buf`, keeping its last `RING_SIZE` bytes if it is longer than the ring.
    pub fn write(&mut self, buf: &[u8])
        requires
            old(self).wf(),
            old(self)@.head + stored(buf@.len()) <= u64::MAX,
        ensures
            final(self).wf(),
            final(self)@ == old(self)@.appended(buf@),
            final(self)@.head == old(self)@.head + stored(buf@.len()),
    {
        let ghost before = *self;
        let p: WritePlan = plan_write(self.head, buf.len());
        copy_bytes(self.data.as_mut_slice(), p.off, buf, p.start, p.first);
        copy_bytes(self.data.as_mut_slice(), 0, buf, p.start + p.first, p.rest);
        self.head = p.head;
        proof {
            let n = stored(buf@.len()) as int;
            let r = RING_SIZE as int;
            let want = last_n(before@.recent + buf@, RING_SIZE as nat);
            let kept = min_nat(self.head as nat, RING_SIZE as nat) as int;
            let had = min_nat(before.head as nat, RING_SIZE as nat) as int;
            assert(self@.recent.len() == want.len());
            assert forall|i: int| 0 <= i < kept implies self@.recent[i] == want[i] by {
                let pos = self.head - kept + i;
                lemma_slot(before.head as int, pos, n);
                if pos >= before.head {
                    assert(self.data@[pos % r] == buf@[p.start + (pos - before.head)]);
                } else {
                    assert(self.data@[pos % r] == before.data@[pos % r]);
                    assert(before@.recent[pos - (before.head - had)] == before.data@[pos % r]);
                }
            }
            assert(self@.recent =~= want);
        }
    }

    /// Bytes stored so far.
    pub fn head(&self) -> (h: u64)
        ensures
            h == self@.head,
    {
        self.head
    }

    /// Times the device behind this ring was opened.
    pub fn opens(&self) -> (n: u64)
        ensures
            n == self@.opens,
    {
        self.opens
    }

    /// Copies the bytes from `*tail` up to `head`, as far as `out` has room, and moves
    /// `*tail` behind them. The result is how many were copied and how many this reader
    /// missed because it lagged more than one ring behind.
    pub fn read(&self, tail: &mut u64, out: &mut [u8]) -> (r: (usize, u64))
        requires
            self.wf(),
            readable(self@.head, *old(tail)),
        ensures
            r.0 == read_count(self@.head, *old(tail), old(out)@.len()),
            r.1 == lost_bytes(self@.head, *old(tail)),
            *final(tail) == read_from(self@.head, *old(tail)) + r.0,
            *final(tail) <= self@.head,
            final(out)@ == self@.pending(*old(tail)).take(r.0 as int) + old(out)@.skip(r.0 as int),
    {
        let ghost before = out@;
        let ghost start = *tail;
        let p: ReadPlan = plan_read(self.head, *tail, out.len());
        copy_bytes(out, 0, self.data.as_slice(), p.off, p.first);
        copy_bytes(out, p.first, self.data.as_slice(), 0, p.rest);
        let n: usize = p.first + p.rest;
        proof {
            let r = RING_SIZE as int;
            let bytes = self@.pending(start);
            assert forall|i: int| 0 <= i < n implies out@[i] == bytes[i] by {
                lemma_slot(p.from as int, p.from + i, n as int);
                assert(bytes[i] == self@.recent[p.from - self@.oldest() + i]);
                assert(self@.recent[p.from - self@.oldest() + i] == self.data@[(p.from + i) % r]);
            }
            assert(out@ =~= bytes.take(n as int) + before.skip(n as int));
        }
        *tail = p.tail;
        (n, p.lost)
    }

    /// Notes that the device behind this ring was opened.
    pub fn note_open(&mut self)
        requires
            old(self).wf(),
        ensures
            final(self).wf(),
            final(self)@ == (RingView {
                opens: if old(self)@.opens == u64::MAX {
                    0
                } else {
                    (old(self)@.opens + 1) as u64
                },
                ..old(self)@
            }),
    {
        self.opens = self.opens.wrapping_add(1);
        assert(self@.recent =~= old(self)@.recent);
    }
}

/// Slots of the positions around a window of `n <= RING_SIZE` positions from `base` on.
proof fn lemma_slot(base: int, pos: int, n: int)
    requires
        0 <= base,
        0 <= n <= RING_SIZE,
        base + n - RING_SIZE <= pos < base + n,
        0 <= pos,
    ensures
        ({
            let r = RING_SIZE as int;
            let off = base % r;
            let first = min_nat((r - off) as nat, n as nat) as int;
            &&& 0 <= pos % r < r
            &&& pos >= base && pos - base < first ==> pos % r == off + (pos - base)
            &&& pos >= base && pos - base >= first ==> pos % r == pos - base - first
            &&& pos < base ==> !(off <= pos % r < off + first) && !(0 <= pos % r < n - first)
        }),
{
    let r = RING_SIZE as int;
    let off = base % r;
    let q = base / r;
    assert(base == q * r + off) by {
        vstd::arithmetic::div_mod::lemma_fundamental_div_mod(base, r);
    }
    let d = pos - q * r;
    // d lies within one ring either side of [0, r)
    if d >= r {
        assert(pos % r == d - r) by {
            vstd::arithmetic::div_mod::lemma_fundamental_div_mod_converse(pos, r, q + 1, d - r);
        }
    } else if d >= 0 {
        assert(pos % r == d) by {
            vstd::arithmetic::div_mod::lemma_fundamental_div_mod_converse(pos, r, q, d);
        }
    } else {
        assert(pos % r == d + r) by {
            vstd::arithmetic::div_mod::lemma_fundamental_div_mod_converse(pos, r, q - 1, d + r);
        }
    }
}

/// Appending keeps a ring well-formed.
pub proof fn law_append_wf(v: RingView, buf: Seq<u8>)
    requires
        v.wf(),
        v.head + stored(buf.len()) <= u64::MAX,
    ensures
        v.appended(buf).wf(),
{
}

/// A reader that was up to date reads back exactly what is written next, and misses
/// nothing, as long as the write fits the ring.
pub proof fn law_read_returns_write(v: RingView, buf: Seq<u8>)
    requires
        v.wf(),
        v.head + buf.len() <= u64::MAX,
        buf.len() <= RING_SIZE,
    ensures
        readable(v.appended(buf).head, v.head),
        v.appended(buf).pending(v.head) == buf,
        lost_bytes(v.appended(buf).head, v.head) == 0,
        read_count(v.appended(buf).head, v.head, buf.len()) == buf.len(),
{
    assert(v.appended(buf).pending(v.head) =~= buf);
}

/// While a reader stays within one ring of the writer, each write adds its bytes, in
/// order, behind those the reader has not read yet, and none are lost.
pub proof fn law_backlog_grows_in_order(v: RingView, tail: u64, buf: Seq<u8>)
    requires
        v.wf(),
        tail <= v.head,
        v.head - tail + buf.len() <= RING_SIZE,
        v.head + buf.len() <= u64::MAX,
    ensures
        v.appended(buf).pending(tail) == v.pending(tail) + buf,
        lost_bytes(v.appended(buf).head, tail) == 0,
{
    assert(v.appended(buf).pending(tail) =~= v.pending(tail) + buf);
}

/// Every byte between a reader and the writer is either still there to be read or
/// counted as lost.
pub proof fn law_lag_is_lost_or_pending(v: RingView, tail: u64)
    requires
        v.wf(),
        readable(v.head, tail),
    ensures
        lag(v.head, tail) == lost_bytes(v.head, tail) + v.pending(tail).len(),
        tail <= v.head ==> read_from(v.head, tail) == tail + lost_bytes(v.head, tail),
{
}

/// A reader that was lapped gets everything the ring still holds.
pub proof fn law_lapped_reader_gets_whole_ring(v: RingView, tail: u64)
    requires
        v.wf(),
        readable(v.head, tail),
        lost_bytes(v.head, tail) > 0,
    ensures
        v.pending(tail) == v.recent,
        v.pending(tail).len() == RING_SIZE,
{
    assert(v.pending(tail) =~= v.recent);
}

/// Reading in two steps gives the bytes of one step: after `n` bytes were taken, the
/// rest of the backlog is what comes next, and no further loss is reported.
pub proof fn law_reads_compose(v: RingView, tail: u64, n: nat)
    requires
        v.wf(),
        readable(v.head, tail),
        n <= v.pending(tail).len(),
    ensures
        ({
            let next = (read_from(v.head, tail) + n) as u64;
            &&& next <= v.head
            &&& v.pending(next) == v.pending(tail).skip(n as int)
            &&& lost_bytes(v.head, next) == 0
        }),
{
    let next = (read_from(v.head, tail) + n) as u64;
    assert(v.pending(next) =~= v.pending(tail).skip(n as int));
}

/// How a stream is cut into writes does not matter to what the ring holds; while the
/// pieces together fit the ring, it does not matter to `head` either.
pub proof fn law_writes_compose(v: RingView, a: Seq<u8>, b: Seq<u8>)
    requires
        v.wf(),
        v.head + stored(a.len()) + stored(b.len()) <= u64::MAX,
    ensures
        v.appended(a).appended(b).recent == v.appended(a + b).recent,
        a.len() + b.len() <= RING_SIZE ==> v.appended(a).appended(b) == v.appended(a + b),
{
    let n = RING_SIZE as nat;
    assert(last_n(last_n(v.recent + a, n) + b, n) =~= last_n(v.recent + (a + b), n));
}

/// The ring holds the end of the stream `s`, all of whose bytes were stored.
pub open spec fn holds(v: RingView, s: Seq<u8>) -> bool {
    v.head == s.len() && v.recent == last_n(s, RING_SIZE as nat)
}

/// A ring holds the end of the stream of everything stored in it: a new ring of the
/// empty stream, and after a write of the stream with the stored bytes behind it.
pub proof fn law_ring_holds_the_stream(v: RingView, s: Seq<u8>, buf: Seq<u8>)
    requires
        v.head + stored(buf.len()) <= u64::MAX,
    ensures
        v.head == 0 && v.recent.len() == 0 ==> holds(v, Seq::empty()),
        holds(v, s) ==> holds(v.appended(buf), s + last_n(buf, RING_SIZE as nat)),
{
    let n = RING_SIZE as nat;
    assert(v.recent.len() == 0 ==> v.recent =~= last_n(Seq::<u8>::empty(), n));
    assert(last_n(last_n(s, n) + buf, n) =~= last_n(s + last_n(buf, n), n));
}

/// A reader that is up to 262144 bytes behind misses none and reads on where it was; one
/// that is further behind misses what is beyond that and reads on from the oldest byte.
/// A read gives as much as there is, up to the room for it.
pub proof fn law_reader_by_how_far_behind(head: u64, tail: u64, room: nat)
    requires
        tail <= head,
    ensures
        head - tail <= 262144 ==> {
            &&& lost_bytes(head, tail) == 0
            &&& read_from(head, tail) == tail
            &&& room <= head - tail ==> read_count(head, tail, room) == room
            &&& room > head - tail ==> read_count(head, tail, room) == head - tail
        },
        head - tail > 262144 ==> {
            &&& lost_bytes(head, tail) == head - tail - 262144
            &&& read_from(head, tail) == head - 262144
            &&& room <= 262144 ==> read_count(head, tail, room) == room
            &&& room > 262144 ==> read_count(head, tail, room) == 262144
        },
{
}

/// A position that lies past the writer counts as one from before the count of bytes came
/// round.
pub proof fn law_positions_come_round(head: u64, tail: u64)
    requires
        tail > head,
    ensures
        lag(head, tail) + tail == head + u64::MAX + 1,
{
}

/// What a ring holds after a write: a write that fits stands behind what was there, of
/// which the oldest bytes make room; of one that does not fit, the last 262144 bytes
/// stand alone. The count grows by what was stored.
pub proof fn law_write_keeps_the_newest(v: RingView, buf: Seq<u8>)
    requires
        v.wf(),
        v.head + buf.len() <= u64::MAX,
    ensures
        ({
            let after = v.appended(buf);
            let n = v.recent.len() + buf.len();
            &&& after.opens == v.opens
            &&& n <= 262144 ==> after.recent == v.recent + buf
            &&& n > 262144 && buf.len() <= 262144 ==> after.recent == v.recent.skip(n - 262144)
                + buf
            &&& buf.len() > 262144 ==> after.recent == buf.skip(buf.len() - 262144)
            &&& buf.len() <= 262144 ==> after.head == v.head + buf.len()
            &&& buf.len() > 262144 ==> after.head == v.head + 262144
        }),
{
    let after = v.appended(buf);
    let n = v.recent.len() + buf.len();
    if n <= 262144 {
        assert(after.recent =~= v.recent + buf);
    } else if buf.len() <= 262144 {
        assert(after.recent =~= v.recent.skip(n - 262144) + buf);
    } else {
        assert(after.recent =~= buf.skip(buf.len() - 262144));
    }
}

} // verus!
