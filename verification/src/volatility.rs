//! Which bytes of each kind of frame change.
use vstd::prelude::*;
use crate::decode::payloads;
use crate::frame::{parse_body, FrameScanner, ScanView};
use crate::frame::{bodies_of, parsed, scan};
use crate::hexdump::push_hex_column;
use crate::hexdump::hex_column;
use crate::message::signed16;
use crate::text::{push_dec, push_dec_signed, push_hex2, push_number};
use crate::text::{dec, dec_signed, digit, hex2, pad_left, texts_of};

verus! {

/// What was seen of one type of frame.
#[verifier::ext_equal]
pub struct OffsetsView {
    /// How many frames.
    pub n: nat,
    /// The smallest byte at each offset.
    pub min: Seq<u8>,
    /// The largest.
    pub max: Seq<u8>,
    /// The latest.
    pub last: Seq<u8>,
}

/// `s` with `c` put behind up to `n` bytes.
pub open spec fn widened(s: Seq<u8>, n: nat, c: u8) -> Seq<u8> {
    if s.len() < n {
        s + Seq::new((n - s.len()) as nat, |i: int| c)
    } else {
        s
    }
}

impl OffsetsView {
    /// Nothing.
    pub open spec fn empty() -> OffsetsView {
        OffsetsView { n: 0, min: Seq::empty(), max: Seq::empty(), last: Seq::empty() }
    }

    /// One frame more.
    pub open spec fn with(self, p: Seq<u8>) -> OffsetsView {
        let min = widened(self.min, p.len(), 0xff);
        let max = widened(self.max, p.len(), 0);
        let last = widened(self.last, p.len(), 0);
        OffsetsView {
            n: self.n + 1,
            min: Seq::new(
                min.len(),
                |i: int|
                    if i < p.len() && p[i] < min[i] {
                        p[i]
                    } else {
                        min[i]
                    },
            ),
            max: Seq::new(
                max.len(),
                |i: int|
                    if i < p.len() && p[i] > max[i] {
                        p[i]
                    } else {
                        max[i]
                    },
            ),
            last: Seq::new(
                last.len(),
                |i: int|
                    if i < p.len() {
                        p[i]
                    } else {
                        last[i]
                    },
            ),
        }
    }

    /// The offsets of the three rows agree, and no byte is smaller than the smallest.
    pub open spec fn wf(self) -> bool {
        &&& self.min.len() == self.last.len()
        &&& self.max.len() == self.last.len()
        &&& self.last.len() <= 255
        &&& forall|i: int| 0 <= i < self.last.len() ==> #[trigger] self.min[i] <= self.max[i]
    }

    /// How far the bytes at an offset lie apart.
    pub open spec fn span(self, i: int) -> u8 {
        (self.max[i] - self.min[i]) as u8
    }
}

/// What was seen of one type of frame.
pub struct Offsets {
    n: u64,
    min: Vec<u8>,
    max: Vec<u8>,
    last: Vec<u8>,
}

impl View for Offsets {
    type V = OffsetsView;

    closed spec fn view(&self) -> OffsetsView {
        OffsetsView { n: self.n as nat, min: self.min@, max: self.max@, last: self.last@ }
    }
}

fn widen(v: &mut Vec<u8>, n: usize, c: u8)
    ensures
        final(v)@ == widened(old(v)@, n as nat, c),
{
    let ghost before = v@;
    while v.len() < n
        invariant
            before.len() <= v@.len(),
            v@.len() <= n || v@ == before,
            v@ == widened(before, v@.len(), c),
        decreases n - v.len(),
    {
        v.push(c);
        assert(v@ =~= widened(before, v@.len(), c));
    }
}

impl Offsets {
    /// Nothing seen.
    pub fn new() -> (o: Offsets)
        ensures
            o@ == OffsetsView::empty(),
            o@.wf(),
    {
        let o: Offsets = Offsets { n: 0, min: Vec::new(), max: Vec::new(), last: Vec::new() };
        assert(o@ =~= OffsetsView::empty());
        o
    }

    /// How many frames were seen.
    pub fn count(&self) -> (n: u64)
        ensures
            n as nat == self@.n,
    {
        self.n
    }

    /// Notes one frame.
    pub fn note(&mut self, p: &[u8])
        requires
            old(self)@.wf(),
            p@.len() <= 255,
            old(self)@.n < u64::MAX,
        ensures
            final(self)@ == old(self)@.with(p@),
            final(self)@.wf(),
    {
        let ghost start = self@;
        widen(&mut self.min, p.len(), 0xff);
        widen(&mut self.max, p.len(), 0);
        widen(&mut self.last, p.len(), 0);
        let ghost (min, max, last) = (self.min@, self.max@, self.last@);
        let mut i: usize = 0;
        while i < p.len()
            invariant
                i <= p@.len(),
                p@.len() <= min.len(),
                self.n == start.n,
                start.n < u64::MAX,
                min.len() == max.len(),
                min.len() == last.len(),
                self.min@.len() == min.len(),
                self.max@.len() == min.len(),
                self.last@.len() == min.len(),
                forall|j: int|
                    0 <= j < min.len() ==> #[trigger] self.min@[j] == (if j < i && p@[j] < min[j] {
                        p@[j]
                    } else {
                        min[j]
                    }),
                forall|j: int|
                    0 <= j < min.len() ==> #[trigger] self.max@[j] == (if j < i && p@[j] > max[j] {
                        p@[j]
                    } else {
                        max[j]
                    }),
                forall|j: int|
                    0 <= j < min.len() ==> #[trigger] self.last@[j] == (if j < i {
                        p@[j]
                    } else {
                        last[j]
                    }),
            decreases p.len() - i,
        {
            let x: u8 = p[i];
            if x < self.min[i] {
                self.min.set(i, x);
            }
            if x > self.max[i] {
                self.max.set(i, x);
            }
            self.last.set(i, x);
            i = i + 1;
        }
        self.n = self.n + 1;
        assert(self@ =~= start.with(p@));
        assert forall|j: int| 0 <= j < self@.last.len() implies #[trigger] self@.min[j]
            <= self@.max[j] by {
            if j < start.last.len() {
                assert(start.min[j] <= start.max[j]);
            }
        }
    }
}

// ---------------------------------------------------------------------------
// The report
// ---------------------------------------------------------------------------
/// The numbers of the offsets up to `n`.
pub open spec fn ruler(n: nat) -> Seq<char>
    decreases n,
{
    if n == 0 {
        Seq::empty()
    } else {
        ruler((n - 1) as nat) + pad_left(dec((n - 1) as nat), 2, '0').push(' ')
    }
}

/// How far the bytes lie apart at the offsets up to `n`; blank where they do not.
pub open spec fn spans(o: OffsetsView, n: nat) -> Seq<char>
    decreases n,
{
    if n == 0 {
        Seq::empty()
    } else {
        spans(o, (n - 1) as nat) + (if o.span(n - 1) == 0 {
            "   "@
        } else {
            hex2(o.span(n - 1)).push(' ')
        })
    }
}

/// The latest 16-bit number at offset `i`, low byte first.
pub open spec fn word_seen(o: OffsetsView, i: int) -> i16 {
    signed16((o.last[i] + 256 * o.last[i + 1]) as u16)
}

/// One candidate for a 16-bit number.
pub open spec fn candidate(o: OffsetsView, i: int) -> Seq<char> {
    "["@ + dec(i as nat) + ".."@ + dec((i + 1) as nat) + "]i16="@ + dec_signed(
        word_seen(o, i) as int,
    ) + " "@
}

/// The candidates among the first `n` pairs of bytes: the pairs that changed.
pub open spec fn candidates(o: OffsetsView, n: nat) -> Seq<char>
    decreases n,
{
    if n == 0 {
        Seq::empty()
    } else {
        let before = candidates(o, (n - 1) as nat);
        let i = 2 * (n - 1);
        if o.span(i) != 0 || o.span(i + 1) != 0 {
            before + candidate(o, i)
        } else {
            before
        }
    }
}

/// The lines that show one type of frame.
pub open spec fn offset_lines(typ: u8, o: OffsetsView) -> Seq<Seq<char>> {
    let len = o.last.len();
    let rows = seq![
        "0x"@ + hex2(typ) + " len="@ + dec(len) + " n="@ + dec(o.n),
        "  off : "@ + ruler(len),
        "  last: "@ + hex_column(o.last),
        "  span: "@ + spans(o, len),
    ];
    let found = candidates(o, len / 2);
    if found.len() > 0 {
        rows.push("  i16 : "@ + found)
    } else {
        rows
    }
}

fn push_ruler(s: &mut String, n: usize)
    ensures
        final(s)@ == old(s)@ + ruler(n as nat),
{
    let ghost before = s@;
    let mut i: usize = 0;
    assert(before + ruler(0) =~= before);
    while i < n
        invariant
            i <= n,
            s@ == before + ruler(i as nat),
        decreases n - i,
    {
        push_number(s, i as u64, 10, 2, '0');
        s.push(' ');
        i = i + 1;
        assert(s@ =~= before + ruler(i as nat));
    }
}

fn signed(v: u16) -> (r: i16)
    ensures
        r == signed16(v),
{
    if v < 0x8000 {
        v as i16
    } else {
        (v as i32 - 65536) as i16
    }
}

impl Offsets {
    fn push_spans(&self, s: &mut String)
        requires
            self@.wf(),
        ensures
            final(s)@ == old(s)@ + spans(self@, self@.last.len()),
    {
        let ghost before = s@;
        let mut i: usize = 0;
        assert(before + spans(self@, 0) =~= before);
        while i < self.last.len()
            invariant
                i <= self.last@.len(),
                self@.wf(),
                s@ == before + spans(self@, i as nat),
            decreases self.last.len() - i,
        {
            assert(self@.min[i as int] <= self@.max[i as int]);
            let span: u8 = self.max[i] - self.min[i];
            assert(span == self@.span(i as int));
            if span == 0 {
                s.append("   ");
            } else {
                push_hex2(s, span);
                s.push(' ');
            }
            i = i + 1;
            assert(s@ =~= before + spans(self@, i as nat));
        }
    }

    /// The candidates for 16-bit numbers, and whether there are any.
    fn candidates(&self) -> (r: (String, bool))
        requires
            self@.wf(),
        ensures
            r.0@ == candidates(self@, self@.last.len() / 2),
            r.1 == (r.0@.len() > 0),
    {
        let mut s: String = String::new();
        let mut any: bool = false;
        let mut k: usize = 0;
        assert(s@ =~= candidates(self@, 0));
        let pairs: usize = self.last.len() / 2;
        while k < pairs
            invariant
                k <= pairs,
                pairs == self.last@.len() as int / 2,
                self@.wf(),
                s@ == candidates(self@, k as nat),
                any == (s@.len() > 0),
            decreases pairs - k,
        {
            let i: usize = 2 * k;
            assert(self@.min[i as int] <= self@.max[i as int]);
            assert(self@.min[i + 1] <= self@.max[i + 1]);
            let ghost before = s@;
            if self.max[i] - self.min[i] != 0 || self.max[i + 1] - self.min[i + 1] != 0 {
                let v: i16 = signed(self.last[i] as u16 + 256 * self.last[i + 1] as u16);
                s.append("[");
                push_dec(&mut s, i as u64);
                s.append("..");
                push_dec(&mut s, i as u64 + 1);
                s.append("]i16=");
                push_dec_signed(&mut s, v as i64);
                s.append(" ");
                any = true;
                proof {
                    reveal_strlit(" ");
                    assert(s@ =~= before + candidate(self@, i as int));
                }
            }
            k = k + 1;
        }
        (s, any)
    }

    /// The lines that show what was seen of frames of this type.
    pub fn lines(&self, typ: u8) -> (lines: Vec<String>)
        requires
            self@.wf(),
        ensures
            texts_of(lines@) == offset_lines(typ, self@),
    {
        let len: usize = self.last.len();
        let mut head: String = String::new();
        head.append("0x");
        push_hex2(&mut head, typ);
        head.append(" len=");
        push_dec(&mut head, len as u64);
        head.append(" n=");
        push_dec(&mut head, self.n);
        let mut off: String = String::new();
        off.append("  off : ");
        push_ruler(&mut off, len);
        let mut last: String = String::new();
        last.append("  last: ");
        push_hex_column(&mut last, self.last.as_slice(), 0, len);
        assert(self.last@.subrange(0, len as int) =~= self.last@);
        let mut span: String = String::new();
        span.append("  span: ");
        self.push_spans(&mut span);
        let (found, any): (String, bool) = self.candidates();
        proof {
            assert(head@ =~= "0x"@ + hex2(typ) + " len="@ + dec(len as nat) + " n="@ + dec(
                self@.n,
            ));
            assert(off@ =~= "  off : "@ + ruler(len as nat));
            assert(last@ =~= "  last: "@ + hex_column(self@.last));
            assert(span@ =~= "  span: "@ + spans(self@, len as nat));
        }
        let mut lines: Vec<String> = Vec::new();
        lines.push(head);
        lines.push(off);
        lines.push(last);
        lines.push(span);
        if any {
            let mut words: String = String::new();
            words.append("  i16 : ");
            words.append(found.as_str());
            assert(words@ =~= "  i16 : "@ + found@);
            lines.push(words);
        }
        assert(texts_of(lines@) =~= offset_lines(typ, self@));
        lines
    }
}

// ---------------------------------------------------------------------------
// Watching a stream
// ---------------------------------------------------------------------------
/// The `i`-th type of frame in the report's order: pose, motion, currents and flags
/// first, then every other type in turn.
pub open spec fn type_at(i: int) -> u8 {
    if i < 3 {
        (i + 1) as u8
    } else if i == 3 {
        0
    } else {
        i as u8
    }
}

/// What was seen after one frame body more.
pub open spec fn watched_body(types: Seq<OffsetsView>, body: Seq<u8>) -> Seq<OffsetsView> {
    match parsed(body) {
        Ok((typ, p)) => types.update(typ as int, types[typ as int].with(p)),
        Err(_) => types,
    }
}

/// What was seen after several frame bodies more.
pub open spec fn watched(types: Seq<OffsetsView>, bodies: Seq<Seq<u8>>) -> Seq<OffsetsView>
    decreases bodies.len(),
{
    if bodies.len() == 0 {
        types
    } else {
        watched_body(watched(types, bodies.drop_last()), bodies.last())
    }
}

/// The report on those of the first `n` types that were seen.
pub open spec fn watch_lines(types: Seq<OffsetsView>, n: nat) -> Seq<Seq<char>>
    decreases n,
{
    if n == 0 {
        Seq::empty()
    } else {
        let typ = type_at(n - 1);
        let before = watch_lines(types, (n - 1) as nat);
        if types[typ as int].n > 0 {
            before + offset_lines(typ, types[typ as int])
        } else {
            before
        }
    }
}

/// Where a watch stands: the frame scan, and what was seen of each type of frame.
pub struct WatchView {
    pub scan: ScanView,
    pub types: Seq<OffsetsView>,
}

/// Watches a stream of frames.
pub struct Watch {
    scanner: FrameScanner,
    types: Vec<Offsets>,
}

/// What was seen of each type.
pub open spec fn offsets_of(v: Seq<Offsets>) -> Seq<OffsetsView> {
    v.map_values(|o: Offsets| o@)
}

impl View for Watch {
    type V = WatchView;

    closed spec fn view(&self) -> WatchView {
        WatchView { scan: self.scanner@, types: offsets_of(self.types@) }
    }
}

/// There is one entry for each type of frame, each well formed, with no more than `n`
/// frames.
pub open spec fn table_wf(types: Seq<OffsetsView>, n: nat) -> bool {
    types.len() == 256 && forall|t: int|
        0 <= t < 256 ==> (#[trigger] types[t]).wf() && types[t].n <= n
}

impl Watch {
    pub fn new() -> (w: Watch)
        ensures
            w@.scan == ScanView::Outside,
            w@.types == Seq::new(256, |t: int| OffsetsView::empty()),
            table_wf(w@.types, 0),
    {
        let mut types: Vec<Offsets> = Vec::new();
        let mut t: usize = 0;
        while t < 256
            invariant
                t <= 256,
                types@.len() == t,
                forall|j: int| 0 <= j < t ==> (#[trigger] types@[j])@ == OffsetsView::empty(),
            decreases 256 - t,
        {
            types.push(Offsets::new());
            t = t + 1;
        }
        let w: Watch = Watch { scanner: FrameScanner::new(), types };
        assert(w@.types =~= Seq::new(256, |t: int| OffsetsView::empty()));
        w
    }

    /// Takes bytes of the stream.
    pub fn feed(&mut self, bytes: &[u8])
        requires
            exists|n: nat| #[trigger] table_wf(old(self)@.types, n) && n + bytes@.len() <= u64::MAX,
        ensures
            final(self)@.scan == scan(old(self)@.scan, bytes@).0,
            final(self)@.types == watched(old(self)@.types, scan(old(self)@.scan, bytes@).1),
            forall|n: nat| #[trigger]
                table_wf(old(self)@.types, n) ==> table_wf(final(self)@.types, n + bytes@.len()),
    {
        let ghost start = self@.types;
        let ghost n = choose|n: nat| #[trigger]
            table_wf(start, n) && n + bytes@.len() <= u64::MAX;
        let bodies: Vec<Vec<u8>> = self.scanner.collect(bytes);
        let ghost all = bodies_of(bodies@);
        let mut i: usize = 0;
        assert(all.take(0) =~= Seq::<Seq<u8>>::empty());
        while i < bodies.len()
            invariant
                i <= bodies@.len(),
                bodies@.len() <= bytes@.len(),
                all == bodies_of(bodies@),
                self.scanner@ == scan(old(self)@.scan, bytes@).0,
                n + bytes@.len() <= u64::MAX,
                table_wf(start, n),
                offsets_of(self.types@) == watched(start, all.take(i as int)),
                table_wf(offsets_of(self.types@), n + i as nat),
                forall|m: nat| #[trigger]
                    table_wf(start, m) ==> table_wf(offsets_of(self.types@), m + i as nat),
            decreases bodies.len() - i,
        {
            let ghost before = offsets_of(self.types@);
            let body: &[u8] = bodies[i].as_slice();
            assert(all.take(i + 1).drop_last() =~= all.take(i as int));
            assert(all.take(i + 1).last() == body@);
            if let Ok((typ, p)) = parse_body(body) {
                let ghost t = typ as int;
                assert(before[t] == self.types@[t]@);
                assert(before[t].wf() && before[t].n <= n + i as nat);
                self.types[typ as usize].note(p);
                assert(offsets_of(self.types@) =~= before.update(t, before[t].with(p@)));
            }
            i = i + 1;
        }
        assert(all.take(all.len() as int) =~= all);
        assert forall|m: nat| #[trigger] table_wf(start, m) implies table_wf(
            self@.types,
            m + bytes@.len(),
        ) by {
            assert(table_wf(self@.types, m + i as nat));
        }
    }

    /// What was seen of frames of one type.
    pub fn offsets(&self, typ: u8) -> (o: &Offsets)
        requires
            self@.types.len() == 256,
        ensures
            o@ == self@.types[typ as int],
    {
        &self.types[typ as usize]
    }

    /// The report: every type that was seen.
    pub fn lines(&self) -> (lines: Vec<String>)
        requires
            exists|n: nat| table_wf(self@.types, n),
        ensures
            texts_of(lines@) == watch_lines(self@.types, 256),
    {
        let mut lines: Vec<String> = Vec::new();
        let mut i: usize = 0;
        let ghost n = choose|n: nat| table_wf(self@.types, n);
        assert(texts_of(lines@) =~= watch_lines(self@.types, 0));
        while i < 256
            invariant
                i <= 256,
                table_wf(self@.types, n),
                texts_of(lines@) == watch_lines(self@.types, i as nat),
            decreases 256 - i,
        {
            let typ: u8 = if i < 3 {
                i as u8 + 1
            } else if i == 3 {
                0
            } else {
                i as u8
            };
            assert(typ == type_at(i as int));
            let ghost o = self@.types[typ as int];
            assert(o == self.types@[typ as int]@);
            if self.types[typ as usize].count() > 0 {
                let ghost before = lines@;
                let mut more: Vec<String> = self.types[typ as usize].lines(typ);
                let ghost added = more@;
                lines.append(&mut more);
                assert(texts_of(lines@) =~= texts_of(before) + texts_of(added));
            }
            i = i + 1;
        }
        lines
    }
}

// ---------------------------------------------------------------------------
// Laws
// ---------------------------------------------------------------------------
/// What was seen after the frames `ps`.
pub open spec fn seen(ps: Seq<Seq<u8>>) -> OffsetsView
    decreases ps.len(),
{
    if ps.len() == 0 {
        OffsetsView::empty()
    } else {
        seen(ps.drop_last()).with(ps.last())
    }
}

/// The lines of `block` stand in `report`, one behind the other, from `at` on.
pub open spec fn holds_block(report: Seq<Seq<char>>, block: Seq<Seq<char>>, at: int) -> bool {
    0 <= at && at + block.len() <= report.len() && report.subrange(
        at,
        at + block.len(),
    ) == block
}

/// Where the block of the `k`-th type begins, in a report on more than `k` types.
pub open spec fn block_start(types: Seq<OffsetsView>, k: nat) -> int {
    watch_lines(types, k).len() as int
}

/// The place of a type in the report's order.
pub open spec fn place_of_type(typ: u8) -> nat {
    if 1 <= typ <= 3 {
        (typ - 1) as nat
    } else if typ == 0 {
        3
    } else {
        typ as nat
    }
}

proof fn lemma_block_stays(types: Seq<OffsetsView>, k: nat, n: nat)
    requires
        k < n,
        types[type_at(k as int) as int].n > 0,
    ensures
        holds_block(
            watch_lines(types, n),
            offset_lines(type_at(k as int), types[type_at(k as int) as int]),
            block_start(types, k),
        ),
    decreases n,
{
    let block = offset_lines(type_at(k as int), types[type_at(k as int) as int]);
    let at = block_start(types, k);
    let report = watch_lines(types, n);
    if k == n - 1 {
        assert(report.subrange(at, at + block.len()) =~= block);
    } else {
        lemma_block_stays(types, k, (n - 1) as nat);
        let before = watch_lines(types, (n - 1) as nat);
        assert(report.subrange(at, at + block.len()) =~= before.subrange(at, at + block.len()));
    }
}

/// The report covers all types: each type that was seen has its block in it.
pub proof fn law_every_type_seen_is_shown(types: Seq<OffsetsView>, typ: u8)
    requires
        types[typ as int].n > 0,
    ensures
        exists|at: int| #[trigger]
            holds_block(watch_lines(types, 256), offset_lines(typ, types[typ as int]), at),
{
    let k = place_of_type(typ);
    assert(type_at(k as int) == typ);
    lemma_block_stays(types, k, 256);
}

/// Nothing is shown of types that were not seen: with no frames the report is empty.
pub proof fn law_nothing_seen_nothing_shown(types: Seq<OffsetsView>, n: nat)
    requires
        n <= 256,
        forall|t: int| 0 <= t < 256 ==> (#[trigger] types[t]).n == 0,
    ensures
        watch_lines(types, n).len() == 0,
    decreases n,
{
    if n > 0 {
        law_nothing_seen_nothing_shown(types, (n - 1) as nat);
        assert(types[type_at(n - 1) as int].n == 0);
    }
}

/// A watch that began empty holds, for each type, what was seen of the payloads of that
/// type's frames, and so all that is said of `seen` holds of its report.
pub proof fn law_watch_holds_what_was_seen(bodies: Seq<Seq<u8>>, t: u8)
    ensures
        watched(Seq::new(256, |i: int| OffsetsView::empty()), bodies).len() == 256,
        watched(Seq::new(256, |i: int| OffsetsView::empty()), bodies)[t as int] == seen(
            payloads(t, bodies),
        ),
    decreases bodies.len(),
{
    if bodies.len() > 0 {
        let front = bodies.drop_last();
        law_watch_holds_what_was_seen(front, t);
        if let Ok((typ, p)) = parsed(bodies.last()) {
            if typ == t {
                assert(payloads(t, front).push(p).drop_last() =~= payloads(t, front));
            }
        }
    }
}

/// Watching in pieces is watching the whole: what one feed leaves, the next goes on from.
pub proof fn law_watched_in_pieces(
    types: Seq<OffsetsView>,
    a: Seq<Seq<u8>>,
    b: Seq<Seq<u8>>,
)
    ensures
        watched(types, a + b) == watched(watched(types, a), b),
    decreases b.len(),
{
    if b.len() == 0 {
        assert(a + b =~= a);
    } else {
        law_watched_in_pieces(types, a, b.drop_last());
        assert((a + b).drop_last() =~= a + b.drop_last());
    }
}

/// Every frame is counted, and every offset that some frame has is shown.
pub proof fn law_every_frame_counts(ps: Seq<Seq<u8>>)
    ensures
        seen(ps).n == ps.len(),
        seen(ps).min.len() == seen(ps).last.len(),
        seen(ps).max.len() == seen(ps).last.len(),
        forall|k: int| 0 <= k < ps.len() ==> (#[trigger] ps[k]).len() <= seen(ps).last.len(),
    decreases ps.len(),
{
    if ps.len() > 0 {
        law_every_frame_counts(ps.drop_last());
        assert forall|k: int| 0 <= k < ps.len() implies (#[trigger] ps[k]).len()
            <= seen(ps).last.len() by {
            if k < ps.len() - 1 {
                assert(ps.drop_last()[k] == ps[k]);
            }
        }
    }
}

/// The bytes of every frame lie between the smallest and the largest at their offset,
/// and both of these were seen.
#[verifier::spinoff_prover]
pub proof fn law_bounds_are_seen(ps: Seq<Seq<u8>>, i: int)
    requires
        0 <= i < seen(ps).last.len(),
    ensures
        forall|k: int|
            0 <= k < ps.len() && i < (#[trigger] ps[k]).len() ==> seen(ps).min[i] <= ps[k][i]
                <= seen(ps).max[i],
        exists|k: int|
            0 <= k < ps.len() && i < (#[trigger] ps[k]).len() && ps[k][i] == seen(ps).min[i],
        exists|k: int|
            0 <= k < ps.len() && i < (#[trigger] ps[k]).len() && ps[k][i] == seen(ps).max[i],
    decreases ps.len(),
{
    if ps.len() > 0 {
        let front = ps.drop_last();
        let last = ps.last();
        let z = ps.len() - 1;
        law_every_frame_counts(front);
        assert(ps[z] == last);
        if i < seen(front).last.len() {
            law_bounds_are_seen(front, i);
            let a = choose|k: int|
                0 <= k < front.len() && i < (#[trigger] front[k]).len() && front[k][i] == seen(
                    front,
                ).min[i];
            let b = choose|k: int|
                0 <= k < front.len() && i < (#[trigger] front[k]).len() && front[k][i] == seen(
                    front,
                ).max[i];
            assert(ps[a] == front[a] && ps[b] == front[b]);
            assert forall|k: int| 0 <= k < ps.len() && i < (#[trigger] ps[k]).len() implies seen(
                ps,
            ).min[i] <= ps[k][i] <= seen(ps).max[i] by {
                if k < z {
                    assert(front[k] == ps[k]);
                }
            }
            if i < last.len() && last[i] < seen(front).min[i] {
                assert(ps[z][i] == seen(ps).min[i]);
            } else {
                assert(ps[a][i] == seen(ps).min[i]);
            }
            if i < last.len() && last[i] > seen(front).max[i] {
                assert(ps[z][i] == seen(ps).max[i]);
            } else {
                assert(ps[b][i] == seen(ps).max[i]);
            }
        } else {
            assert(ps[z][i] == seen(ps).min[i]);
            assert(ps[z][i] == seen(ps).max[i]);
            assert forall|k: int| 0 <= k < ps.len() && i < (#[trigger] ps[k]).len() implies seen(
                ps,
            ).min[i] <= ps[k][i] <= seen(ps).max[i] by {
                if k < z {
                    assert(front[k] == ps[k]);
                    assert(front[k].len() <= seen(front).last.len());
                }
            }
        }
    }
}

/// The report leaves an offset blank exactly when its byte never changed.
pub proof fn law_blank_means_constant(ps: Seq<Seq<u8>>, i: int)
    requires
        0 <= i < seen(ps).last.len(),
    ensures
        seen(ps).span(i) == 0 <==> forall|j: int, k: int|
            0 <= j < ps.len() && 0 <= k < ps.len() && i < (#[trigger] ps[j]).len() && i < (
            #[trigger] ps[k]).len() ==> ps[j][i] == ps[k][i],
{
    law_bounds_are_seen(ps, i);
    let a = choose|k: int|
        0 <= k < ps.len() && i < (#[trigger] ps[k]).len() && ps[k][i] == seen(ps).min[i];
    let b = choose|k: int|
        0 <= k < ps.len() && i < (#[trigger] ps[k]).len() && ps[k][i] == seen(ps).max[i];
    assert(seen(ps).min[i] <= ps[b][i]);
    if forall|j: int, k: int|
        0 <= j < ps.len() && 0 <= k < ps.len() && i < (#[trigger] ps[j]).len() && i < (
        #[trigger] ps[k]).len() ==> ps[j][i] == ps[k][i] {
        assert(ps[a][i] == ps[b][i]);
    }
}

/// The latest byte at an offset is that of the last frame that reaches so far.
pub proof fn law_latest_byte(ps: Seq<Seq<u8>>, k: int, i: int)
    requires
        0 <= k < ps.len(),
        0 <= i < ps[k].len(),
        forall|j: int| k < j < ps.len() ==> (#[trigger] ps[j]).len() <= i,
    ensures
        i < seen(ps).last.len(),
        seen(ps).last[i] == ps[k][i],
    decreases ps.len(),
{
    let front = ps.drop_last();
    if k < front.len() {
        assert(front[k] == ps[k]);
        assert(ps[ps.len() - 1].len() <= i);
        assert forall|j: int| k < j < front.len() implies (#[trigger] front[j]).len() <= i by {
            assert(ps[j].len() <= i);
        }
        law_latest_byte(front, k, i);
    }
}

/// No more offsets are shown than some frame has.
pub proof fn law_no_offset_without_a_frame(ps: Seq<Seq<u8>>)
    requires
        ps.len() > 0,
    ensures
        exists|k: int| 0 <= k < ps.len() && (#[trigger] ps[k]).len() == seen(ps).last.len(),
    decreases ps.len(),
{
    let front = ps.drop_last();
    let z = ps.len() - 1;
    if front.len() > 0 {
        law_no_offset_without_a_frame(front);
        let k = choose|k: int|
            0 <= k < front.len() && (#[trigger] front[k]).len() == seen(front).last.len();
        assert(ps[k] == front[k]);
    } else {
        assert(seen(front).last.len() == 0);
    }
    assert(ps[z] == ps.last());
}

/// The numbers above the columns: each of the first hundred offsets has its two figures
/// at its place, with a space behind.
pub proof fn law_ruler_by_place(n: nat, i: int)
    requires
        0 <= i < n <= 100,
    ensures
        ruler(n).len() == 3 * n,
        ruler(n)[3 * i] as int == '0' as int + i / 10,
        ruler(n)[3 * i + 1] as int == '0' as int + i % 10,
        ruler(n)[3 * i + 2] == ' ',
    decreases n,
{
    let j = (n - 1) as nat;
    let mine = pad_left(dec(j), 2, '0');
    assert(mine.len() == 2 && mine[0] as int == '0' as int + j / 10 && mine[1] as int == '0' as int
        + j % 10) by {
        if j < 10 {
            assert(dec(j) =~= seq![digit(j)]);
        } else {
            assert(dec((j / 10) as nat) =~= seq![digit((j / 10) as nat)]);
            assert(dec(j) =~= seq![digit((j / 10) as nat), digit((j % 10) as nat)]);
        }
    }
    if n > 1 {
        law_ruler_by_place(
            j,
            if i < j {
                i
            } else {
                0
            },
        );
    } else {
        assert(ruler(0).len() == 0);
    }
    assert(ruler(n) == ruler(j) + mine.push(' '));
}

/// The spans below the columns: each offset has at its place how far its bytes lie apart,
/// in hexadecimal, or three spaces where they do not.
pub proof fn law_spans_by_place(o: OffsetsView, n: nat, i: int)
    requires
        0 <= i < n,
        o.min[i] <= o.max[i],
    ensures
        ({
            let row = spans(o, n);
            let apart = (o.max[i] - o.min[i]) as u8;
            &&& row.len() == 3 * n
            &&& apart == 0 ==> row[3 * i] == ' ' && row[3 * i + 1] == ' '
            &&& apart != 0 ==> row[3 * i] == hex2(apart)[0] && row[3 * i + 1] == hex2(apart)[1]
            &&& row[3 * i + 2] == ' '
        }),
    decreases n,
{
    reveal_strlit("   ");
    lemma_spans_len(o, n);
    lemma_spans_len(o, (n - 1) as nat);
    if i < n - 1 {
        law_spans_by_place(o, (n - 1) as nat, i);
    }
}

proof fn lemma_spans_len(o: OffsetsView, n: nat)
    ensures
        spans(o, n).len() == 3 * n,
    decreases n,
{
    reveal_strlit("   ");
    if n > 0 {
        lemma_spans_len(o, (n - 1) as nat);
    }
}

/// A candidate is the number of its two latest bytes, low byte first, in two's complement.
pub proof fn law_word_by_bytes(o: OffsetsView, i: int)
    ensures
        ({
            let w = o.last[i] + 256 * o.last[i + 1];
            &&& w < 32768 ==> word_seen(o, i) == w
            &&& w >= 32768 ==> word_seen(o, i) == w - 65536
        }),
{
}

proof fn lemma_no_candidates(o: OffsetsView, n: nat)
    requires
        forall|i: int| 0 <= i < 2 * n ==> #[trigger] o.min[i] == o.max[i],
    ensures
        candidates(o, n).len() == 0,
    decreases n,
{
    if n > 0 {
        lemma_no_candidates(o, (n - 1) as nat);
        let i = 2 * (n - 1);
        assert(o.min[i] == o.max[i]);
        assert(o.min[i + 1] == o.max[i + 1]);
    }
}

/// Where the bytes of one pair alone changed, that pair is the one candidate, under the
/// numbers of its offsets.
pub proof fn law_one_pair_changed(o: OffsetsView, n: nat, k: nat)
    requires
        k < n,
        o.min[2 * k as int] < o.max[2 * k as int] || o.min[2 * k as int + 1] < o.max[2 * k as int + 1],
        o.min[2 * k as int] <= o.max[2 * k as int],
        o.min[2 * k as int + 1] <= o.max[2 * k as int + 1],
        forall|i: int| 0 <= i < 2 * n && i / 2 != k ==> #[trigger] o.min[i] == o.max[i],
    ensures
        candidates(o, n) == "["@ + dec(2 * k) + ".."@ + dec(2 * k + 1) + "]i16="@ + dec_signed(
            word_seen(o, 2 * k as int) as int,
        ) + " "@,
    decreases n,
{
    if n == k + 1 {
        assert forall|i: int| 0 <= i < 2 * k implies #[trigger] o.min[i] == o.max[i] by {
            assert(i / 2 != k);
        }
        lemma_no_candidates(o, k);
        let c = candidate(o, 2 * k as int);
        assert(candidates(o, k) + c =~= c);
    } else {
        law_one_pair_changed(o, (n - 1) as nat, k);
        let i = 2 * (n - 1);
        assert(i / 2 != k && (i + 1) / 2 != k);
        assert(o.min[i] == o.max[i]);
        assert(o.min[i + 1] == o.max[i + 1]);
    }
}

/// The report's order: types 1, 2, 3, then 0, then the others by their numbers, each once.
pub proof fn law_types_in_order(i: int, j: int)
    requires
        0 <= i < j < 256,
    ensures
        type_at(0) == 1 && type_at(1) == 2 && type_at(2) == 3 && type_at(3) == 0,
        i >= 4 ==> type_at(i) == i,
        type_at(i) != type_at(j),
{
}

/// The block of a type: a head with the type, the number of offsets and that of frames,
/// the numbers of the offsets, the latest bytes, how far they lie apart; and, where there
/// are any, the candidates.
pub proof fn law_block_by_rows(typ: u8, o: OffsetsView)
    ensures
        ({
            let rows = offset_lines(typ, o);
            let len = o.last.len();
            let found = candidates(o, len / 2);
            &&& found.len() == 0 ==> rows.len() == 4
            &&& found.len() > 0 ==> rows.len() == 5 && rows[4] == "  i16 : "@ + found
            &&& rows[0] == "0x"@ + hex2(typ) + " len="@ + dec(len) + " n="@ + dec(o.n)
            &&& rows[1] == "  off : "@ + ruler(len)
            &&& rows[2] == "  last: "@ + hex_column(o.last)
            &&& rows[3] == "  span: "@ + spans(o, len)
        }),
{
}

/// The candidates go through the pairs in order: one that changed adds its offsets and
/// its number, one that did not adds nothing.
pub proof fn law_candidates_pair_by_pair(o: OffsetsView, k: nat)
    requires
        o.min[2 * k as int] <= o.max[2 * k as int],
        o.min[2 * k as int + 1] <= o.max[2 * k as int + 1],
    ensures
        ({
            let i = 2 * k as int;
            let changed = o.min[i] < o.max[i] || o.min[i + 1] < o.max[i + 1];
            &&& changed ==> candidates(o, k + 1) == candidates(o, k) + ("["@ + dec(2 * k) + ".."@
                + dec(2 * k + 1) + "]i16="@ + dec_signed(word_seen(o, i) as int) + " "@)
            &&& !changed ==> candidates(o, k + 1) == candidates(o, k)
        }),
{
}

/// The report goes through the types in its order: one that was seen adds its block, one
/// that was not adds nothing.
pub proof fn law_report_type_by_type(types: Seq<OffsetsView>, k: nat)
    requires
        k < 256,
    ensures
        ({
            let typ = type_at(k as int);
            let o = types[typ as int];
            &&& o.n > 0 ==> watch_lines(types, k + 1) == watch_lines(types, k) + offset_lines(
                typ,
                o,
            )
            &&& o.n == 0 ==> watch_lines(types, k + 1) == watch_lines(types, k)
        }),
{
}

} // verus!
