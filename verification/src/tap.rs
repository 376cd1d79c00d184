//! The tap: which of the daemon's reads and writes are mirrored, and where to.
use vstd::prelude::*;
use vstd::slice::slice_subrange;
use crate::control::{Control, DriveFilter, FilterView, HazardView, HazardWatch};
use crate::control::{counted, filter_after, idle_filter, no_hazard, observed, written};
use crate::ring::{RING_SIZE, RingView};
use crate::ring::{law_read_returns_write, lost_bytes, min_nat, stored};
use crate::shm::{Shm, CH_LDS_RX, CH_LDS_TX, CH_MCU_RX, CH_MCU_TX, NCHAN};
use crate::shm::opened;

verus! {

/// File descriptors that are watched lie below this.
pub const MAXFD: usize = 4096;

/// Longest part of a path that is looked at.
pub const MAX_PATH: usize = 512;

/// A descriptor of no interest.
pub const K_NONE: u8 = 0;

/// The motor controller.
pub const K_MCU: u8 = 1;

/// The lidar.
pub const K_LDS: u8 = 2;

/// `s` ends in `suffix`.
pub open spec fn has_suffix(s: Seq<u8>, suffix: Seq<u8>) -> bool {
    s.len() >= suffix.len() && s.skip(s.len() - suffix.len()) == suffix
}

/// True when `s` ends in `suffix`.
pub fn ends_with(s: &[u8], suffix: &[u8]) -> (r: bool)
    ensures
        r == has_suffix(s@, suffix@),
{
    if s.len() < suffix.len() {
        return false;
    }
    let len: usize = s.len();
    let from: usize = len - suffix.len();
    let mut i: usize = 0;
    while i < suffix.len()
        invariant
            i <= suffix@.len(),
            len == s@.len(),
            from == len - suffix@.len(),
            forall|j: int| 0 <= j < i ==> s@[from + j] == #[trigger] suffix@[j],
        decreases suffix.len() - i,
    {
        if s[from + i] != suffix[i] {
            assert(s@.skip(from as int)[i as int] != suffix@[i as int]);
            return false;
        }
        i = i + 1;
    }
    assert(s@.skip(from as int) =~= suffix@);
    true
}

/// `ttyS4`, the motor controller's port.
pub open spec fn mcu_port() -> Seq<u8> {
    seq![0x74u8, 0x74, 0x79, 0x53, 0x34]
}

/// `ttyS3`, the lidar's port.
pub open spec fn lds_port() -> Seq<u8> {
    seq![0x74u8, 0x74, 0x79, 0x53, 0x33]
}

/// The part of a path that is looked at: up to its end mark, and not too far.
pub open spec fn seen_path(path: Seq<u8>) -> Seq<u8> {
    path.take(seen_len(path) as int)
}

/// How long that part is.
pub open spec fn seen_len(path: Seq<u8>) -> nat {
    min_nat(before_zero(path), MAX_PATH as nat)
}

/// How many bytes stand before the first zero.
pub open spec fn before_zero(path: Seq<u8>) -> nat
    decreases path.len(),
{
    if path.len() == 0 || path[0] == 0 {
        0
    } else {
        1 + before_zero(path.skip(1))
    }
}

proof fn lemma_before_zero(path: Seq<u8>)
    ensures
        path.len() == 0 || path[0] == 0 ==> before_zero(path) == 0,
        before_zero(path) <= path.len(),
    decreases path.len(),
{
    if path.len() > 0 {
        lemma_before_zero(path.skip(1));
    }
}

/// What the device at `path` is.
pub open spec fn path_kind(path: Seq<u8>) -> u8 {
    if has_suffix(seen_path(path), mcu_port()) {
        K_MCU
    } else if has_suffix(seen_path(path), lds_port()) {
        K_LDS
    } else {
        K_NONE
    }
}

/// Tells what a path opens, by its last part. `path` may hold its end mark and more
/// behind it.
pub fn classify(path: &[u8]) -> (kind: u8)
    ensures
        kind == path_kind(path@),
{
    let mut len: usize = 0;
    assert(path@.skip(0) =~= path@);
    while len < MAX_PATH && len < path.len() && path[len] != 0
        invariant
            len <= MAX_PATH,
            len <= path@.len(),
            before_zero(path@) == len + before_zero(path@.skip(len as int)),
        decreases MAX_PATH - len,
    {
        assert(path@.skip(len as int).skip(1) =~= path@.skip(len + 1));
        len = len + 1;
    }
    proof {
        lemma_before_zero(path@.skip(len as int));
    }
    let seen: &[u8] = slice_subrange(path, 0, len);
    assert(seen@ =~= seen_path(path@));
    let mcu: [u8; 5] = [0x74, 0x74, 0x79, 0x53, 0x34];
    let lds: [u8; 5] = [0x74, 0x74, 0x79, 0x53, 0x33];
    assert(mcu@ =~= mcu_port());
    assert(lds@ =~= lds_port());
    if ends_with(seen, mcu.as_slice()) {
        K_MCU
    } else if ends_with(seen, lds.as_slice()) {
        K_LDS
    } else {
        K_NONE
    }
}

/// The descriptor's place in the table, if it is watched.
pub fn fd_slot(fd: i32) -> (r: Option<usize>)
    ensures
        r == (if 0 <= fd < MAXFD {
            Some(fd as usize)
        } else {
            None
        }),
{
    if fd < 0 || fd as usize >= MAXFD {
        None
    } else {
        Some(fd as usize)
    }
}

/// The channel for what is read from a device.
pub open spec fn rx_channel(kind: u8) -> Option<usize> {
    if kind == K_MCU {
        Some(CH_MCU_RX)
    } else if kind == K_LDS {
        Some(CH_LDS_RX)
    } else {
        None
    }
}

/// The channel for what is written to a device.
pub open spec fn tx_channel(kind: u8) -> Option<usize> {
    if kind == K_MCU {
        Some(CH_MCU_TX)
    } else if kind == K_LDS {
        Some(CH_LDS_TX)
    } else {
        None
    }
}

/// Where the bytes of a read go: its device's channel, if the read got any.
pub fn read_channel(kind: u8, result: isize) -> (r: Option<usize>)
    ensures
        r == (if result > 0 {
            rx_channel(kind)
        } else {
            None
        }),
{
    if result <= 0 {
        None
    } else if kind == K_MCU {
        Some(CH_MCU_RX)
    } else if kind == K_LDS {
        Some(CH_LDS_RX)
    } else {
        None
    }
}

/// Where the bytes of a write go: its device's channel, if there are any.
pub fn write_channel(kind: u8, count: usize) -> (r: Option<usize>)
    ensures
        r == (if count > 0 {
            tx_channel(kind)
        } else {
            None
        }),
{
    if count == 0 {
        None
    } else if kind == K_MCU {
        Some(CH_MCU_TX)
    } else if kind == K_LDS {
        Some(CH_LDS_TX)
    } else {
        None
    }
}

/// The channel that counts the opens of a device.
pub fn open_channel(kind: u8) -> (r: Option<usize>)
    ensures
        r == rx_channel(kind),
{
    if kind == K_MCU {
        Some(CH_MCU_RX)
    } else if kind == K_LDS {
        Some(CH_LDS_RX)
    } else {
        None
    }
}

/// What the descriptor is, by the table.
pub open spec fn kind_of(kinds: Seq<u8>, fd: i32) -> u8 {
    if 0 <= fd < MAXFD {
        kinds[fd as int]
    } else {
        K_NONE
    }
}

/// The table after `path` was opened as `fd`: a watched device is noted, anything else
/// leaves the table as it is.
pub open spec fn after_open(kinds: Seq<u8>, fd: i32, path: Seq<u8>) -> Seq<u8> {
    if 0 <= fd < MAXFD && path_kind(path) != K_NONE {
        kinds.update(fd as int, path_kind(path))
    } else {
        kinds
    }
}

/// The table after `fd` was closed.
pub open spec fn after_close(kinds: Seq<u8>, fd: i32) -> Seq<u8> {
    if 0 <= fd < MAXFD {
        kinds.update(fd as int, K_NONE)
    } else {
        kinds
    }
}

/// The rings after bytes went to a channel, if to any.
pub open spec fn mirrored(rings: Seq<RingView>, ch: Option<usize>, bytes: Seq<u8>) -> Seq<
    RingView,
> {
    match ch {
        Some(c) => rings.update(c as int, rings[c as int].appended(bytes)),
        None => rings,
    }
}

/// The rings after an open of a device, if of a watched one.
pub open spec fn noted(rings: Seq<RingView>, ch: Option<usize>) -> Seq<RingView> {
    match ch {
        Some(c) => rings.update(c as int, opened(rings[c as int])),
        None => rings,
    }
}

/// What the shared region holds.
pub struct RegionView {
    pub magic: u32,
    pub version: u32,
    pub started_ns: u64,
    pub rings: Seq<RingView>,
    pub control: Control,
}

/// What a region holds.
pub open spec fn region_of(s: Shm) -> RegionView {
    RegionView {
        magic: s.magic,
        version: s.version,
        started_ns: s.started_ns,
        rings: s.rings(),
        control: s.control,
    }
}

/// What the tap holds.
pub struct TapView {
    /// What each descriptor is.
    pub kinds: Seq<u8>,
    /// The shared region, if it could be mapped.
    pub region: Option<RegionView>,
    /// What replaces motor commands.
    pub filter: FilterView,
    /// The hazard that the robot reports.
    pub hazards: HazardView,
}

/// The channel that is to take `n` more bytes, if there is one, can take them.
pub open spec fn roomy(t: TapView, ch: Option<usize>, n: nat) -> bool {
    match (t.region, ch) {
        (Some(r), Some(c)) => r.rings[c as int].head + stored(n) <= u64::MAX,
        _ => true,
    }
}

/// The tap after an open.
pub open spec fn opening(t: TapView, fd: i32, path: Seq<u8>) -> TapView {
    TapView {
        kinds: after_open(t.kinds, fd, path),
        region: match t.region {
            Some(r) => if 0 <= fd < MAXFD {
                Some(RegionView { rings: noted(r.rings, rx_channel(path_kind(path))), ..r })
            } else {
                Some(r)
            },
            None => None,
        },
        ..t
    }
}

/// The tap after a read that got `bytes`.
pub open spec fn reading(t: TapView, fd: i32, bytes: Seq<u8>) -> TapView {
    let kind = kind_of(t.kinds, fd);
    TapView {
        region: match t.region {
            Some(r) => Some(RegionView { rings: mirrored(r.rings, rx_channel(kind), bytes), ..r }),
            None => None,
        },
        hazards: if kind == K_MCU {
            observed(t.hazards, bytes)
        } else {
            t.hazards
        },
        ..t
    }
}

/// The tap after a write of `bytes`.
pub open spec fn writing(t: TapView, fd: i32, bytes: Seq<u8>) -> TapView {
    let kind = kind_of(t.kinds, fd);
    match t.region {
        Some(r) => TapView {
            region: Some(
                RegionView {
                    rings: mirrored(r.rings, tx_channel(kind), bytes),
                    control: if kind == K_MCU {
                        counted(t.filter, t.hazards.hazard, r.control, bytes)
                    } else {
                        r.control
                    },
                    ..r
                },
            ),
            filter: if kind == K_MCU {
                filter_after(t.filter, r.control, bytes)
            } else {
                t.filter
            },
            ..t
        },
        None => t,
    }
}

/// The bytes that reach the device when the daemon writes `bytes`.
pub open spec fn sent(t: TapView, fd: i32, bytes: Seq<u8>) -> Seq<u8> {
    match t.region {
        Some(r) => if kind_of(t.kinds, fd) == K_MCU {
            written(t.filter, t.hazards.hazard, r.control, bytes)
        } else {
            bytes
        },
        None => bytes,
    }
}

/// Mirrors the daemon's traffic with the watched devices.
pub struct Tap {
    kinds: Vec<u8>,
    shm: Option<Shm>,
    filter: DriveFilter,
    hazards: HazardWatch,
}

impl View for Tap {
    type V = TapView;

    closed spec fn view(&self) -> TapView {
        TapView {
            kinds: self.kinds@,
            region: match self.shm {
                Some(s) => Some(region_of(s)),
                None => None,
            },
            filter: self.filter@,
            hazards: self.hazards@,
        }
    }
}

impl Tap {
    pub closed spec fn wf(&self) -> bool {
        self.kinds@.len() == MAXFD && (self.shm matches Some(s) ==> s.wf())
    }

    /// A well-formed tap has a kind for every descriptor and, if it has a region, a
    /// well-formed ring for every channel.
    pub proof fn lemma_view_wf(&self)
        requires
            self.wf(),
        ensures
            self@.kinds.len() == MAXFD,
            self@.region matches Some(r) ==> r.rings.len() == NCHAN && forall|i: int|
                0 <= i < NCHAN ==> (#[trigger] r.rings[i]).wf(),
    {
        if let Some(s) = self.shm {
            assert forall|i: int| 0 <= i < NCHAN implies (#[trigger] s.rings()[i]).wf() by {
                assert(s.rings()[i] == s.ring@[i]@);
                s.ring@[i].lemma_view_wf();
            }
        }
    }

    /// Watches nothing yet. `shm` is the shared region, if it could be mapped.
    pub fn new(shm: Option<Shm>) -> (t: Tap)
        requires
            shm matches Some(s) ==> s.wf(),
        ensures
            t.wf(),
            t@ == (TapView {
                kinds: Seq::new(MAXFD as nat, |i: int| K_NONE),
                region: match shm {
                    Some(s) => Some(region_of(s)),
                    None => None,
                },
                filter: idle_filter(),
                hazards: no_hazard(),
            }),
    {
        let t: Tap = Tap {
            kinds: vec![K_NONE; MAXFD],
            shm,
            filter: DriveFilter::new(),
            hazards: HazardWatch::new(),
        };
        assert(t@.kinds =~= Seq::new(MAXFD as nat, |i: int| K_NONE));
        t
    }

    /// What the descriptor is.
    pub fn kind(&self, fd: i32) -> (k: u8)
        requires
            self.wf(),
        ensures
            k == kind_of(self@.kinds, fd),
    {
        match fd_slot(fd) {
            Some(i) => self.kinds[i],
            None => K_NONE,
        }
    }

    /// The shared region.
    pub fn region(&self) -> (r: Option<&Shm>)
        requires
            self.wf(),
        ensures
            r is Some <==> self@.region is Some,
            r matches Some(s) ==> s.wf() && self@.region == Some(region_of(*s)),
    {
        match &self.shm {
            Some(s) => Some(s),
            None => None,
        }
    }

    /// The daemon opened `path` as `fd` (negative when it failed).
    pub fn on_open(&mut self, fd: i32, path: &[u8])
        requires
            old(self).wf(),
        ensures
            final(self).wf(),
            final(self)@ == opening(old(self)@, fd, path@),
    {
        if let Some(i) = fd_slot(fd) {
            let kind: u8 = classify(path);
            if let Some(ch) = open_channel(kind) {
                self.kinds.set(i, kind);
                if let Some(shm) = &mut self.shm {
                    shm.note_open(ch);
                }
            }
        }
    }

    /// The daemon read from `fd` into `buf` with this result: how many bytes it got, or
    /// that it got none.
    pub fn on_read(&mut self, fd: i32, result: isize, buf: &[u8])
        requires
            old(self).wf(),
            result <= buf@.len(),
            result > 0 ==> roomy(
                old(self)@,
                rx_channel(kind_of(old(self)@.kinds, fd)),
                result as nat,
            ),
        ensures
            final(self).wf(),
            final(self)@ == (if result > 0 {
                reading(old(self)@, fd, buf@.take(result as int))
            } else {
                old(self)@
            }),
    {
        let kind: u8 = self.kind(fd);
        if let Some(ch) = read_channel(kind, result) {
            let got: &[u8] = slice_subrange(buf, 0, result as usize);
            assert(got@ =~= buf@.take(result as int));
            if let Some(shm) = &mut self.shm {
                shm.publish(ch, got);
            }
            if kind == K_MCU {
                self.hazards.observe(got);
            }
        }
    }

    /// The daemon is about to write `buf` to `fd`. Its bytes are mirrored as they are;
    /// what is to be written instead of them is the result, if anything.
    pub fn on_write(&mut self, fd: i32, buf: &[u8]) -> (r: Option<Vec<u8>>)
        requires
            old(self).wf(),
            roomy(old(self)@, tx_channel(kind_of(old(self)@.kinds, fd)), buf@.len()),
        ensures
            final(self).wf(),
            final(self)@ == (if buf@.len() > 0 {
                writing(old(self)@, fd, buf@)
            } else {
                old(self)@
            }),
            (match r {
                Some(v) => v@,
                None => buf@,
            }) == sent(old(self)@, fd, buf@),
    {
        let kind: u8 = self.kind(fd);
        if let Some(ch) = write_channel(kind, buf.len()) {
            if let Some(shm) = &mut self.shm {
                shm.publish(ch, buf);
                if kind == K_MCU {
                    return self.filter.filter(self.hazards.hazard(), &mut shm.control, buf);
                }
            }
        }
        None
    }

    /// The daemon closes `fd`.
    pub fn on_close(&mut self, fd: i32)
        requires
            old(self).wf(),
        ensures
            final(self).wf(),
            final(self)@ == (TapView { kinds: after_close(old(self)@.kinds, fd), ..old(self)@ }),
    {
        if let Some(i) = fd_slot(fd) {
            self.kinds.set(i, K_NONE);
        }
    }
}

// ---------------------------------------------------------------------------
// Laws
// ---------------------------------------------------------------------------
/// A descriptor is watched from the open of a watched port until its close, and not
/// after that.
pub proof fn law_watched_from_open_to_close(t: TapView, fd: i32, path: Seq<u8>, bytes: Seq<u8>)
    requires
        t.kinds.len() == MAXFD,
        0 <= fd < MAXFD,
        path_kind(path) != K_NONE,
    ensures
        ({
            let open = opening(t, fd, path);
            let closed = TapView { kinds: after_close(open.kinds, fd), ..open };
            &&& kind_of(open.kinds, fd) == path_kind(path)
            &&& rx_channel(kind_of(open.kinds, fd)) is Some
            &&& tx_channel(kind_of(open.kinds, fd)) is Some
            &&& reading(closed, fd, bytes) == closed
            &&& writing(closed, fd, bytes) == closed
            &&& sent(closed, fd, bytes) == bytes
        }),
{
}

/// A recycled descriptor is not mirrored: once a watched port was closed, an open of
/// something else under the same number leaves it unwatched, however full the rings are.
pub proof fn law_recycled_descriptor_is_not_mirrored(
    t: TapView,
    fd: i32,
    path: Seq<u8>,
    other: Seq<u8>,
    bytes: Seq<u8>,
)
    requires
        t.kinds.len() == MAXFD,
        path_kind(other) == K_NONE,
    ensures
        ({
            let open = opening(t, fd, path);
            let closed = TapView { kinds: after_close(open.kinds, fd), ..open };
            let reused = opening(closed, fd, other);
            &&& kind_of(reused.kinds, fd) == K_NONE
            &&& roomy(reused, rx_channel(kind_of(reused.kinds, fd)), bytes.len())
            &&& roomy(reused, tx_channel(kind_of(reused.kinds, fd)), bytes.len())
            &&& reading(reused, fd, bytes) == reused
            &&& writing(reused, fd, bytes) == reused
            &&& sent(reused, fd, bytes) == bytes
            &&& reused.region == open.region
        }),
{
}

/// For a descriptor that is not watched, and without a shared region, nothing is
/// recorded and every byte passes.
pub proof fn law_unwatched_passes(t: TapView, fd: i32, bytes: Seq<u8>)
    requires
        kind_of(t.kinds, fd) == K_NONE || t.region is None,
    ensures
        sent(t, fd, bytes) == bytes,
        writing(t, fd, bytes) == t,
        reading(t, fd, bytes).region == t.region,
        reading(t, fd, bytes).kinds == t.kinds,
        reading(t, fd, bytes).filter == t.filter,
{
}

/// With no client in control the daemon's writes reach the device byte for byte.
pub proof fn law_read_only_without_client(t: TapView, fd: i32, bytes: Seq<u8>)
    requires
        t.region matches Some(r) ==> !r.control.enabled,
    ensures
        sent(t, fd, bytes) == bytes,
{
}

/// The tap never touches the marks by which readers know the region.
pub proof fn law_marks_are_kept(t: TapView, fd: i32, path: Seq<u8>, bytes: Seq<u8>)
    requires
        t.region is Some,
    ensures
        same_marks(t, opening(t, fd, path)),
        same_marks(t, reading(t, fd, bytes)),
        same_marks(t, writing(t, fd, bytes)),
{
}

/// Both have a region, with the same marks.
pub open spec fn same_marks(a: TapView, b: TapView) -> bool {
    match (a.region, b.region) {
        (Some(r), Some(q)) => r.magic == q.magic && r.version == q.version && r.started_ns
            == q.started_ns,
        _ => false,
    }
}

/// Opening or closing one descriptor does not affect another.
pub proof fn law_descriptors_are_independent(kinds: Seq<u8>, fd: i32, other: i32, path: Seq<u8>)
    requires
        kinds.len() == MAXFD,
        fd != other,
    ensures
        kind_of(after_open(kinds, fd, path), other) == kind_of(kinds, other),
        kind_of(after_close(kinds, fd), other) == kind_of(kinds, other),
{
}

/// Devices and directions do not share a channel: what is read never goes where what is
/// written goes, and each device has channels of its own.
pub proof fn law_channels_are_distinct(a: u8, b: u8)
    requires
        rx_channel(a) is Some,
        rx_channel(b) is Some,
    ensures
        rx_channel(a) != tx_channel(b),
        rx_channel(a) == rx_channel(b) <==> a == b,
        tx_channel(a) == tx_channel(b) <==> a == b,
{
}

/// What the daemon reads from a watched device can be read back from its channel by a
/// reader that was up to date, byte for byte. The other channels are untouched.
pub proof fn law_reads_are_mirrored(t: TapView, fd: i32, bytes: Seq<u8>)
    requires
        watching(t, fd),
        bytes.len() <= RING_SIZE,
        roomy(t, rx_channel(kind_of(t.kinds, fd)), bytes.len()),
    ensures
        adds_to_one(
            t.region->Some_0.rings,
            reading(t, fd, bytes).region->Some_0.rings,
            rx_channel(kind_of(t.kinds, fd))->Some_0,
            bytes,
        ),
{
    let rx = rx_channel(kind_of(t.kinds, fd))->Some_0;
    law_read_returns_write(t.region->Some_0.rings[rx as int], bytes);
}

/// The same of what the daemon writes, also where a client's command replaces the
/// daemon's on the wire.
pub proof fn law_writes_are_mirrored(t: TapView, fd: i32, bytes: Seq<u8>)
    requires
        watching(t, fd),
        bytes.len() <= RING_SIZE,
        roomy(t, tx_channel(kind_of(t.kinds, fd)), bytes.len()),
    ensures
        adds_to_one(
            t.region->Some_0.rings,
            writing(t, fd, bytes).region->Some_0.rings,
            tx_channel(kind_of(t.kinds, fd))->Some_0,
            bytes,
        ),
{
    let tx = tx_channel(kind_of(t.kinds, fd))->Some_0;
    law_read_returns_write(t.region->Some_0.rings[tx as int], bytes);
}

/// The descriptor is a watched device's, and the region's rings are in order.
pub open spec fn watching(t: TapView, fd: i32) -> bool {
    &&& kind_of(t.kinds, fd) == K_MCU || kind_of(t.kinds, fd) == K_LDS
    &&& t.region is Some
    &&& t.region->Some_0.rings.len() == NCHAN
    &&& forall|i: int| 0 <= i < NCHAN ==> (#[trigger] t.region->Some_0.rings[i]).wf()
}

/// From `before` to `after`, one ring has taken `bytes` and the others are as they were.
pub open spec fn adds_to_one(
    before: Seq<RingView>,
    after: Seq<RingView>,
    ch: usize,
    bytes: Seq<u8>,
) -> bool {
    &&& after.len() == before.len()
    &&& after[ch as int].pending(before[ch as int].head) == bytes
    &&& lost_bytes(after[ch as int].head, before[ch as int].head) == 0
    &&& forall|i: int| 0 <= i < before.len() && i != ch ==> after[i] == before[i]
}

/// Paths that do not end in one of the two ports are not watched.
pub proof fn law_other_paths_are_not_watched(kinds: Seq<u8>, fd: i32, path: Seq<u8>)
    requires
        !has_suffix(seen_path(path), mcu_port()),
        !has_suffix(seen_path(path), lds_port()),
    ensures
        after_open(kinds, fd, path) == kinds,
{
}

/// A path ends in a text exactly if it is something with that text behind it.
pub proof fn law_suffix_by_parts(a: Seq<u8>, suffix: Seq<u8>, s: Seq<u8>)
    ensures
        has_suffix(a + suffix, suffix),
        has_suffix(s, suffix) ==> s == s.take(s.len() - suffix.len()) + suffix,
{
    assert((a + suffix).skip(a.len() as int) =~= suffix);
    if has_suffix(s, suffix) {
        assert(s =~= s.take(s.len() - suffix.len()) + suffix);
    }
}

proof fn lemma_before_end_mark(s: Seq<u8>, behind: Seq<u8>)
    requires
        forall|i: int| 0 <= i < s.len() ==> #[trigger] s[i] != 0,
    ensures
        before_zero(s + seq![0u8] + behind) == s.len(),
        before_zero(s) == s.len(),
    decreases s.len(),
{
    let whole = s + seq![0u8] + behind;
    if s.len() > 0 {
        let rest = s.skip(1);
        assert forall|i: int| 0 <= i < rest.len() implies #[trigger] rest[i] != 0 by {
            assert(s[i + 1] != 0);
        }
        lemma_before_end_mark(rest, behind);
        assert(whole.skip(1) =~= rest + seq![0u8] + behind);
        assert(whole[0] == s[0] && s[0] != 0);
    }
}

/// A path that ends in `ttyS4` is the motor controller's and one that ends in `ttyS3` the
/// lidar's, with or without an end mark, and whatever stands behind that.
pub proof fn law_ports_by_their_paths(front: Seq<u8>, behind: Seq<u8>)
    requires
        forall|i: int| 0 <= i < front.len() ==> #[trigger] front[i] != 0,
        front.len() + 5 <= 512,
    ensures
        ({
            let mcu = front + seq!['t' as u8, 't' as u8, 'y' as u8, 'S' as u8, '4' as u8];
            let lds = front + seq!['t' as u8, 't' as u8, 'y' as u8, 'S' as u8, '3' as u8];
            &&& path_kind(mcu) == 1
            &&& path_kind(mcu + seq![0u8] + behind) == 1
            &&& path_kind(lds) == 2
            &&& path_kind(lds + seq![0u8] + behind) == 2
        }),
{
    let mcu = front + seq!['t' as u8, 't' as u8, 'y' as u8, 'S' as u8, '4' as u8];
    let lds = front + seq!['t' as u8, 't' as u8, 'y' as u8, 'S' as u8, '3' as u8];
    lemma_before_end_mark(mcu, behind);
    lemma_before_end_mark(lds, behind);
    assert(seen_path(mcu) =~= mcu);
    assert(seen_path(mcu + seq![0u8] + behind) =~= mcu);
    assert(seen_path(lds) =~= lds);
    assert(seen_path(lds + seq![0u8] + behind) =~= lds);
    assert(mcu.skip(front.len() as int) =~= mcu_port());
    assert(lds.skip(front.len() as int) =~= lds_port());
    assert(lds.skip(front.len() as int)[4] == 0x33 && mcu_port()[4] == 0x34);
}

/// A path whose last five bytes before its end are none of the two ports is nobody's, and
/// neither is one of fewer bytes.
pub proof fn law_other_paths_are_nobodys(path: Seq<u8>, behind: Seq<u8>)
    requires
        forall|i: int| 0 <= i < path.len() ==> #[trigger] path[i] != 0,
        path.len() <= 512,
        path.len() >= 5 ==> {
            let e = path.skip(path.len() - 5);
            e != seq!['t' as u8, 't' as u8, 'y' as u8, 'S' as u8, '4' as u8] && e != seq![
                't' as u8,
                't' as u8,
                'y' as u8,
                'S' as u8,
                '3' as u8,
            ]
        },
    ensures
        path_kind(path) == 0,
        path_kind(path + seq![0u8] + behind) == 0,
{
    lemma_before_end_mark(path, behind);
    assert(seen_path(path) =~= path);
    assert(seen_path(path + seq![0u8] + behind) =~= path);
    assert(mcu_port() =~= seq!['t' as u8, 't' as u8, 'y' as u8, 'S' as u8, '4' as u8]);
    assert(lds_port() =~= seq!['t' as u8, 't' as u8, 'y' as u8, 'S' as u8, '3' as u8]);
}

/// The channels of the devices: the motor controller's are 0 and 1, the lidar's 2 and 3,
/// each for what is read and then for what is written. Nothing else has one.
pub proof fn law_channels_by_device(kind: u8)
    ensures
        rx_channel(1) == Some(0usize) && tx_channel(1) == Some(1usize),
        rx_channel(2) == Some(2usize) && tx_channel(2) == Some(3usize),
        kind != 1 && kind != 2 ==> rx_channel(kind) is None && tx_channel(kind) is None,
{
}

/// An open of a watched port marks its descriptor and counts one open on the channel of
/// what is read from it. Descriptors below zero or from 4096 on are not watched.
pub proof fn law_open_marks_and_counts(t: TapView, r: RegionView, fd: i32, path: Seq<u8>)
    requires
        t.kinds.len() == 4096,
        t.region == Some(r),
        r.rings.len() == 4,
        r.rings[0].opens < u64::MAX,
        r.rings[2].opens < u64::MAX,
    ensures
        ({
            let after = opening(t, fd, path);
            let rings = after.region->Some_0.rings;
            let watched = 0 <= fd < 4096;
            &&& !watched ==> after == t
            &&& path_kind(path) == 0 ==> after == t
            &&& watched && path_kind(path) == 1 ==> {
                &&& after.kinds == t.kinds.update(fd as int, 1)
                &&& rings[0].opens == r.rings[0].opens + 1 && rings[0].recent == r.rings[0].recent
                    && rings[0].head == r.rings[0].head
                &&& rings[1] == r.rings[1] && rings[2] == r.rings[2] && rings[3] == r.rings[3]
            }
            &&& watched && path_kind(path) == 2 ==> {
                &&& after.kinds == t.kinds.update(fd as int, 2)
                &&& rings[2].opens == r.rings[2].opens + 1 && rings[2].recent == r.rings[2].recent
                    && rings[2].head == r.rings[2].head
                &&& rings[0] == r.rings[0] && rings[1] == r.rings[1] && rings[3] == r.rings[3]
            }
            &&& after.filter == t.filter && after.hazards == t.hazards
        }),
{
}

/// What is written to the lidar always passes as it is, and neither what is written to it
/// nor what is read from it bears on the drive requests or the hazard.
pub proof fn law_lidar_is_never_steered(t: TapView, r: RegionView, fd: i32, bytes: Seq<u8>)
    requires
        t.region == Some(r),
        0 <= fd < 4096,
        t.kinds[fd as int] == 2,
    ensures
        sent(t, fd, bytes) == bytes,
        writing(t, fd, bytes).filter == t.filter,
        writing(t, fd, bytes).region->Some_0.control == r.control,
        reading(t, fd, bytes).hazards == t.hazards,
        writing(t, fd, bytes).hazards == t.hazards,
{
}

/// The motor controller's port is the one that is steered: what is written to it goes by
/// the client's request and the hazard that was read from it.
pub proof fn law_motor_port_is_steered(t: TapView, r: RegionView, fd: i32, bytes: Seq<u8>)
    requires
        t.region == Some(r),
        0 <= fd < 4096,
        t.kinds[fd as int] == 1,
    ensures
        sent(t, fd, bytes) == written(t.filter, t.hazards.hazard, r.control, bytes),
        writing(t, fd, bytes).filter == filter_after(t.filter, r.control, bytes),
        writing(t, fd, bytes).region->Some_0.control == counted(
            t.filter,
            t.hazards.hazard,
            r.control,
            bytes,
        ),
        reading(t, fd, bytes).hazards == observed(t.hazards, bytes),
        reading(t, fd, bytes).filter == t.filter,
        reading(t, fd, bytes).region->Some_0.control == r.control,
{
}

/// A close unmarks its descriptor and no other.
pub proof fn law_close_unmarks(kinds: Seq<u8>, fd: i32)
    requires
        kinds.len() == 4096,
    ensures
        0 <= fd < 4096 ==> after_close(kinds, fd) == kinds.update(fd as int, 0),
        !(0 <= fd < 4096) ==> after_close(kinds, fd) == kinds,
{
}

/// Each device's bytes go to its own channels: what is read from the motor controller to
/// channel 0 and what is written to it to channel 1, as the daemon wrote it; the lidar's
/// to channels 2 and 3.
pub proof fn law_bytes_go_to_their_channel(t: TapView, r: RegionView, fd: i32, bytes: Seq<u8>)
    requires
        t.region == Some(r),
        0 <= fd < 4096,
    ensures
        ({
            let read = reading(t, fd, bytes).region->Some_0.rings;
            let wrote = writing(t, fd, bytes).region->Some_0.rings;
            let kind = t.kinds[fd as int];
            &&& kind == 1 ==> read == r.rings.update(0, r.rings[0].appended(bytes))
            &&& kind == 1 ==> wrote == r.rings.update(1, r.rings[1].appended(bytes))
            &&& kind == 2 ==> read == r.rings.update(2, r.rings[2].appended(bytes))
            &&& kind == 2 ==> wrote == r.rings.update(3, r.rings[3].appended(bytes))
            &&& kind != 1 && kind != 2 ==> read == r.rings && wrote == r.rings
        }),
{
}

/// Of a path only the first 512 bytes count.
pub proof fn law_long_paths_are_cut(path: Seq<u8>)
    requires
        forall|i: int| 0 <= i < path.len() ==> #[trigger] path[i] != 0,
        path.len() > 512,
    ensures
        path_kind(path) == path_kind(path.take(512)),
{
    let head = path.take(512);
    assert forall|i: int| 0 <= i < head.len() implies #[trigger] head[i] != 0 by {
        assert(path[i] != 0);
    }
    lemma_before_end_mark(path, Seq::empty());
    lemma_before_end_mark(head, Seq::empty());
    assert(seen_path(path) =~= head);
    assert(seen_path(head) =~= head);
}

/// The hazard is watched also without a shared region.
pub proof fn law_hazard_needs_no_region(t: TapView, fd: i32, bytes: Seq<u8>)
    requires
        0 <= fd < 4096,
    ensures
        t.kinds[fd as int] == 1 ==> reading(t, fd, bytes).hazards == observed(t.hazards, bytes),
        t.kinds[fd as int] != 1 ==> reading(t, fd, bytes).hazards == t.hazards,
        reading(t, fd, bytes).kinds == t.kinds,
        writing(t, fd, bytes).kinds == t.kinds,
        writing(t, fd, bytes).hazards == t.hazards,
        t.region is None ==> sent(t, fd, bytes) == bytes,
{
}

} // verus!
