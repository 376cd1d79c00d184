//! The region shared between the tap and the relay: one ring per channel and the
//! control block.
use vstd::prelude::*;
use crate::control::Control;
use crate::ring::{Ring, RingView};
use crate::ring::stored;

verus! {

/// The file that backs the region.
pub const SHM_PATH: &'static str = "/tmp/avatap.shm";

/// Marks a region that is ready ("ATAP").
pub const MAGIC: u32 = 0x5041_5441;

/// Layout version.
pub const VERSION: u32 = 1;

/// Telemetry from the MCU.
pub const CH_MCU_RX: usize = 0;

/// Commands to the MCU.
pub const CH_MCU_TX: usize = 1;

/// Scan bytes from the lidar.
pub const CH_LDS_RX: usize = 2;

/// Bytes to the lidar.
pub const CH_LDS_TX: usize = 3;

/// Number of channels.
pub const NCHAN: usize = 4;

/// True when a region with these marks is ready and of the known version.
pub fn marks_ready(magic: u32, version: u32) -> (r: bool)
    ensures
        r == (magic == MAGIC && version == VERSION),
{
    magic == MAGIC && version == VERSION
}

/// The region.
pub struct Shm {
    pub magic: u32,
    pub version: u32,
    /// When the tap set the region up.
    pub started_ns: u64,
    pub ring: Vec<Ring>,
    pub control: Control,
}

impl Shm {
    /// One well-formed ring per channel.
    pub open spec fn wf(&self) -> bool {
        self.ring@.len() == NCHAN && forall|i: int|
            0 <= i < NCHAN ==> (#[trigger] self.ring@[i]).wf()
    }

    /// A reader may use the region.
    pub open spec fn ready(&self) -> bool {
        self.magic == MAGIC && self.version == VERSION
    }

    /// What the rings hold.
    pub open spec fn rings(&self) -> Seq<RingView> {
        self.ring@.map_values(|r: Ring| r@)
    }

    /// A fresh region: all zero.
    pub fn zeroed() -> (s: Shm)
        ensures
            s.wf(),
            !s.ready(),
            s.magic == 0,
            s.version == 0,
            s.started_ns == 0,
            s.rings() == Seq::new(
                NCHAN as nat,
                |i: int| RingView { head: 0, opens: 0, recent: Seq::empty() },
            ),
            s.control == Control::spec_idle(),
    {
        let mut ring: Vec<Ring> = Vec::new();
        ring.push(Ring::new());
        ring.push(Ring::new());
        ring.push(Ring::new());
        ring.push(Ring::new());
        let s: Shm = Shm { magic: 0, version: 0, started_ns: 0, ring, control: Control::idle() };
        assert(s.rings() =~= Seq::new(
            NCHAN as nat,
            |i: int| RingView { head: 0, opens: 0, recent: Seq::empty() },
        ));
        s
    }

    /// Sets a region up for readers. The rings and the control block stay as they are.
    pub fn init(&mut self, started_ns: u64)
        requires
            old(self).wf(),
        ensures
            final(self).wf(),
            final(self).ready(),
            final(self).started_ns == started_ns,
            final(self).rings() == old(self).rings(),
            final(self).control == old(self).control,
    {
        self.started_ns = started_ns;
        self.version = VERSION;
        self.magic = MAGIC;
    }

    /// The region as a reader sees it, if it is ready and of the known version.
    pub fn view(&self) -> (r: Option<&Shm>)
        ensures
            r == (if self.ready() {
                Some(self)
            } else {
                None
            }),
    {
        if marks_ready(self.magic, self.version) {
            Some(self)
        } else {
            None
        }
    }

    /// Appends `bytes` to one channel's ring.
    pub fn publish(&mut self, ch: usize, bytes: &[u8])
        requires
            old(self).wf(),
            ch < NCHAN,
            old(self).rings()[ch as int].head + stored(bytes@.len()) <= u64::MAX,
        ensures
            final(self).wf(),
            final(self).rings() == old(self).rings().update(
                ch as int,
                old(self).rings()[ch as int].appended(bytes@),
            ),
            final(self).magic == old(self).magic,
            final(self).version == old(self).version,
            final(self).started_ns == old(self).started_ns,
            final(self).control == old(self).control,
    {
        let ghost before = self.rings();
        assert(before[ch as int] == self.ring@[ch as int]@);
        if bytes.len() == 0 {
            proof {
                self.ring@[ch as int].lemma_view_wf();
                let v = before[ch as int];
                assert(v.recent + bytes@ =~= v.recent);
                assert(before.update(ch as int, v.appended(bytes@)) =~= before);
            }
            return;
        }
        self.ring[ch].write(bytes);
        assert(self.rings() =~= before.update(ch as int, before[ch as int].appended(bytes@)));
    }

    /// Notes an open of the device behind one channel's ring.
    pub fn note_open(&mut self, ch: usize)
        requires
            old(self).wf(),
            ch < NCHAN,
        ensures
            final(self).wf(),
            final(self).rings() == old(self).rings().update(
                ch as int,
                opened(old(self).rings()[ch as int]),
            ),
            final(self).magic == old(self).magic,
            final(self).version == old(self).version,
            final(self).started_ns == old(self).started_ns,
            final(self).control == old(self).control,
    {
        let ghost before = self.rings();
        self.ring[ch].note_open();
        assert(self.rings() =~= before.update(ch as int, opened(before[ch as int])));
    }
}

/// A ring after its device was opened once more.
pub open spec fn opened(v: RingView) -> RingView {
    RingView {
        opens: if v.opens == u64::MAX {
            0
        } else {
            (v.opens + 1) as u64
        },
        ..v
    }
}

// ---------------------------------------------------------------------------
// Setting the region up once
// ---------------------------------------------------------------------------
/// Nobody has tried to map the region.
pub const MAP_UNINIT: u32 = 0;

/// Someone is mapping it.
pub const MAP_BUSY: u32 = 1;

/// It is mapped.
pub const MAP_READY: u32 = 2;

/// It could not be mapped; nobody tries again.
pub const MAP_FAILED: u32 = 3;

/// The state after a claim of the mapping, if it can be claimed.
pub open spec fn claim_of(state: u32) -> Option<u32> {
    if state == MAP_UNINIT {
        Some(MAP_BUSY)
    } else {
        None
    }
}

/// The state once the claimant is done.
pub open spec fn settled(mapped: bool) -> u32 {
    if mapped {
        MAP_READY
    } else {
        MAP_FAILED
    }
}

/// The state after claiming the mapping, for the one caller that may.
pub fn claim_mapping(state: u32) -> (r: Option<u32>)
    ensures
        r == claim_of(state),
{
    if state == MAP_UNINIT {
        Some(MAP_BUSY)
    } else {
        None
    }
}

/// The state once the claimant is done.
pub fn settle_mapping(mapped: bool) -> (state: u32)
    ensures
        state == settled(mapped),
{
    if mapped {
        MAP_READY
    } else {
        MAP_FAILED
    }
}

/// A clock reading in nanoseconds; zero when the clock could not be read.
pub fn monotonic_ns(read: bool, sec: i64, nsec: i64) -> (ns: u64)
    requires
        read ==> 0 <= sec && 0 <= nsec && sec * 1_000_000_000 + nsec <= u64::MAX,
    ensures
        ns == (if read {
            sec * 1_000_000_000 + nsec
        } else {
            0
        }),
{
    if read {
        sec as u64 * 1_000_000_000 + nsec as u64
    } else {
        0
    }
}

// ---------------------------------------------------------------------------
// Laws
// ---------------------------------------------------------------------------
/// The mapping is claimed at most once: once someone has claimed it, it can be claimed
/// neither while it is being made nor after it was made or failed.
pub proof fn law_mapping_is_claimed_once(state: u32, mapped: bool)
    ensures
        claim_of(state) matches Some(busy) ==> claim_of(busy) is None,
        claim_of(settled(mapped)) is None,
{
}

/// The mapping by its numbers: only 0 can be claimed, which makes it 1; it ends at 2 when
/// it was made and at 3 when it was not.
pub proof fn law_mapping_by_number(state: u32)
    ensures
        claim_of(0) == Some(1u32),
        state != 0 ==> claim_of(state) is None,
        settled(true) == 2,
        settled(false) == 3,
{
}

/// An open counts one more, and leaves the bytes and their count.
pub proof fn law_open_counts_one(v: RingView)
    ensures
        v.opens < u64::MAX ==> opened(v).opens == v.opens + 1,
        opened(v).head == v.head,
        opened(v).recent == v.recent,
{
}

/// The mark spells `ATAP`, and the layout is the first.
pub proof fn law_marks_by_value()
    ensures
        MAGIC == 'A' as int + 0x100 * 'T' as int + 0x1_0000 * 'A' as int + 0x100_0000 * 'P' as int,
        VERSION == 1,
{
}

} // verus!
