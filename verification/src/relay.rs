//! The relay: one byte stream per channel, each client at its own pace.
use vstd::prelude::*;
use crate::frame::{FrameError, ScanView};
use crate::frame::{
    law_packet_is_found, law_packet_size, law_parse_inverts_body, packet, parsed, scan,
};
use crate::ring::{plan_read, ReadPlan, Ring};
use crate::ring::{holds, last_n, lost_bytes, read_count, read_from, readable, RingView, RING_SIZE};
use crate::shm::{CH_LDS_RX, CH_LDS_TX, CH_MCU_RX, CH_MCU_TX, NCHAN};
use crate::tap::TapView;
use crate::tap::{
    kind_of, law_reads_are_mirrored, law_writes_are_mirrored, reading, roomy, rx_channel,
    tx_channel, watching, writing,
};

verus! {

/// The port that takes drive requests.
pub const CONTROL_PORT: u16 = 7705;

/// One served channel.
pub struct Channel {
    pub port: u16,
    pub ring: usize,
    pub name: &'static str,
}

/// The port of each served channel, in the order they are served.
pub open spec fn channel_port(i: int) -> u16 {
    (7701 + i) as u16
}

/// The ring behind each served channel.
pub open spec fn channel_ring(i: int) -> usize {
    if i == 0 {
        CH_MCU_RX
    } else if i == 1 {
        CH_LDS_RX
    } else if i == 2 {
        CH_MCU_TX
    } else {
        CH_LDS_TX
    }
}

/// The name of each served channel.
pub open spec fn channel_name(i: int) -> Seq<char> {
    if i == 0 {
        "mcu-rx"@
    } else if i == 1 {
        "lds-rx"@
    } else if i == 2 {
        "mcu-tx"@
    } else {
        "lds-tx"@
    }
}

/// The `i`-th served channel.
pub fn channel(i: usize) -> (c: Channel)
    requires
        i < NCHAN,
    ensures
        c.port == channel_port(i as int),
        c.ring == channel_ring(i as int),
        c.name@ == channel_name(i as int),
{
    if i == 0 {
        Channel { port: 7701, ring: CH_MCU_RX, name: "mcu-rx" }
    } else if i == 1 {
        Channel { port: 7702, ring: CH_LDS_RX, name: "lds-rx" }
    } else if i == 2 {
        Channel { port: 7703, ring: CH_MCU_TX, name: "mcu-tx" }
    } else {
        Channel { port: 7704, ring: CH_LDS_TX, name: "lds-tx" }
    }
}

/// Where a client stands in its channel.
pub struct ClientView {
    pub tail: u64,
    pub total_lost: nat,
}

/// One client of a channel.
pub struct RelayClient {
    tail: u64,
    total_lost: u64,
}

impl View for RelayClient {
    type V = ClientView;

    closed spec fn view(&self) -> ClientView {
        ClientView { tail: self.tail, total_lost: self.total_lost as nat }
    }
}

impl RelayClient {
    /// A client that gets only what comes from now on.
    pub fn new(head: u64) -> (c: RelayClient)
        ensures
            c@ == (ClientView { tail: head, total_lost: 0 }),
    {
        RelayClient { tail: head, total_lost: 0 }
    }

    /// Lays out the client's next read of up to `room` bytes, moves the client behind
    /// it, and adds up what the client missed.
    pub fn advance(&mut self, head: u64, room: usize) -> (p: ReadPlan)
        requires
            readable(head, old(self)@.tail),
            old(self)@.total_lost + lost_bytes(head, old(self)@.tail) <= u64::MAX,
        ensures
            p.lost == lost_bytes(head, old(self)@.tail),
            p.from == read_from(head, old(self)@.tail),
            p.copied() == read_count(head, old(self)@.tail, room as nat),
            p.off == p.from as int % crate::ring::RING_SIZE as int,
            p.first == crate::ring::min_nat(
                (crate::ring::RING_SIZE - p.off) as nat,
                p.copied(),
            ),
            p.tail == p.from + p.copied(),
            final(self)@ == (ClientView {
                tail: p.tail,
                total_lost: old(self)@.total_lost + p.lost as nat,
            }),
            p.tail <= head,
    {
        let p: ReadPlan = plan_read(head, self.tail, room);
        self.tail = p.tail;
        self.total_lost = self.total_lost + p.lost;
        p
    }

    /// Reads the client's next bytes from a ring into `out`. The result is how many
    /// there are and how many the client missed before them.
    pub fn poll(&mut self, ring: &Ring, out: &mut [u8]) -> (r: (usize, u64))
        requires
            ring.wf(),
            readable(ring@.head, old(self)@.tail),
            old(self)@.total_lost + lost_bytes(ring@.head, old(self)@.tail) <= u64::MAX,
        ensures
            r.0 == read_count(ring@.head, old(self)@.tail, old(out)@.len()),
            r.1 == lost_bytes(ring@.head, old(self)@.tail),
            final(out)@ == ring@.pending(old(self)@.tail).take(r.0 as int) + old(out)@.skip(
                r.0 as int,
            ),
            final(self)@ == (ClientView {
                tail: (read_from(ring@.head, old(self)@.tail) + r.0) as u64,
                total_lost: old(self)@.total_lost + r.1 as nat,
            }),
            final(self)@.tail <= ring@.head,
    {
        let mut tail: u64 = self.tail;
        let (n, lost): (usize, u64) = ring.read(&mut tail, out);
        self.tail = tail;
        self.total_lost = self.total_lost + lost;
        (n, lost)
    }

    /// The ring was set up anew, behind the client: it goes on from `head`, and gets only
    /// what comes from now on.
    pub fn resume(&mut self, head: u64)
        ensures
            final(self)@ == (ClientView { tail: head, ..old(self)@ }),
    {
        self.tail = head;
    }

    /// The next position the client reads.
    pub fn tail(&self) -> (t: u64)
        ensures
            t == self@.tail,
    {
        self.tail
    }

    /// Bytes the client has missed so far.
    pub fn total_lost(&self) -> (n: u64)
        ensures
            n as nat == self@.total_lost,
    {
        self.total_lost
    }
}

/// What came of one round of serving a client.
#[derive(Clone, Copy, Debug, PartialEq, Eq, Structural)]
pub enum ServeEvent {
    /// There was nothing to send.
    Nothing,
    /// The bytes were sent.
    Sent,
    /// They could not be sent.
    SendFailed,
}

/// What to do next for a client.
#[derive(Clone, Copy, Debug, PartialEq, Eq, Structural)]
pub enum ServeAction {
    /// Wait a little, then poll.
    Wait,
    /// Poll at once.
    Poll,
    /// The client is gone.
    End,
}

/// What to do next for a client.
pub open spec fn serve_next(event: ServeEvent) -> ServeAction {
    match event {
        ServeEvent::Nothing => ServeAction::Wait,
        ServeEvent::Sent => ServeAction::Poll,
        ServeEvent::SendFailed => ServeAction::End,
    }
}

/// Decides what to do next for a client.
pub fn serve_step(event: ServeEvent) -> (a: ServeAction)
    ensures
        a == serve_next(event),
{
    match event {
        ServeEvent::Nothing => ServeAction::Wait,
        ServeEvent::Sent => ServeAction::Poll,
        ServeEvent::SendFailed => ServeAction::End,
    }
}

// ---------------------------------------------------------------------------
// Laws
// ---------------------------------------------------------------------------
/// The client after one poll.
pub open spec fn polled(c: ClientView, head: u64, room: nat) -> ClientView {
    ClientView {
        tail: (read_from(head, c.tail) + read_count(head, c.tail, room)) as u64,
        total_lost: c.total_lost + lost_bytes(head, c.tail),
    }
}

/// A client that began at `start` and never overtook the writer has accounted for every
/// byte since: those it missed and those it was given add up to how far it came. So it
/// can miss no more than were ever stored, and it can always be polled again.
pub proof fn law_client_accounting(
    c: ClientView,
    start: u64,
    given: nat,
    head: u64,
    room: nat,
)
    requires
        start <= c.tail <= head,
        c.total_lost + given == c.tail - start,
    ensures
        readable(head, c.tail),
        c.total_lost + lost_bytes(head, c.tail) <= u64::MAX,
        ({
            let next = polled(c, head, room);
            &&& start <= next.tail <= head
            &&& next.total_lost + (given + read_count(head, c.tail, room)) == next.tail - start
        }),
{
}

/// A client of a channel gets the channel's stream in order: what one poll leaves is
/// what the next begins with.
pub proof fn law_polls_are_in_order(v: RingView, c: ClientView, room: nat)
    requires
        v.wf(),
        c.tail <= v.head,
    ensures
        v.pending(polled(c, v.head, room).tail) == v.pending(c.tail).skip(
            read_count(v.head, c.tail, room) as int,
        ),
{
    crate::ring::law_reads_compose(v, c.tail, read_count(v.head, c.tail, room));
}

/// One poll: the ring as it is then, and the client's room.
pub struct PollAt {
    pub ring: RingView,
    pub room: nat,
}

/// The polls see one stream, further and further along.
pub open spec fn polls_along(polls: Seq<PollAt>, stream: Seq<u8>) -> bool {
    &&& forall|i: int|
        0 <= i < polls.len() ==> (#[trigger] polls[i]).ring.head <= stream.len() && holds(
            polls[i].ring,
            stream.take(polls[i].ring.head as int),
        )
    &&& forall|i: int, j: int|
        0 <= i < j < polls.len() ==> (#[trigger] polls[i]).ring.head <= (
        #[trigger] polls[j]).ring.head
}

/// The client after several polls.
pub open spec fn polled_all(c: ClientView, polls: Seq<PollAt>) -> ClientView
    decreases polls.len(),
{
    if polls.len() == 0 {
        c
    } else {
        let p = polls.last();
        polled(polled_all(c, polls.drop_last()), p.ring.head, p.room)
    }
}

/// The bytes that several polls give, in order.
pub open spec fn bytes_given(c: ClientView, polls: Seq<PollAt>) -> Seq<u8>
    decreases polls.len(),
{
    if polls.len() == 0 {
        Seq::empty()
    } else {
        let p = polls.last();
        let at = polled_all(c, polls.drop_last()).tail;
        bytes_given(c, polls.drop_last()) + p.ring.pending(at).take(
            read_count(p.ring.head, at, p.room) as int,
        )
    }
}

/// The stream positions of those bytes.
pub open spec fn positions_given(c: ClientView, polls: Seq<PollAt>) -> Seq<int>
    decreases polls.len(),
{
    if polls.len() == 0 {
        Seq::empty()
    } else {
        let p = polls.last();
        let at = polled_all(c, polls.drop_last()).tail;
        positions_given(c, polls.drop_last()) + Seq::new(
            read_count(p.ring.head, at, p.room),
            |k: int| read_from(p.ring.head, at) + k,
        )
    }
}

/// A client's whole stay, poll after poll: the bytes it is given are bytes of the
/// channel's stream, in order and none twice, none from before it came; and what it was
/// given and what it was told it missed add up to how far it has come.
#[verifier::spinoff_prover]
pub proof fn law_client_gets_the_stream(c: ClientView, polls: Seq<PollAt>, stream: Seq<u8>)
    requires
        polls_along(polls, stream),
        forall|i: int| 0 <= i < polls.len() ==> c.tail <= (#[trigger] polls[i]).ring.head,
    ensures
        ({
            let end = polled_all(c, polls);
            let bytes = bytes_given(c, polls);
            let at = positions_given(c, polls);
            &&& c.tail <= end.tail
            &&& polls.len() > 0 ==> end.tail <= polls.last().ring.head
            &&& bytes.len() + (end.total_lost - c.total_lost) == end.tail - c.tail
            &&& at.len() == bytes.len()
            &&& forall|k: int|
                0 <= k < at.len() ==> c.tail <= #[trigger] at[k] < end.tail && at[k]
                    < stream.len() && bytes[k] == stream[at[k]]
            &&& forall|j: int, k: int|
                0 <= j < k < at.len() ==> #[trigger] at[j] < #[trigger] at[k]
        }),
    decreases polls.len(),
{
    if polls.len() > 0 {
        let front = polls.drop_last();
        assert forall|i: int| 0 <= i < front.len() implies front[i] == polls[i] by {}
        law_client_gets_the_stream(c, front, stream);
        let p = polls.last();
        assert(p == polls[polls.len() - 1]);
        let mid = polled_all(c, front);
        if front.len() > 0 {
            assert(front.last() == polls[front.len() - 1]);
        }
        assert(mid.tail <= p.ring.head);
        let from = read_from(p.ring.head, mid.tail);
        let n = read_count(p.ring.head, mid.tail, p.room);
        let more = p.ring.pending(mid.tail).take(n as int);
        let before = positions_given(c, front);
        let at = positions_given(c, polls);
        let bytes = bytes_given(c, polls);
        let old_bytes = bytes_given(c, front);
        assert(p.ring.recent == last_n(stream.take(p.ring.head as int), RING_SIZE as nat));
        assert forall|k: int| 0 <= k < n implies more[k] == stream[from + k] by {}
        assert forall|k: int| 0 <= k < at.len() implies c.tail <= #[trigger] at[k] < polled_all(
            c,
            polls,
        ).tail && at[k] < stream.len() && bytes[k] == stream[at[k]] by {
            if k < before.len() {
                assert(at[k] == before[k]);
                assert(bytes[k] == old_bytes[k]);
            } else {
                assert(at[k] == from + (k - before.len()));
                assert(bytes[k] == more[k - before.len()]);
            }
        }
        assert forall|j: int, k: int| 0 <= j < k < at.len() implies #[trigger] at[j]
            < #[trigger] at[k] by {
            if k < before.len() {
                assert(at[j] == before[j] && at[k] == before[k]);
            } else if j < before.len() {
                assert(at[j] == before[j]);
            }
        }
    }
}

/// Serving a client ends only when something could not be sent to it.
pub proof fn law_serving_ends_on_failed_send(event: ServeEvent)
    ensures
        serve_next(event) == ServeAction::End <==> event == ServeEvent::SendFailed,
{
}

/// The bridge delivers what the robot says: when the daemon reads a frame from a watched
/// port, a client of that port's channel that was up to date is given bytes in which a
/// decoder finds that frame, with its type and payload, and nothing else.
pub proof fn law_telemetry_reaches_the_client(
    t: TapView,
    fd: i32,
    typ: u8,
    payload: Seq<u8>,
)
    requires
        watching(t, fd),
        payload.len() <= 255,
        roomy(t, rx_channel(kind_of(t.kinds, fd)), packet(typ, payload).len()),
    ensures
        ({
            let ch = rx_channel(kind_of(t.kinds, fd))->Some_0 as int;
            let head = t.region->Some_0.rings[ch].head;
            let after = reading(t, fd, packet(typ, payload)).region->Some_0.rings[ch];
            let bodies = scan(ScanView::Outside, after.pending(head)).1;
            &&& lost_bytes(after.head, head) == 0
            &&& bodies.len() == 1
            &&& parsed(bodies[0]) == Ok::<(u8, Seq<u8>), FrameError>((typ, payload))
        }),
{
    law_packet_size(typ, payload);
    law_reads_are_mirrored(t, fd, packet(typ, payload));
    law_packet_is_found(ScanView::Outside, typ, payload);
    law_parse_inverts_body(typ, payload);
}

/// The same of what the daemon commands, also where a client's command replaces it on
/// its way to the robot.
pub proof fn law_commands_reach_the_client(t: TapView, fd: i32, typ: u8, payload: Seq<u8>)
    requires
        watching(t, fd),
        payload.len() <= 255,
        roomy(t, tx_channel(kind_of(t.kinds, fd)), packet(typ, payload).len()),
    ensures
        ({
            let ch = tx_channel(kind_of(t.kinds, fd))->Some_0 as int;
            let head = t.region->Some_0.rings[ch].head;
            let after = writing(t, fd, packet(typ, payload)).region->Some_0.rings[ch];
            let bodies = scan(ScanView::Outside, after.pending(head)).1;
            &&& lost_bytes(after.head, head) == 0
            &&& bodies.len() == 1
            &&& parsed(bodies[0]) == Ok::<(u8, Seq<u8>), FrameError>((typ, payload))
        }),
{
    law_packet_size(typ, payload);
    law_writes_are_mirrored(t, fd, packet(typ, payload));
    law_packet_is_found(ScanView::Outside, typ, payload);
    law_parse_inverts_body(typ, payload);
}

/// Each channel is served on its own port and from its own ring.
pub proof fn law_channels_served_apart(i: int, j: int)
    requires
        0 <= i < j < NCHAN,
    ensures
        channel_port(i) != channel_port(j),
        channel_ring(i) != channel_ring(j),
        channel_ring(i) < NCHAN,
        channel_ring(j) < NCHAN,
        channel_port(j) != CONTROL_PORT,
        channel_port(i) != CONTROL_PORT,
{
}

/// The channels by their ports: what the motor controller says on 7701, what the lidar
/// says on 7702, what the daemon writes to them on 7703 and 7704.
pub proof fn law_channels_by_port()
    ensures
        channel_port(0) == 7701 && channel_name(0) == "mcu-rx"@ && rx_channel(1) == Some(
            channel_ring(0),
        ),
        channel_port(1) == 7702 && channel_name(1) == "lds-rx"@ && rx_channel(2) == Some(
            channel_ring(1),
        ),
        channel_port(2) == 7703 && channel_name(2) == "mcu-tx"@ && tx_channel(1) == Some(
            channel_ring(2),
        ),
        channel_port(3) == 7704 && channel_name(3) == "lds-tx"@ && tx_channel(2) == Some(
            channel_ring(3),
        ),
        CONTROL_PORT == 7705,
{
}

/// After each round: with nothing to send the relay waits, after sending it polls at once.
pub proof fn law_rounds_go_on(event: ServeEvent)
    ensures
        serve_next(event) == ServeAction::Wait <==> event == ServeEvent::Nothing,
        serve_next(event) == ServeAction::Poll <==> event == ServeEvent::Sent,
{
}

} // verus!
