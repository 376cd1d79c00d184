//! Staying connected to the relay.
use vstd::prelude::*;

verus! {

/// What happened on the connection to the relay.
#[derive(Clone, Copy, Debug, PartialEq, Eq, Structural)]
pub enum LinkEvent {
    /// A connection was made.
    Connected,
    /// No connection could be made.
    Refused,
    /// Bytes came, and were taken.
    Bytes,
    /// The relay closed the connection.
    Closed,
    /// Nothing came for a while.
    TimedOut,
    /// A read failed otherwise.
    Failed,
}

/// What to do next.
#[derive(Clone, Copy, Debug, PartialEq, Eq, Structural)]
pub enum LinkAction {
    /// Read from the connection.
    Read,
    /// Connect anew.
    Connect,
    /// Wait a little, then connect anew.
    WaitAndConnect,
    /// Give the connection up for good.
    End,
}

/// What to do next.
pub open spec fn link_next(shutdown: bool, event: LinkEvent) -> LinkAction {
    if shutdown {
        LinkAction::End
    } else {
        match event {
            LinkEvent::Connected | LinkEvent::Bytes | LinkEvent::TimedOut => LinkAction::Read,
            LinkEvent::Refused => LinkAction::WaitAndConnect,
            LinkEvent::Closed | LinkEvent::Failed => LinkAction::Connect,
        }
    }
}

/// Decides what to do next, given what happened and whether the driver is to shut down.
pub fn link_step(shutdown: bool, event: LinkEvent) -> (a: LinkAction)
    ensures
        a == link_next(shutdown, event),
{
    if shutdown {
        return LinkAction::End;
    }
    match event {
        LinkEvent::Connected => LinkAction::Read,
        LinkEvent::Bytes => LinkAction::Read,
        LinkEvent::TimedOut => LinkAction::Read,
        LinkEvent::Refused => LinkAction::WaitAndConnect,
        LinkEvent::Closed => LinkAction::Connect,
        LinkEvent::Failed => LinkAction::Connect,
    }
}

// ---------------------------------------------------------------------------
// Laws
// ---------------------------------------------------------------------------
/// The link ends on a shutdown and on nothing else. Short of that, a connection that was
/// closed or failed is made anew, one that could not be made is tried again, and one on
/// which nothing came is kept.
pub proof fn law_link_ends_only_on_shutdown(shutdown: bool, event: LinkEvent)
    ensures
        link_next(shutdown, event) == LinkAction::End <==> shutdown,
        !shutdown && (event is Closed || event is Failed) ==> link_next(shutdown, event)
            == LinkAction::Connect,
        !shutdown && event is Refused ==> link_next(shutdown, event) == LinkAction::WaitAndConnect,
        !shutdown && (event is TimedOut || event is Bytes || event is Connected) ==> link_next(
            shutdown,
            event,
        ) == LinkAction::Read,
{
}

/// The link is still up after these events, each with whether a shutdown was asked for
/// by then.
pub open spec fn still_up(events: Seq<(bool, LinkEvent)>) -> bool
    decreases events.len(),
{
    events.len() == 0 || still_up(events.drop_last()) && link_next(
        events.last().0,
        events.last().1,
    ) != LinkAction::End
}

/// Whatever happens on the connection, and however often, the link survives it as long
/// as no shutdown is asked for.
pub proof fn law_link_survives(events: Seq<(bool, LinkEvent)>)
    ensures
        still_up(events) <==> forall|i: int| 0 <= i < events.len() ==> !(#[trigger] events[i]).0,
    decreases events.len(),
{
    if events.len() > 0 {
        let front = events.drop_last();
        law_link_survives(front);
        assert forall|i: int| 0 <= i < front.len() implies front[i] == events[i] by {}
        if still_up(events) {
            assert forall|i: int| 0 <= i < events.len() implies !(#[trigger] events[i]).0 by {
                if i < front.len() {
                    assert(!front[i].0);
                }
            }
        }
    }
}

} // verus!
