//! Relaying bytes through a tunnel: counting them, and noticing that none have passed for a while.

use vstd::prelude::*;
use vstd::string::*;

verus! {

/// How many bytes each direction of a tunnel reads at once.
pub const BUFFER_SIZE: usize = 65536;

/// One direction of a tunnel: how many bytes have passed.
#[derive(Clone, Copy, Debug, PartialEq, Eq, Structural)]
pub struct Pump {
    pub transferred: u64,
}

/// What to do after a read.
#[derive(Clone, Copy, Debug, PartialEq, Eq, Structural)]
pub enum PumpAction {
    /// Write the bytes that were read, so many of them.
    Forward(usize),
    /// Shut down the other side: so many bytes have passed in all.
    Finish(u64),
}

impl Pump {
    /// What is done after a read of `read` bytes; none at all mean the end.
    pub open spec fn read_action(self, read: usize) -> PumpAction {
        if read == 0 {
            PumpAction::Finish(self.transferred)
        } else {
            PumpAction::Forward(read)
        }
    }

    /// A direction in which nothing has passed.
    pub fn new() -> (pump: Self)
        ensures
            pump.transferred == 0,
    {
        Pump { transferred: 0 }
    }

    /// Decides what to do after a read of `read` bytes; none at all mean the end.
    pub fn after_read(&self, read: usize) -> (action: PumpAction)
        ensures
            action == self.read_action(read),
    {
        if read == 0 {
            PumpAction::Finish(self.transferred)
        } else {
            PumpAction::Forward(read)
        }
    }

    /// Counts bytes that have been written.
    pub fn after_write(&mut self, written: usize)
        requires
            old(self).transferred + written <= u64::MAX,
        ensures
            final(self).transferred == old(self).transferred + written,
    {
        self.transferred = self.transferred + written as u64;
    }
}

/// The sum of lengths.
pub open spec fn total(lengths: Seq<usize>) -> int
    decreases lengths.len(),
{
    if lengths.len() == 0 {
        0
    } else {
        total(lengths.drop_last()) + lengths.last()
    }
}

/// Whether a direction goes from state to state by forwarding pieces of these lengths, from one in
/// which nothing has passed.
pub open spec fn forwards(pumps: Seq<Pump>, lengths: Seq<usize>) -> bool {
    &&& pumps.len() == lengths.len() + 1
    &&& pumps[0].transferred == 0
    &&& forall|i: int|
        0 <= i < lengths.len() ==> {
            &&& pumps[i].read_action(#[trigger] lengths[i]) == PumpAction::Forward(lengths[i])
            &&& pumps[i + 1].transferred == pumps[i].transferred + lengths[i]
        }
}

/// Whatever pieces a direction has forwarded, at its end it reports the sum of their lengths.
pub proof fn law_direction_counts_its_bytes(pumps: Seq<Pump>, lengths: Seq<usize>)
    requires
        forwards(pumps, lengths),
    ensures
        pumps.last().read_action(0) matches PumpAction::Finish(count) && count == total(lengths),
    decreases lengths.len(),
{
    if lengths.len() > 0 {
        let n = lengths.len() - 1;
        let earlier = lengths.drop_last();
        assert forall|i: int| 0 <= i < earlier.len() implies {
            &&& pumps.drop_last()[i].read_action(#[trigger] earlier[i]) == PumpAction::Forward(
                earlier[i],
            )
            &&& pumps.drop_last()[i + 1].transferred == pumps.drop_last()[i].transferred
                + earlier[i]
        } by {
            assert(earlier[i] == lengths[i]);
        }
        law_direction_counts_its_bytes(pumps.drop_last(), earlier);
        assert(pumps[n + 1].transferred == pumps[n].transferred + lengths[n]);
    }
}

/// A read of any bytes has all of them forwarded, and only a read of none ends a direction, with
/// the number of bytes that have passed.
pub proof fn law_reads_are_forwarded_whole(pump: &Pump, read: usize, action: PumpAction)
    requires
        call_ensures(Pump::after_read, (pump, read), action),
    ensures
        read > 0 ==> action == PumpAction::Forward(read),
        read == 0 ==> action == PumpAction::Finish(pump.transferred),
{
}

/// What is forwarded of a piece that was read.
pub open spec fn forwarded(piece: Seq<u8>, action: PumpAction) -> Seq<u8> {
    match action {
        PumpAction::Forward(count) => piece.take(count as int),
        PumpAction::Finish(_) => Seq::empty(),
    }
}

/// Pieces in a row.
pub open spec fn concatenated(pieces: Seq<Seq<u8>>) -> Seq<u8>
    decreases pieces.len(),
{
    if pieces.len() == 0 {
        Seq::empty()
    } else {
        concatenated(pieces.drop_last()) + pieces.last()
    }
}

/// Whether a direction goes from state to state by writing as many bytes as were read each time,
/// from one in which nothing has passed.
pub open spec fn counts(pumps: Seq<Pump>, lengths: Seq<usize>) -> bool {
    &&& pumps.len() == lengths.len() + 1
    &&& pumps[0].transferred == 0
    &&& forall|i: int|
        0 <= i < lengths.len() ==> pumps[i + 1].transferred == pumps[i].transferred + (
        #[trigger] lengths[i])
}

/// Whatever pieces a direction reads, the bytes that it forwards are all of them in their order,
/// and at its end it reports how many they were.
pub proof fn law_direction_keeps_its_bytes(
    pumps: Seq<Pump>,
    pieces: Seq<Seq<u8>>,
    lengths: Seq<usize>,
)
    requires
        lengths.len() == pieces.len(),
        forall|i: int| 0 <= i < pieces.len() ==> (#[trigger] pieces[i]).len() == lengths[i],
        forall|i: int| 0 <= i < lengths.len() ==> #[trigger] lengths[i] > 0,
        counts(pumps, lengths),
    ensures
        concatenated(
            Seq::new(pieces.len(), |i: int| forwarded(pieces[i], pumps[i].read_action(lengths[i]))),
        ) == concatenated(pieces),
        pumps.last().read_action(0) matches PumpAction::Finish(count) && count == concatenated(
            pieces,
        ).len() && count == total(lengths),
{
    let sent = Seq::new(
        pieces.len(),
        |i: int| forwarded(pieces[i], pumps[i].read_action(lengths[i])),
    );
    assert forall|i: int| 0 <= i < pieces.len() implies sent[i] == pieces[i] by {
        assert(pieces[i].len() == lengths[i] && lengths[i] > 0);
        assert(pieces[i].take(lengths[i] as int) == pieces[i]);
    }
    assert(sent == pieces);
    lemma_counted(pumps, pieces, lengths);
}

/// The count is the number of bytes.
proof fn lemma_counted(pumps: Seq<Pump>, pieces: Seq<Seq<u8>>, lengths: Seq<usize>)
    requires
        lengths.len() == pieces.len(),
        forall|i: int| 0 <= i < pieces.len() ==> (#[trigger] pieces[i]).len() == lengths[i],
        counts(pumps, lengths),
    ensures
        pumps.last().transferred == concatenated(pieces).len(),
        pumps.last().transferred == total(lengths),
    decreases pieces.len(),
{
    if pieces.len() > 0 {
        let n = lengths.len() - 1;
        let earlier = lengths.drop_last();
        assert forall|i: int| 0 <= i < n implies pumps.drop_last()[i + 1].transferred
            == pumps.drop_last()[i].transferred + (#[trigger] earlier[i]) by {
            assert(earlier[i] == lengths[i]);
        }
        assert forall|i: int| 0 <= i < n implies (#[trigger] pieces.drop_last()[i]).len()
            == earlier[i] by {
            assert(pieces[i].len() == lengths[i]);
        }
        lemma_counted(pumps.drop_last(), pieces.drop_last(), earlier);
        assert(pieces[n].len() == lengths[n]);
        assert(pumps[n + 1].transferred == pumps[n].transferred + lengths[n]);
    }
}

/// Written bytes are counted, and a direction begins with none.
pub proof fn law_written_bytes_are_counted(pump: &mut Pump, written: usize, fresh: Pump)
    requires
        call_ensures(Pump::after_write, (pump, written), ()),
        call_ensures(Pump::new, (), fresh),
    ensures
        final(pump).transferred - old(pump).transferred == written,
        fresh.transferred == 0,
{
}

/// What has happened while the tunnel was watched.
#[derive(Clone, Copy, Debug, PartialEq, Eq, Structural)]
pub enum WatchEvent {
    /// The watch has begun.
    Started,
    /// The time until which to wait has come.
    Woken,
    /// Bytes have passed.
    Activity,
    /// Nobody is left who could report that bytes pass.
    Abandoned,
}

/// What the watch does next.
#[derive(Clone, Copy, Debug, PartialEq, Eq, Structural)]
pub enum WatchAction {
    /// Wait until this time, or until bytes pass.
    WaitUntil(u128),
    /// Wait for the tunnel to end, however long that takes.
    WaitForEnd,
    /// Give the tunnel up.
    Expire,
}

/// What the watch does next, with times in nanoseconds.
pub open spec fn watched(
    event: WatchEvent,
    last_activity: u128,
    now: u128,
    timeout: u128,
) -> WatchAction {
    match event {
        WatchEvent::Abandoned => WatchAction::Expire,
        WatchEvent::Woken => if now - last_activity >= timeout {
            WatchAction::Expire
        } else {
            WatchAction::WaitUntil((last_activity + timeout) as u128)
        },
        _ => WatchAction::WaitUntil((last_activity + timeout) as u128),
    }
}

/// Decides what the watch does next. Times are in nanoseconds from a common origin:
/// `last_activity` is when bytes last passed, in either direction.
pub fn idle_watchdog(event: WatchEvent, last_activity: u128, now: u128, timeout: u128) -> (action:
    WatchAction)
    requires
        last_activity + timeout <= u128::MAX,
    ensures
        action == watched(event, last_activity, now, timeout),
{
    let deadline: u128 = last_activity + timeout;
    match event {
        WatchEvent::Abandoned => WatchAction::Expire,
        WatchEvent::Woken => if now >= deadline {
            WatchAction::Expire
        } else {
            WatchAction::WaitUntil(deadline)
        },
        WatchEvent::Started => WatchAction::WaitUntil(deadline),
        WatchEvent::Activity => WatchAction::WaitUntil(deadline),
    }
}

/// A tunnel that bytes can still pass is given up only when none have passed for the whole
/// timeout, and the watch never waits longer than that after the last of them.
pub proof fn law_only_idle_tunnels_expire(
    event: WatchEvent,
    last_activity: u128,
    now: u128,
    timeout: u128,
)
    requires
        last_activity + timeout <= u128::MAX,
    ensures
        match watched(event, last_activity, now, timeout) {
            WatchAction::Expire => event == WatchEvent::Abandoned || now - last_activity >= timeout,
            WatchAction::WaitUntil(time) => time - last_activity == timeout && (event
                == WatchEvent::Woken ==> time > now),
            WatchAction::WaitForEnd => false,
        },
{
}

/// What the watch does next over a tunnel that may have an idle timeout.
pub open spec fn tunnel_watched(
    event: WatchEvent,
    last_activity: u128,
    now: u128,
    idle_timeout: Option<u128>,
) -> WatchAction {
    match idle_timeout {
        Some(timeout) => watched(event, last_activity, now, timeout),
        None => WatchAction::WaitForEnd,
    }
}

/// Decides what the watch does next over a tunnel that may have an idle timeout; without one it
/// never gives the tunnel up. Times are as for [`idle_watchdog`].
pub fn watch_tunnel(
    event: WatchEvent,
    last_activity: u128,
    now: u128,
    idle_timeout: Option<u128>,
) -> (action: WatchAction)
    requires
        idle_timeout matches Some(timeout) ==> last_activity + timeout <= u128::MAX,
    ensures
        action == tunnel_watched(event, last_activity, now, idle_timeout),
        idle_timeout is None ==> action != WatchAction::Expire,
{
    match idle_timeout {
        Some(timeout) => idle_watchdog(event, last_activity, now, timeout),
        None => WatchAction::WaitForEnd,
    }
}

/// One of the two ways through a tunnel.
#[derive(Clone, Copy, Debug, PartialEq, Eq, Structural)]
pub enum Direction {
    ToUpstream,
    ToClient,
}

/// What has happened to a tunnel.
#[derive(Debug)]
pub enum RelayEvent {
    /// A direction has ended, after so many bytes.
    Ended(Direction, u64),
    /// A direction has failed; the text says how.
    Failed(String),
    /// No bytes have passed for the whole idle timeout.
    Expired,
}

/// Why a tunnel was given up.
#[derive(Debug)]
pub enum RelayError {
    /// A direction failed; the text says how.
    Io(String),
    IdleTimeout,
}

impl RelayError {
    /// Describes the error.
    pub fn to_string(&self) -> (text: String)
        ensures
            text@ == self.message_text(),
    {
        match self {
            RelayError::Io(text) => text.as_str().to_owned(),
            RelayError::IdleTimeout => "tunnel idle timeout elapsed".to_owned(),
        }
    }

    /// The text that describes the error.
    pub open spec fn message_text(&self) -> Seq<char> {
        match self {
            RelayError::Io(text) => text@,
            RelayError::IdleTimeout => "tunnel idle timeout elapsed"@,
        }
    }
}

/// A tunnel: how many bytes have passed each way, once that way has ended.
#[derive(Clone, Copy, Debug, PartialEq, Eq, Structural)]
pub struct Relay {
    pub sent: Option<u64>,
    pub received: Option<u64>,
}

/// What an event makes of a tunnel.
pub open spec fn relayed(relay: Relay, event: RelayEvent) -> Relay {
    match event {
        RelayEvent::Ended(Direction::ToUpstream, count) => Relay { sent: Some(count), ..relay },
        RelayEvent::Ended(Direction::ToClient, count) => Relay { received: Some(count), ..relay },
        _ => relay,
    }
}

/// What the tunnel has come to: how many bytes passed each way when both have ended, or the first
/// thing that went wrong.
pub open spec fn relay_result(relay: Relay, event: RelayEvent) -> Option<
    Result<(u64, u64), RelayError>,
> {
    match event {
        RelayEvent::Failed(text) => Some(Err(RelayError::Io(text))),
        RelayEvent::Expired => Some(Err(RelayError::IdleTimeout)),
        RelayEvent::Ended(_, _) => {
            let after = relayed(relay, event);
            if after.sent is Some && after.received is Some {
                Some(Ok((after.sent->0, after.received->0)))
            } else {
                None
            }
        },
    }
}

impl Relay {
    /// A tunnel through which bytes can pass both ways.
    pub fn new() -> (relay: Self)
        ensures
            relay == (Relay { sent: None, received: None }),
    {
        Relay { sent: None, received: None }
    }

    /// Takes in what has happened, and tells what the tunnel has come to, if it is over.
    pub fn relay_bidirectional(&mut self, event: RelayEvent) -> (result: Option<
        Result<(u64, u64), RelayError>,
    >)
        ensures
            *final(self) == relayed(*old(self), event),
            result == relay_result(*old(self), event),
    {
        match event {
            RelayEvent::Failed(text) => return Some(Err(RelayError::Io(text))),
            RelayEvent::Expired => return Some(Err(RelayError::IdleTimeout)),
            RelayEvent::Ended(Direction::ToUpstream, count) => {
                self.sent = Some(count);
            },
            RelayEvent::Ended(Direction::ToClient, count) => {
                self.received = Some(count);
            },
        }
        match (self.sent, self.received) {
            (Some(sent), Some(received)) => Some(Ok((sent, received))),
            _ => None,
        }
    }
}

/// One way may end before the other: the tunnel stays open until both have, and then counts both,
/// whichever ended first.
pub proof fn law_half_closed_tunnels_stay_open(sent: u64, received: u64)
    ensures
        ({
            let open = Relay { sent: None, received: None };
            let up = RelayEvent::Ended(Direction::ToUpstream, sent);
            let down = RelayEvent::Ended(Direction::ToClient, received);
            let both = Some(Ok::<(u64, u64), RelayError>((sent, received)));
            &&& relay_result(open, up) is None
            &&& relay_result(open, down) is None
            &&& relay_result(relayed(open, up), down) == both
            &&& relay_result(relayed(open, down), up) == both
        }),
{
}

/// A watched tunnel waits until the timeout has gone by since bytes last passed, and is given up
/// when that time has come without any, or when nobody is left to report them. Without a timeout
/// the watch waits for the end.
pub proof fn law_watch_waits_for_the_deadline(
    event: WatchEvent,
    last_activity: u128,
    now: u128,
    idle_timeout: Option<u128>,
    action: WatchAction,
)
    requires
        idle_timeout matches Some(timeout) ==> last_activity + timeout <= u128::MAX,
        call_ensures(watch_tunnel, (event, last_activity, now, idle_timeout), action),
    ensures
        match idle_timeout {
            None => action == WatchAction::WaitForEnd,
            Some(timeout) => {
                let overdue = event == WatchEvent::Woken && now - last_activity >= timeout;
                if overdue || event == WatchEvent::Abandoned {
                    action == WatchAction::Expire
                } else {
                    action matches WatchAction::WaitUntil(time) && time - last_activity == timeout
                }
            },
        },
{
}

/// A tunnel fails with what a direction failed with, or for want of bytes, whatever else had
/// happened to it, and counts a direction that ends as that one.
pub proof fn law_relay_reports_what_happened(
    relay: &mut Relay,
    event: RelayEvent,
    result: Option<Result<(u64, u64), RelayError>>,
)
    requires
        call_ensures(Relay::relay_bidirectional, (relay, event), result),
    ensures
        match event {
            RelayEvent::Failed(text) => *final(relay) == *old(relay) && result == Some(
                Err::<(u64, u64), RelayError>(RelayError::Io(text)),
            ),
            RelayEvent::Expired => *final(relay) == *old(relay) && result == Some(
                Err::<(u64, u64), RelayError>(RelayError::IdleTimeout),
            ),
            RelayEvent::Ended(Direction::ToUpstream, count) => {
                &&& final(relay).sent == Some(count)
                &&& final(relay).received == old(relay).received
                &&& match old(relay).received {
                    Some(other) => result == Some(Ok::<(u64, u64), RelayError>((count, other))),
                    None => result is None,
                }
            },
            RelayEvent::Ended(Direction::ToClient, count) => {
                &&& final(relay).received == Some(count)
                &&& final(relay).sent == old(relay).sent
                &&& match old(relay).sent {
                    Some(other) => result == Some(Ok::<(u64, u64), RelayError>((other, count))),
                    None => result is None,
                }
            },
        },
{
}

/// Each direction reads up to 64 KiB at once.
pub proof fn law_buffers_hold_64_kib()
    ensures
        BUFFER_SIZE == 64 * 1024,
{
}

/// What happens to a tunnel whose directions do not fail.
pub enum Happening {
    /// Bytes have passed in a direction.
    Passed(Direction),
    /// A direction has ended, after so many bytes.
    Ended(Direction, u64),
    /// The watch looks whether the tunnel is idle.
    Woken,
}

/// Something that happens to a tunnel, and when.
pub struct Moment {
    pub what: Happening,
    pub time: u128,
}

/// When bytes last passed in either direction, or when the tunnel was opened if none have.
pub open spec fn last_passage(opened: u128, moments: Seq<Moment>) -> u128
    decreases moments.len(),
{
    if moments.len() == 0 {
        opened
    } else if moments.last().what is Passed {
        moments.last().time
    } else {
        last_passage(opened, moments.drop_last())
    }
}

/// What the last of the moments tells the tunnel, if anything.
pub open spec fn told(
    opened: u128,
    moments: Seq<Moment>,
    idle_timeout: Option<u128>,
) -> Option<RelayEvent> {
    match moments.last().what {
        Happening::Passed(_) => None,
        Happening::Ended(direction, count) => Some(RelayEvent::Ended(direction, count)),
        Happening::Woken => if tunnel_watched(
            WatchEvent::Woken,
            last_passage(opened, moments.drop_last()),
            moments.last().time,
            idle_timeout,
        ) == WatchAction::Expire {
            Some(RelayEvent::Expired)
        } else {
            None
        },
    }
}

/// What the moments make of a tunnel, and what it has come to: that stays once it is over.
pub open spec fn outcome(opened: u128, moments: Seq<Moment>, idle_timeout: Option<u128>) -> (
    Relay,
    Option<Result<(u64, u64), RelayError>>,
)
    decreases moments.len(),
{
    if moments.len() == 0 {
        (Relay { sent: None, received: None }, None)
    } else {
        let (relay, result) = outcome(opened, moments.drop_last(), idle_timeout);
        match told(opened, moments, idle_timeout) {
            Some(event) if result is None => (relayed(relay, event), relay_result(relay, event)),
            _ => (relay, result),
        }
    }
}

/// Whether the times are in order, from when the tunnel was opened.
pub open spec fn in_order(opened: u128, moments: Seq<Moment>) -> bool {
    &&& forall|i: int| 0 <= i < moments.len() ==> opened <= (#[trigger] moments[i]).time
    &&& forall|i: int, j: int|
        0 <= i < j < moments.len() ==> (#[trigger] moments[i]).time <= (#[trigger] moments[j]).time
}

/// Whether a direction has ended.
pub open spec fn has_ended(moments: Seq<Moment>, direction: Direction) -> bool {
    exists|i: int|
        0 <= i < moments.len() && ((#[trigger] moments[i]).what matches Happening::Ended(d, _) && d
            == direction)
}

/// Whether the watch finds at moment `n` that the whole timeout has gone by since the tunnel was
/// opened, and since bytes passed in either direction, while a direction was still open.
pub open spec fn idle_at(opened: u128, moments: Seq<Moment>, timeout: u128, n: int) -> bool {
    &&& moments[n].what is Woken
    &&& moments[n].time - opened >= timeout
    &&& forall|i: int|
        0 <= i < n && (#[trigger] moments[i]).what is Passed ==> moments[n].time - moments[i].time
            >= timeout
    &&& !(has_ended(moments.take(n), Direction::ToUpstream) && has_ended(
        moments.take(n),
        Direction::ToClient,
    ))
}

/// The last passage is the latest.
proof fn lemma_last_passage(opened: u128, moments: Seq<Moment>)
    requires
        in_order(opened, moments),
    ensures
        opened <= last_passage(opened, moments),
        last_passage(opened, moments) == opened || exists|i: int|
            0 <= i < moments.len() && (#[trigger] moments[i]).what is Passed && moments[i].time
                == last_passage(opened, moments),
        forall|i: int|
            0 <= i < moments.len() && (#[trigger] moments[i]).what is Passed ==> moments[i].time
                <= last_passage(opened, moments),
    decreases moments.len(),
{
    if moments.len() > 0 {
        let earlier = moments.drop_last();
        assert forall|i: int| 0 <= i < earlier.len() implies earlier[i] == moments[i] by {}
        assert(in_order(opened, earlier));
        lemma_last_passage(opened, earlier);
        let n = moments.len() - 1;
        assert(moments[n] == moments.last());
        if !(moments.last().what is Passed) && last_passage(opened, earlier) != opened {
            let i = choose|i: int|
                0 <= i < earlier.len() && (#[trigger] earlier[i]).what is Passed && earlier[i].time
                    == last_passage(opened, earlier);
            assert(moments[i] == earlier[i]);
        }
    }
}

/// One more moment ends a direction or leaves it as it was.
proof fn lemma_has_ended(moments: Seq<Moment>, direction: Direction)
    requires
        moments.len() > 0,
    ensures
        has_ended(moments, direction) == (has_ended(moments.drop_last(), direction) || (
        moments.last().what matches Happening::Ended(d, _) && d == direction)),
{
    let earlier = moments.drop_last();
    if has_ended(earlier, direction) {
        let i = choose|i: int|
            0 <= i < earlier.len() && ((#[trigger] earlier[i]).what matches Happening::Ended(d, _)
                && d == direction);
        assert(moments[i] == earlier[i]);
    }
    if has_ended(moments, direction) {
        let i = choose|i: int|
            0 <= i < moments.len() && ((#[trigger] moments[i]).what matches Happening::Ended(d, _)
                && d == direction);
        if i < earlier.len() {
            assert(earlier[i] == moments[i]);
        }
    }
    assert(moments[moments.len() - 1] == moments.last());
}

/// Whether the watch finds a tunnel idle at one of the moments.
pub open spec fn found_idle(
    opened: u128,
    moments: Seq<Moment>,
    idle_timeout: Option<u128>,
) -> bool {
    idle_timeout matches Some(timeout) && exists|n: int|
        0 <= n < moments.len() && #[trigger] idle_at(opened, moments, timeout, n)
}

/// One more moment finds a tunnel idle or leaves it as it was.
proof fn lemma_found_idle(opened: u128, moments: Seq<Moment>, timeout: u128)
    requires
        in_order(opened, moments),
        moments.len() > 0,
    ensures
        found_idle(opened, moments, Some(timeout)) == (found_idle(
            opened,
            moments.drop_last(),
            Some(timeout),
        ) || idle_at(opened, moments, timeout, moments.len() - 1)),
        idle_at(opened, moments, timeout, moments.len() - 1) == (told(
            opened,
            moments,
            Some(timeout),
        ) == Some(RelayEvent::Expired) && !(has_ended(moments.drop_last(), Direction::ToUpstream)
            && has_ended(moments.drop_last(), Direction::ToClient))),
{
    let earlier = moments.drop_last();
    let n = moments.len() - 1;
    assert forall|i: int| 0 <= i < n implies earlier[i] == moments[i] by {}
    assert(in_order(opened, earlier));
    assert(moments.take(n) == earlier);
    assert forall|m: int| 0 <= m < n implies idle_at(opened, moments, timeout, m) == idle_at(
        opened,
        earlier,
        timeout,
        m,
    ) by {
        assert(moments.take(m) == earlier.take(m));
        assert(moments[m] == earlier[m]);
        assert forall|i: int| 0 <= i < m implies #[trigger] moments[i] == #[trigger] earlier[i] by {}
    }
    if found_idle(opened, earlier, Some(timeout)) {
        let m = choose|m: int|
            0 <= m < earlier.len() && #[trigger] idle_at(opened, earlier, timeout, m);
        assert(idle_at(opened, moments, timeout, m));
    }
    lemma_last_passage(opened, earlier);
    let last = last_passage(opened, earlier);
    assert(moments[n] == moments.last());
    if moments[n].what is Woken && moments[n].time - last >= timeout {
        assert forall|i: int| 0 <= i < n && (#[trigger] moments[i]).what is Passed implies moments[n].time
            - moments[i].time >= timeout by {
            assert(earlier[i].time <= last);
        }
    }
    if idle_at(opened, moments, timeout, n) && last != opened {
        let i = choose|i: int|
            0 <= i < earlier.len() && (#[trigger] earlier[i]).what is Passed && earlier[i].time
                == last;
        assert(moments[i].what is Passed);
    }
}

/// What a tunnel has come to, and as long as it is not over, which of its directions have ended.
proof fn lemma_outcome(opened: u128, moments: Seq<Moment>, idle_timeout: Option<u128>)
    requires
        in_order(opened, moments),
    ensures
        ({
            let (relay, result) = outcome(opened, moments, idle_timeout);
            let up = has_ended(moments, Direction::ToUpstream);
            let down = has_ended(moments, Direction::ToClient);
            &&& result is None ==> (relay.sent is Some <==> up) && (relay.received is Some <==> down)
            &&& match result {
                None => !(up && down) && !found_idle(opened, moments, idle_timeout),
                Some(Ok(_)) => up && down && !found_idle(opened, moments, idle_timeout),
                Some(Err(error)) => error == RelayError::IdleTimeout && found_idle(
                    opened,
                    moments,
                    idle_timeout,
                ),
            }
        }),
    decreases moments.len(),
{
    if moments.len() > 0 {
        let earlier = moments.drop_last();
        assert forall|i: int| 0 <= i < earlier.len() implies earlier[i] == moments[i] by {}
        assert(in_order(opened, earlier));
        lemma_outcome(opened, earlier, idle_timeout);
        lemma_has_ended(moments, Direction::ToUpstream);
        lemma_has_ended(moments, Direction::ToClient);
        if let Some(timeout) = idle_timeout {
            lemma_found_idle(opened, moments, timeout);
        }
    }
}

/// A tunnel whose directions do not fail is over with the idle timeout exactly if it has one and is
/// found idle for the whole of it before both directions have ended; without one it never is. It is
/// over without an error exactly if both directions have ended and it was not found idle before.
pub proof fn law_idle_tunnels_expire(
    opened: u128,
    moments: Seq<Moment>,
    idle_timeout: Option<u128>,
)
    requires
        in_order(opened, moments),
    ensures
        ({
            let result = outcome(opened, moments, idle_timeout).1;
            let idle = found_idle(opened, moments, idle_timeout);
            let ended = has_ended(moments, Direction::ToUpstream) && has_ended(
                moments,
                Direction::ToClient,
            );
            &&& idle_timeout is None ==> !idle
            &&& result == Some(Err::<(u64, u64), RelayError>(RelayError::IdleTimeout)) <==> idle
            &&& (result matches Some(Ok(_))) <==> ended && !idle
            &&& result is None <==> !ended && !idle
        }),
{
    lemma_outcome(opened, moments, idle_timeout);
}

/// Each fault of a tunnel is described in its own words.
pub proof fn law_relay_errors_are_described(error: &RelayError, text: String)
    requires
        call_ensures(RelayError::to_string, (error,), text),
    ensures
        text@ == match error {
            RelayError::Io(text) => text@,
            RelayError::IdleTimeout => "tunnel idle timeout elapsed"@,
        },
{
}

} // verus!
