//! One subscriber: its stream, its identifier and the start of its current
//! run of failed deliveries.

use vstd::prelude::*;
use crate::stream::push_chunk;

verus! {

/// Nanoseconds in one second.
pub const NANOS_PER_SEC: u128 = 1_000_000_000;

/// The grace period, in nanoseconds, that `secs` seconds stand for.
pub open spec fn grace_nanos(secs: u64) -> nat {
    (secs as nat) * 1_000_000_000
}

/// What the library's rules read of a subscriber.
pub struct ClientState {
    /// The identifier given at connect time.
    pub id: int,
    /// When the current unbroken run of failed deliveries began, in
    /// nanoseconds on the server's clock; `None` while deliveries succeed.
    pub first_error: Option<nat>,
    /// The chunks that the subscriber's stream has taken, in order.
    pub received: Seq<Seq<char>>,
}

impl ClientState {
    /// The subscriber as it is right after connecting.
    pub open spec fn fresh(id: int) -> ClientState {
        ClientState { id, first_error: None, received: Seq::empty() }
    }

    /// The subscriber after one attempt, at time `now`, to push `chunk` onto
    /// its stream. A success ends a run of failures and adds the chunk to
    /// what the stream has taken; a failure starts a run unless one is
    /// running, and adds nothing.
    pub open spec fn after_delivery(self, chunk: Seq<char>, accepted: bool, now: nat) -> ClientState {
        ClientState {
            id: self.id,
            first_error: if accepted {
                None
            } else if self.first_error is Some {
                self.first_error
            } else {
                Some(now)
            },
            received: if accepted {
                self.received.push(chunk)
            } else {
                self.received
            },
        }
    }

    /// Whether the run of failures has lasted longer than `grace`
    /// nanoseconds at time `now`.
    pub open spec fn is_stale(self, now: nat, grace: nat) -> bool {
        self.first_error matches Some(since) && now - since > grace
    }
}

/// The outcome of one delivery attempt.
#[derive(Clone, Copy, Debug, PartialEq, Eq, Structural)]
pub struct Delivery {
    /// The identifier of the subscriber the event was pushed to.
    pub client: i32,
    /// Whether the subscriber's stream took the event.
    pub accepted: bool,
}

/// A connected subscriber.
pub struct Client {
    sender: hyper::body::Sender,
    id: i32,
    first_error: Option<u128>,
    received: Ghost<Seq<Seq<char>>>,
}

impl View for Client {
    type V = ClientState;

    closed spec fn view(&self) -> ClientState {
        ClientState {
            id: self.id as int,
            first_error: match self.first_error {
                Some(since) => Some(since as nat),
                None => None,
            },
            received: self.received@,
        }
    }
}

impl Client {
    /// A subscriber that has just connected.
    pub fn new(sender: hyper::body::Sender, id: i32) -> (client: Client)
        ensures
            client@ == ClientState::fresh(id as int),
    {
        Client { sender, id, first_error: None, received: Ghost(Seq::empty()) }
    }

    /// The subscriber's identifier.
    pub fn id(&self) -> (id: i32)
        ensures
            id == self@.id,
    {
        self.id
    }

    /// When the current run of failed deliveries began, if one is running.
    pub fn first_error(&self) -> (since: Option<u128>)
        ensures
            match since {
                Some(at) => self@.first_error == Some(at as nat),
                None => self@.first_error is None,
            },
    {
        self.first_error
    }

    /// Notes the outcome of one attempt, made at time `now`, to push
    /// `chunk` onto the subscriber's stream.
    pub fn record_delivery(&mut self, chunk: &str, accepted: bool, now: u128)
        ensures
            final(self)@ == old(self)@.after_delivery(chunk@, accepted, now as nat),
    {
        if accepted {
            self.first_error = None;
            proof {
                self.received@ = self.received@.push(chunk@);
            }
        } else if self.first_error.is_none() {
            self.first_error = Some(now);
        }
    }

    /// Pushes `chunk` onto the subscriber's stream without blocking and
    /// notes the outcome, which is also returned.
    pub fn send_chunk(&mut self, chunk: &str, now: u128) -> (accepted: bool)
        ensures
            final(self)@ == old(self)@.after_delivery(chunk@, accepted, now as nat),
    {
        let accepted = push_chunk(&mut self.sender, chunk);
        self.record_delivery(chunk, accepted, now);
        accepted
    }

    /// Whether deliveries have been failing for more than `grace_secs`
    /// seconds at time `now`.
    pub fn is_stale(&self, now: u128, grace_secs: u64) -> (stale: bool)
        ensures
            stale == self@.is_stale(now as nat, grace_nanos(grace_secs)),
    {
        match self.first_error {
            Some(since) => now > since && now - since > (grace_secs as u128) * NANOS_PER_SEC,
            None => false,
        }
    }
}

/// A failure that is followed by a success leaves no run of failures
/// behind, so the subscriber is not stale at any later time.
pub proof fn lemma_recovery_prevents_eviction(
    client: ClientState,
    lost: Seq<char>,
    failed_at: nat,
    taken: Seq<char>,
    recovered_at: nat,
    now: nat,
    grace: nat,
)
    ensures
        !client.after_delivery(lost, false, failed_at).after_delivery(
            taken,
            true,
            recovered_at,
        ).is_stale(now, grace),
{
}

/// Repeated failures keep the time of the first one: the run is measured
/// from its start, not from the latest failure.
pub proof fn lemma_failures_keep_first_time(
    client: ClientState,
    chunk: Seq<char>,
    first: nat,
    again: Seq<char>,
    later: nat,
)
    ensures
        client.after_delivery(chunk, false, first).after_delivery(again, false, later)
            == client.after_delivery(chunk, false, first),
{
}

/// While a run of failures lasts, the subscriber is stale exactly when
/// the run has lasted longer than the grace period, and one more failure
/// does not change that.
pub proof fn lemma_stale_iff_streak_exceeds_grace(
    client: ClientState,
    since: nat,
    chunk: Seq<char>,
    now: nat,
    grace: nat,
)
    requires
        client.first_error == Some(since),
    ensures
        client.is_stale(now, grace) <==> now - since > grace,
        client.after_delivery(chunk, false, now).is_stale(now, grace) == client.is_stale(
            now,
            grace,
        ),
{
}

/// A delivery attempt leaves the subscriber's identifier as it is, and
/// what its stream has taken grows by the chunk exactly when the attempt
/// succeeds.
pub proof fn lemma_delivery_outcome(client: ClientState, chunk: Seq<char>, accepted: bool, now: nat)
    ensures
        client.after_delivery(chunk, accepted, now).id == client.id,
        accepted ==> client.after_delivery(chunk, accepted, now).received == client.received.push(
            chunk,
        ),
        !accepted ==> client.after_delivery(chunk, accepted, now).received == client.received,
{
}

} // verus!
