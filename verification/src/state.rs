//! The registry as a mathematical value: channels in the order in which they
//! were registered, each with its subscribers in the order in which they
//! connected, and the set of identifiers in use. Every operation of the
//! server is described here as a function on that value.

use vstd::prelude::*;
use crate::client::ClientState;
use crate::ids::{is_smallest_free, lemma_smallest_free_exists, smallest_free};

verus! {

/// One channel: its name and its subscribers.
pub struct ChannelState {
    pub name: Seq<char>,
    pub clients: Seq<ClientState>,
}

/// The whole registry.
pub struct ServerState {
    pub channels: Seq<ChannelState>,
    pub allocated: Set<int>,
}

/// The identifiers of a sequence of subscribers, in order.
pub open spec fn client_ids(clients: Seq<ClientState>) -> Seq<int> {
    clients.map_values(|c: ClientState| c.id)
}

/// The subscribers after one attempt each to push `chunk`, the `i`-th with
/// the `i`-th outcome.
pub open spec fn after_deliveries(
    clients: Seq<ClientState>,
    chunk: Seq<char>,
    outcomes: Seq<bool>,
    now: nat,
) -> Seq<ClientState> {
    Seq::new(clients.len(), |i: int| clients[i].after_delivery(chunk, outcomes[i], now))
}

/// The subscribers that a scan at time `now` keeps, in order.
pub open spec fn survivors(clients: Seq<ClientState>, now: nat, grace: nat) -> Seq<ClientState> {
    clients.filter(|c: ClientState| !c.is_stale(now, grace))
}

/// The identifiers of the subscribers that a scan at time `now` removes,
/// in order.
pub open spec fn evicted(clients: Seq<ClientState>, now: nat, grace: nat) -> Seq<int> {
    client_ids(clients.filter(|c: ClientState| c.is_stale(now, grace)))
}

/// The identifiers that a scan removes from a sequence of channels,
/// channel by channel.
pub open spec fn evicted_from(channels: Seq<ChannelState>, now: nat, grace: nat) -> Seq<int>
    decreases channels.len(),
{
    if channels.len() == 0 {
        Seq::empty()
    } else {
        evicted_from(channels.drop_last(), now, grace) + evicted(
            channels.last().clients,
            now,
            grace,
        )
    }
}

impl ChannelState {
    /// A channel that was just registered.
    pub open spec fn empty(name: Seq<char>) -> ChannelState {
        ChannelState { name, clients: Seq::empty() }
    }

    /// The channel with other subscribers.
    pub open spec fn with_clients(self, clients: Seq<ClientState>) -> ChannelState {
        ChannelState { name: self.name, clients }
    }
}

impl ServerState {
    /// The registry of a server that was just made.
    pub open spec fn empty() -> ServerState {
        ServerState { channels: Seq::empty(), allocated: Set::empty() }
    }

    /// Whether a channel of that name is registered.
    pub open spec fn has_channel(self, name: Seq<char>) -> bool {
        exists|i: int| 0 <= i < self.channels.len() && (#[trigger] self.channels[i]).name == name
    }

    /// The position of the channel of that name.
    pub open spec fn index_of(self, name: Seq<char>) -> int {
        choose|i: int| 0 <= i < self.channels.len() && (#[trigger] self.channels[i]).name == name
    }

    /// The subscribers of the channel of that name.
    pub open spec fn clients_of(self, name: Seq<char>) -> Seq<ClientState> {
        self.channels[self.index_of(name)].clients
    }

    /// The names of the registered channels, in order of registration.
    pub open spec fn names(self) -> Seq<Seq<char>> {
        self.channels.map_values(|c: ChannelState| c.name)
    }

    /// Whether the `a`-th subscriber of the `i`-th channel exists.
    pub open spec fn has_client_at(self, i: int, a: int) -> bool {
        0 <= i < self.channels.len() && 0 <= a < self.channels[i].clients.len()
    }

    /// Channel names are distinct, the identifiers in use are positive and
    /// finitely many, and every subscriber holds an identifier in use that
    /// no other subscriber of the server holds.
    pub open spec fn wf(self) -> bool {
        &&& self.allocated.finite()
        &&& forall|id: int| self.allocated.contains(id) ==> id >= 1
        &&& forall|i: int, j: int|
            0 <= i < j < self.channels.len() ==> (#[trigger] self.channels[i]).name != (
            #[trigger] self.channels[j]).name
        &&& forall|i: int, a: int| #[trigger]
            self.has_client_at(i, a) ==> self.allocated.contains(self.channels[i].clients[a].id)
        &&& forall|i: int, a: int, j: int, b: int|
            #[trigger] self.has_client_at(i, a) && #[trigger] self.has_client_at(j, b) && (i != j
                || a != b) ==> self.channels[i].clients[a].id != self.channels[j].clients[b].id
    }

    /// Registering a name: a channel of that name loses its subscribers,
    /// and a new name gets an empty channel at the end.
    pub open spec fn register(self, name: Seq<char>) -> ServerState {
        if self.has_channel(name) {
            ServerState {
                channels: self.channels.update(self.index_of(name), ChannelState::empty(name)),
                allocated: self.allocated,
            }
        } else {
            ServerState {
                channels: self.channels.push(ChannelState::empty(name)),
                allocated: self.allocated,
            }
        }
    }

    /// Attaching a new subscriber to a registered channel: it gets the
    /// smallest free identifier and is put last in the channel.
    pub open spec fn attach(self, name: Seq<char>) -> ServerState {
        let id = smallest_free(self.allocated);
        let i = self.index_of(name);
        ServerState {
            channels: self.channels.update(
                i,
                self.channels[i].with_clients(self.channels[i].clients.push(ClientState::fresh(id))),
            ),
            allocated: self.allocated.insert(id),
        }
    }

    /// One attempt to push `chunk` to each subscriber of the channel of
    /// that name; nothing where no such channel is registered.
    pub open spec fn broadcast(
        self,
        name: Seq<char>,
        chunk: Seq<char>,
        outcomes: Seq<bool>,
        now: nat,
    ) -> ServerState {
        if self.has_channel(name) {
            let i = self.index_of(name);
            ServerState {
                channels: self.channels.update(
                    i,
                    self.channels[i].with_clients(
                        after_deliveries(self.channels[i].clients, chunk, outcomes, now),
                    ),
                ),
                allocated: self.allocated,
            }
        } else {
            self
        }
    }

    /// One attempt to push `chunk` to each subscriber of each channel, the
    /// outcomes given channel by channel.
    pub open spec fn broadcast_all(
        self,
        chunk: Seq<char>,
        outcomes: Seq<Seq<bool>>,
        now: nat,
    ) -> ServerState {
        ServerState {
            channels: Seq::new(
                self.channels.len(),
                |k: int| self.channels[k].with_clients(
                    after_deliveries(self.channels[k].clients, chunk, outcomes[k], now),
                ),
            ),
            allocated: self.allocated,
        }
    }

    /// The identifiers that a scan at time `now` removes.
    pub open spec fn evicted_ids(self, now: nat, grace: nat) -> Seq<int> {
        evicted_from(self.channels, now, grace)
    }

    /// A scan at time `now`: every stale subscriber leaves its channel and
    /// its identifier is free again; all others stay as they are.
    pub open spec fn reap(self, now: nat, grace: nat) -> ServerState {
        ServerState {
            channels: Seq::new(
                self.channels.len(),
                |k: int| self.channels[k].with_clients(
                    survivors(self.channels[k].clients, now, grace),
                ),
            ),
            allocated: self.allocated.difference(self.evicted_ids(now, grace).to_set()),
        }
    }
}

/// In a valid registry a name stands at one position only.
pub proof fn lemma_index_of(s: ServerState, name: Seq<char>, i: int)
    requires
        s.wf(),
        0 <= i < s.channels.len(),
        s.channels[i].name == name,
    ensures
        s.has_channel(name),
        s.index_of(name) == i,
{
    let j = s.index_of(name);
    assert(0 <= j < s.channels.len() && s.channels[j].name == name);
    if j < i {
        assert(s.channels[j].name != s.channels[i].name);
    } else if i < j {
        assert(s.channels[i].name != s.channels[j].name);
    }
}

/// What a filter keeps was in the sequence before, at a position no
/// smaller than the one it has now.
pub proof fn lemma_filter_origin<A>(s: Seq<A>, p: spec_fn(A) -> bool, i: int) -> (j: int)
    requires
        0 <= i < s.filter(p).len(),
    ensures
        i <= j < s.len(),
        s[j] == s.filter(p)[i],
        p(s[j]),
    decreases s.len(),
{
    reveal(Seq::filter);
    let head = s.drop_last();
    if p(s.last()) && i == head.filter(p).len() {
        head.lemma_filter_len(p);
        (s.len() - 1) as int
    } else {
        let j = lemma_filter_origin(head, p, i);
        j
    }
}

/// Two different positions of a filtered sequence come from two different
/// positions of the sequence.
pub proof fn lemma_filter_origins<A>(s: Seq<A>, p: spec_fn(A) -> bool, i: int, k: int) -> (r: (
    int,
    int,
))
    requires
        0 <= i < k < s.filter(p).len(),
    ensures
        0 <= r.0 < r.1 < s.len(),
        s[r.0] == s.filter(p)[i],
        s[r.1] == s.filter(p)[k],
        p(s[r.0]),
        p(s[r.1]),
    decreases s.len(),
{
    reveal(Seq::filter);
    let head = s.drop_last();
    if p(s.last()) && k == head.filter(p).len() {
        let j = lemma_filter_origin(head, p, i);
        (j, (s.len() - 1) as int)
    } else {
        lemma_filter_origins(head, p, i, k)
    }
}

/// What a filter does at the end of a prefix that grows by one.
pub proof fn lemma_filter_take_step<A>(s: Seq<A>, p: spec_fn(A) -> bool, k: int)
    requires
        0 <= k < s.len(),
    ensures
        s.take(k + 1).filter(p) == if p(s[k]) {
            s.take(k).filter(p).push(s[k])
        } else {
            s.take(k).filter(p)
        },
{
    reveal(Seq::filter);
    assert(s.take(k + 1).drop_last() =~= s.take(k));
    assert(s.take(k + 1).last() == s[k]);
}

/// An identifier is removed from a channel exactly when a stale subscriber
/// of the channel holds it.
pub proof fn lemma_evicted_contains(clients: Seq<ClientState>, now: nat, grace: nat, id: int)
    ensures
        evicted(clients, now, grace).contains(id) <==> exists|a: int|
            0 <= a < clients.len() && (#[trigger] clients[a]).id == id && clients[a].is_stale(
                now,
                grace,
            ),
{
    let p = |c: ClientState| c.is_stale(now, grace);
    let kept = clients.filter(p);
    if evicted(clients, now, grace).contains(id) {
        let i = choose|i: int| 0 <= i < kept.len() && client_ids(kept)[i] == id;
        let a = lemma_filter_origin(clients, p, i);
        assert(clients[a].id == id && clients[a].is_stale(now, grace));
    }
    if exists|a: int|
        0 <= a < clients.len() && (#[trigger] clients[a]).id == id && clients[a].is_stale(
            now,
            grace,
        ) {
        let a = choose|a: int|
            0 <= a < clients.len() && (#[trigger] clients[a]).id == id && clients[a].is_stale(
                now,
                grace,
            );
        clients.lemma_filter_contains(p, a);
        let i = choose|i: int| 0 <= i < kept.len() && kept[i] == clients[a];
        assert(client_ids(kept)[i] == id);
    }
}

/// An identifier is removed by a scan exactly when a stale subscriber of
/// some channel holds it.
pub proof fn lemma_evicted_from_contains(
    channels: Seq<ChannelState>,
    now: nat,
    grace: nat,
    id: int,
)
    ensures
        evicted_from(channels, now, grace).contains(id) <==> exists|k: int, a: int|
            0 <= k < channels.len() && 0 <= a < channels[k].clients.len() && (
            #[trigger] channels[k].clients[a]).id == id && channels[k].clients[a].is_stale(
                now,
                grace,
            ),
    decreases channels.len(),
{
    let stale_at = |k: int, a: int|
        0 <= k < channels.len() && 0 <= a < channels[k].clients.len()
            && channels[k].clients[a].id == id && channels[k].clients[a].is_stale(now, grace);
    if channels.len() == 0 {
    } else {
        let head = channels.drop_last();
        let last = channels.last();
        let front = evicted_from(head, now, grace);
        let back = evicted(last.clients, now, grace);
        lemma_evicted_from_contains(head, now, grace, id);
        lemma_evicted_contains(last.clients, now, grace, id);
        if evicted_from(channels, now, grace).contains(id) {
            let i = choose|i: int| 0 <= i < (front + back).len() && (front + back)[i] == id;
            if i < front.len() {
                assert(front[i] == id);
                assert(front.contains(id));
                let (k, a) = choose|k: int, a: int|
                    0 <= k < head.len() && 0 <= a < head[k].clients.len() && (
                    #[trigger] head[k].clients[a]).id == id && head[k].clients[a].is_stale(
                        now,
                        grace,
                    );
                assert(head[k] == channels[k]);
                assert(stale_at(k, a));
                assert(channels[k].clients[a].id == id);
            } else {
                assert(back[i - front.len()] == id);
                assert(back.contains(id));
                let a = choose|a: int|
                    0 <= a < last.clients.len() && (#[trigger] last.clients[a]).id == id
                        && last.clients[a].is_stale(now, grace);
                assert(stale_at(channels.len() - 1, a));
                assert(channels[channels.len() - 1].clients[a].id == id);
            }
        }
        if exists|k: int, a: int|
            0 <= k < channels.len() && 0 <= a < channels[k].clients.len() && (
            #[trigger] channels[k].clients[a]).id == id && channels[k].clients[a].is_stale(
                now,
                grace,
            ) {
            let (k, a) = choose|k: int, a: int|
                0 <= k < channels.len() && 0 <= a < channels[k].clients.len() && (
                #[trigger] channels[k].clients[a]).id == id && channels[k].clients[a].is_stale(
                    now,
                    grace,
                );
            if k < head.len() {
                assert(head[k] == channels[k]);
                assert(head[k].clients[a].id == id);
                assert(front.contains(id));
                let i = choose|i: int| 0 <= i < front.len() && front[i] == id;
                assert((front + back)[i] == id);
            } else {
                assert(last.clients[a].id == id);
                assert(back.contains(id));
                let i = choose|i: int| 0 <= i < back.len() && back[i] == id;
                assert((front + back)[front.len() + i] == id);
            }
        }
    }
}

/// Registering a channel keeps the registry valid.
pub proof fn lemma_register_wf(s: ServerState, name: Seq<char>)
    requires
        s.wf(),
    ensures
        s.register(name).wf(),
        s.register(name).has_channel(name),
        s.register(name).clients_of(name) == Seq::<ClientState>::empty(),
{
    let t = s.register(name);
    if s.has_channel(name) {
        let i = s.index_of(name);
        assert(t.channels[i].name == name);
        assert forall|k: int, a: int| #[trigger] t.has_client_at(k, a) implies s.has_client_at(k, a)
            && t.channels[k].clients[a] == s.channels[k].clients[a] by {}
        assert forall|k: int, j: int| 0 <= k < j < t.channels.len() implies (
        #[trigger] t.channels[k]).name != (#[trigger] t.channels[j]).name by {
            assert(s.channels[k].name != s.channels[j].name);
        }
        lemma_index_of(t, name, i);
    } else {
        let i = s.channels.len() as int;
        assert forall|k: int, a: int| #[trigger] t.has_client_at(k, a) implies s.has_client_at(k, a)
            && t.channels[k].clients[a] == s.channels[k].clients[a] by {}
        assert forall|k: int, j: int| 0 <= k < j < t.channels.len() implies (
        #[trigger] t.channels[k]).name != (#[trigger] t.channels[j]).name by {
            if j < i {
                assert(s.channels[k].name != s.channels[j].name);
            } else {
                assert(s.channels[k].name != name);
            }
        }
        assert(t.channels[i].name == name);
        lemma_index_of(t, name, i);
    }
}

/// Attaching a subscriber keeps the registry valid, and the subscriber's
/// identifier was held by no one before.
pub proof fn lemma_attach_wf(s: ServerState, name: Seq<char>)
    requires
        s.wf(),
        s.has_channel(name),
    ensures
        s.attach(name).wf(),
        is_smallest_free(s.allocated, smallest_free(s.allocated)),
        forall|k: int, a: int| #[trigger]
            s.has_client_at(k, a) ==> s.channels[k].clients[a].id != smallest_free(s.allocated),
        s.attach(name).has_channel(name),
        s.attach(name).clients_of(name) == s.clients_of(name).push(
            ClientState::fresh(smallest_free(s.allocated)),
        ),
        s.attach(name).names() == s.names(),
{
    lemma_smallest_free_exists(s.allocated);
    let id = smallest_free(s.allocated);
    let i = s.index_of(name);
    let t = s.attach(name);
    assert forall|k: int, a: int| #[trigger] s.has_client_at(k, a) implies s.channels[k].clients[a].id
        != id by {
        assert(s.allocated.contains(s.channels[k].clients[a].id));
    }
    assert forall|k: int, j: int| 0 <= k < j < t.channels.len() implies (
    #[trigger] t.channels[k]).name != (#[trigger] t.channels[j]).name by {
        assert(s.channels[k].name != s.channels[j].name);
    }
    assert forall|k: int, a: int| #[trigger] t.has_client_at(k, a) implies t.allocated.contains(
        t.channels[k].clients[a].id,
    ) by {
        if s.has_client_at(k, a) {
            assert(t.channels[k].clients[a] == s.channels[k].clients[a]);
        }
    }
    assert forall|k: int, a: int, j: int, b: int|
        #[trigger] t.has_client_at(k, a) && #[trigger] t.has_client_at(j, b) && (k != j || a
            != b) implies t.channels[k].clients[a].id != t.channels[j].clients[b].id by {
        if s.has_client_at(k, a) {
            assert(t.channels[k].clients[a] == s.channels[k].clients[a]);
        }
        if s.has_client_at(j, b) {
            assert(t.channels[j].clients[b] == s.channels[j].clients[b]);
        }
    }
    assert(t.channels[i].name == name);
    lemma_index_of(t, name, i);
    assert(t.names() =~= s.names());
}

/// Delivery attempts on one channel keep the registry valid.
pub proof fn lemma_broadcast_wf(
    s: ServerState,
    name: Seq<char>,
    chunk: Seq<char>,
    outcomes: Seq<bool>,
    now: nat,
)
    requires
        s.wf(),
    ensures
        s.broadcast(name, chunk, outcomes, now).wf(),
        s.broadcast(name, chunk, outcomes, now).names() == s.names(),
        s.has_channel(name) ==> s.broadcast(name, chunk, outcomes, now).has_channel(name)
            && s.broadcast(name, chunk, outcomes, now).clients_of(name) == after_deliveries(
            s.clients_of(name),
            chunk,
            outcomes,
            now,
        ),
{
    let t = s.broadcast(name, chunk, outcomes, now);
    assert(t.names() =~= s.names());
    if s.has_channel(name) {
        let i = s.index_of(name);
        assert(t.channels[i].name == name);
        assert forall|k: int, a: int| #[trigger] t.has_client_at(k, a) implies s.has_client_at(k, a)
            && t.channels[k].clients[a].id == s.channels[k].clients[a].id by {}
        assert forall|k: int, j: int| 0 <= k < j < t.channels.len() implies (
        #[trigger] t.channels[k]).name != (#[trigger] t.channels[j]).name by {
            assert(s.channels[k].name != s.channels[j].name);
        }
        lemma_index_of(t, name, i);
    }
}

/// Delivery attempts on every channel keep the registry valid.
pub proof fn lemma_broadcast_all_wf(
    s: ServerState,
    chunk: Seq<char>,
    outcomes: Seq<Seq<bool>>,
    now: nat,
)
    requires
        s.wf(),
    ensures
        s.broadcast_all(chunk, outcomes, now).wf(),
        s.broadcast_all(chunk, outcomes, now).names() == s.names(),
{
    let t = s.broadcast_all(chunk, outcomes, now);
    assert(t.names() =~= s.names());
    assert forall|k: int, a: int| #[trigger] t.has_client_at(k, a) implies s.has_client_at(k, a)
        && t.channels[k].clients[a].id == s.channels[k].clients[a].id by {}
    assert forall|k: int, j: int| 0 <= k < j < t.channels.len() implies (
    #[trigger] t.channels[k]).name != (#[trigger] t.channels[j]).name by {
        assert(s.channels[k].name != s.channels[j].name);
    }
}

/// A scan keeps the registry valid.
pub proof fn lemma_reap_wf(s: ServerState, now: nat, grace: nat)
    requires
        s.wf(),
    ensures
        s.reap(now, grace).wf(),
        s.reap(now, grace).names() == s.names(),
{
    let t = s.reap(now, grace);
    let keep = |c: ClientState| !c.is_stale(now, grace);
    assert(t.names() =~= s.names());
    assert forall|k: int, j: int| 0 <= k < j < t.channels.len() implies (
    #[trigger] t.channels[k]).name != (#[trigger] t.channels[j]).name by {
        assert(s.channels[k].name != s.channels[j].name);
    }
    assert forall|k: int, a: int| #[trigger] t.has_client_at(k, a) implies t.allocated.contains(
        t.channels[k].clients[a].id,
    ) by {
        let a0 = lemma_filter_origin(s.channels[k].clients, keep, a);
        let c = s.channels[k].clients[a0];
        assert(s.has_client_at(k, a0));
        lemma_evicted_from_contains(s.channels, now, grace, c.id);
        if s.evicted_ids(now, grace).contains(c.id) {
            let (j, b) = choose|j: int, b: int|
                0 <= j < s.channels.len() && 0 <= b < s.channels[j].clients.len() && (
                #[trigger] s.channels[j].clients[b]).id == c.id && s.channels[j].clients[b].is_stale(
                    now,
                    grace,
                );
            assert(s.has_client_at(j, b));
            assert(j == k && b == a0);
        }
    }
    assert forall|k: int, a: int, j: int, b: int|
        #[trigger] t.has_client_at(k, a) && #[trigger] t.has_client_at(j, b) && (k != j || a
            != b) implies t.channels[k].clients[a].id != t.channels[j].clients[b].id by {
        if k == j {
            if a < b {
                let r = lemma_filter_origins(s.channels[k].clients, keep, a, b);
                assert(s.has_client_at(k, r.0) && s.has_client_at(k, r.1));
            } else {
                let r = lemma_filter_origins(s.channels[k].clients, keep, b, a);
                assert(s.has_client_at(k, r.0) && s.has_client_at(k, r.1));
            }
        } else {
            let a0 = lemma_filter_origin(s.channels[k].clients, keep, a);
            let b0 = lemma_filter_origin(s.channels[j].clients, keep, b);
            assert(s.has_client_at(k, a0) && s.has_client_at(j, b0));
        }
    }
}

/// A scan leaves every channel registered, with the subscribers that are
/// not stale.
pub proof fn lemma_reap_clients_of(s: ServerState, now: nat, grace: nat, name: Seq<char>)
    requires
        s.wf(),
        s.has_channel(name),
    ensures
        s.reap(now, grace).has_channel(name),
        s.reap(now, grace).clients_of(name) == survivors(s.clients_of(name), now, grace),
{
    let i = s.index_of(name);
    let t = s.reap(now, grace);
    lemma_reap_wf(s, now, grace);
    assert(t.channels[i].name == name);
    lemma_index_of(t, name, i);
}

/// A scan removes a subscriber exactly when it is stale: the subscribers
/// that stay are those that are not stale, and the identifiers that become
/// free are those of the stale ones.
pub proof fn lemma_reap_evicts_exactly_stale(s: ServerState, now: nat, grace: nat, k: int, a: int)
    requires
        s.wf(),
        s.has_client_at(k, a),
    ensures
        s.reap(now, grace).channels[k].clients.contains(s.channels[k].clients[a])
            <==> !s.channels[k].clients[a].is_stale(now, grace),
        s.evicted_ids(now, grace).contains(s.channels[k].clients[a].id)
            <==> s.channels[k].clients[a].is_stale(now, grace),
        s.reap(now, grace).allocated.contains(s.channels[k].clients[a].id)
            <==> !s.channels[k].clients[a].is_stale(now, grace),
{
    let keep = |c: ClientState| !c.is_stale(now, grace);
    let clients = s.channels[k].clients;
    let c = clients[a];
    let kept = clients.filter(keep);
    if !c.is_stale(now, grace) {
        clients.lemma_filter_contains(keep, a);
    }
    if kept.contains(c) {
        let i = choose|i: int| 0 <= i < kept.len() && kept[i] == c;
        let j = lemma_filter_origin(clients, keep, i);
    }
    lemma_evicted_from_contains(s.channels, now, grace, c.id);
    if s.evicted_ids(now, grace).contains(c.id) {
        let (j, b) = choose|j: int, b: int|
            0 <= j < s.channels.len() && 0 <= b < s.channels[j].clients.len() && (
            #[trigger] s.channels[j].clients[b]).id == c.id && s.channels[j].clients[b].is_stale(
                now,
                grace,
            );
        assert(s.has_client_at(j, b));
        assert(j == k && b == a);
    }
    assert(s.allocated.contains(c.id));
}

/// A filter that is applied twice does what it does when applied once.
pub proof fn lemma_filter_twice<A>(s: Seq<A>, p: spec_fn(A) -> bool)
    ensures
        s.filter(p).filter(p) == s.filter(p),
    decreases s.len(),
{
    reveal(Seq::filter);
    if s.len() > 0 {
        let head = s.drop_last();
        lemma_filter_twice(head, p);
        if p(s.last()) {
            let kept = head.filter(p).push(s.last());
            assert(kept.drop_last() =~= head.filter(p));
        }
    }
}

/// A second scan at the same time changes nothing.
pub proof fn lemma_reap_idempotent(s: ServerState, now: nat, grace: nat)
    ensures
        s.reap(now, grace).reap(now, grace) == s.reap(now, grace),
        s.reap(now, grace).evicted_ids(now, grace) == Seq::<int>::empty(),
{
    let t = s.reap(now, grace);
    let u = t.reap(now, grace);
    let keep = |c: ClientState| !c.is_stale(now, grace);
    assert forall|k: int| 0 <= k < t.channels.len() implies u.channels[k] == t.channels[k] by {
        lemma_filter_twice(s.channels[k].clients, keep);
    }
    assert(u.channels =~= t.channels);
    assert forall|id: int| !t.evicted_ids(now, grace).contains(id) by {
        lemma_evicted_from_contains(t.channels, now, grace, id);
        if t.evicted_ids(now, grace).contains(id) {
            let (k, a) = choose|k: int, a: int|
                0 <= k < t.channels.len() && 0 <= a < t.channels[k].clients.len() && (
                #[trigger] t.channels[k].clients[a]).id == id && t.channels[k].clients[a].is_stale(
                    now,
                    grace,
                );
            let a0 = lemma_filter_origin(s.channels[k].clients, keep, a);
        }
    }
    let gone = t.evicted_ids(now, grace);
    if gone.len() > 0 {
        assert(gone.contains(gone[0]));
    }
    assert(gone =~= Seq::<int>::empty());
    assert(u.allocated =~= t.allocated);
}

/// An event for one channel reaches no subscriber of another: the other
/// channel is left as it was, what its subscribers' streams have taken
/// included, and none of its subscribers is among those the event was
/// pushed to.
pub proof fn lemma_channel_isolation(
    s: ServerState,
    target: Seq<char>,
    other: Seq<char>,
    chunk: Seq<char>,
    outcomes: Seq<bool>,
    now: nat,
)
    requires
        s.wf(),
        s.has_channel(other),
        target != other,
    ensures
        s.broadcast(target, chunk, outcomes, now).has_channel(other),
        s.broadcast(target, chunk, outcomes, now).clients_of(other) == s.clients_of(other),
        s.has_channel(target) ==> forall|b: int|
            0 <= b < s.clients_of(other).len() ==> !client_ids(s.clients_of(target)).contains(
                (#[trigger] s.clients_of(other)[b]).id,
            ),
{
    let t = s.broadcast(target, chunk, outcomes, now);
    let j = s.index_of(other);
    lemma_broadcast_wf(s, target, chunk, outcomes, now);
    if s.has_channel(target) {
        let i = s.index_of(target);
        assert(t.channels[j] == s.channels[j]);
        lemma_index_of(t, other, j);
        assert forall|b: int| 0 <= b < s.clients_of(other).len() implies !client_ids(
            s.clients_of(target),
        ).contains((#[trigger] s.clients_of(other)[b]).id) by {
            let id = s.clients_of(other)[b].id;
            if client_ids(s.clients_of(target)).contains(id) {
                let a = choose|a: int|
                    0 <= a < s.clients_of(target).len() && client_ids(s.clients_of(target))[a]
                        == id;
                assert(s.has_client_at(i, a) && s.has_client_at(j, b));
            }
        }
    }
}

/// A broadcast to all channels is, on each channel, what a broadcast to
/// that channel alone is: every subscriber of every channel gets one
/// attempt, and no more.
pub proof fn lemma_broadcast_all_by_channel(
    s: ServerState,
    chunk: Seq<char>,
    outcomes: Seq<Seq<bool>>,
    now: nat,
    k: int,
)
    requires
        s.wf(),
        0 <= k < s.channels.len(),
    ensures
        s.broadcast_all(chunk, outcomes, now).channels.len() == s.channels.len(),
        s.broadcast_all(chunk, outcomes, now).channels[k] == s.broadcast(
            s.channels[k].name,
            chunk,
            outcomes[k],
            now,
        ).channels[k],
        forall|a: int|
            0 <= a < s.channels[k].clients.len() ==> (#[trigger] s.broadcast_all(
                chunk,
                outcomes,
                now,
            ).channels[k].clients[a]) == s.channels[k].clients[a].after_delivery(
                chunk,
                outcomes[k][a],
                now,
            ),
{
    lemma_index_of(s, s.channels[k].name, k);
}

} // verus!
