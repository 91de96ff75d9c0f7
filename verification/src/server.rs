//! The event server: named channels, their subscribers, and the operations
//! that register, attach, broadcast and evict.

use vstd::prelude::*;
use crate::client::{Client, ClientState, Delivery, grace_nanos};
use crate::clock::{elapsed_nanos, start_clock};
use crate::frame::{channel_of_path, event_frame, format_event, last_segment};
use crate::ids::{IdAllocator, as_ints, lemma_smallest_free_is, smallest_free};
use crate::state::{
    ChannelState,
    ServerState,
    after_deliveries,
    client_ids,
    evicted,
    evicted_from,
    lemma_attach_wf,
    lemma_broadcast_wf,
    lemma_filter_take_step,
    lemma_index_of,
    lemma_reap_wf,
    lemma_register_wf,
    survivors,
};
use crate::stream::open_stream;

verus! {

/// How long a subscriber may fail to take events before it is evicted, in
/// seconds.
pub const GRACE_PERIOD_SECS: u64 = 5;

/// The status of a reply that opens a stream.
pub const STATUS_OK: u16 = 200;

/// The status of a reply that turns a request down.
pub const STATUS_BAD_REQUEST: u16 = 400;

/// Why a subscriber could not be attached.
#[derive(Clone, Copy, Debug, PartialEq, Eq, Structural)]
pub enum ServerError {
    /// No channel of the requested name is registered.
    ChannelNotFound,
}

impl ServerError {
    /// A short description of the error.
    pub fn message(&self) -> (text: String)
        ensures
            text@ == "Channel nonexistent"@,
    {
        "Channel nonexistent".to_owned()
    }
}

/// What one broadcast did on one channel.
#[derive(Debug)]
pub struct ChannelReport {
    /// The channel's name.
    pub channel: String,
    /// One entry for each subscriber of the channel, in order.
    pub deliveries: Vec<Delivery>,
}

/// What one maintenance round did.
#[derive(Debug)]
pub struct MaintenanceReport {
    /// The identifiers of the subscribers that were evicted.
    pub evicted: Vec<i32>,
    /// What the heartbeat that followed did, channel by channel.
    pub heartbeat: Vec<ChannelReport>,
}

/// The reply to a request that asks for a stream.
#[derive(Debug)]
pub struct StreamReply {
    /// The HTTP status.
    pub status: u16,
    /// The response headers, in order.
    pub headers: Vec<(String, String)>,
    /// The body that the subscriber's events arrive on; `None` stands for
    /// an empty body.
    pub body: Option<hyper::Body>,
    /// The identifier of the new subscriber, where one was attached.
    pub client: Option<i32>,
}

/// The subscribers that deliveries were attempted to, in order.
pub open spec fn recipients(report: Seq<Delivery>) -> Seq<int> {
    report.map_values(|d: Delivery| d.client as int)
}

/// The outcomes of the delivery attempts, in order.
pub open spec fn outcomes(report: Seq<Delivery>) -> Seq<bool> {
    report.map_values(|d: Delivery| d.accepted)
}

/// The outcomes of a broadcast to all channels, channel by channel.
pub open spec fn all_outcomes(reports: Seq<ChannelReport>) -> Seq<Seq<bool>> {
    reports.map_values(|r: ChannelReport| outcomes(r.deliveries@))
}

/// The views of a sequence of subscribers.
pub open spec fn client_states(clients: Seq<Client>) -> Seq<ClientState> {
    clients.map_values(|c: Client| c@)
}

/// The texts of a sequence of strings.
pub open spec fn texts(strings: Seq<String>) -> Seq<Seq<char>> {
    strings.map_values(|s: String| s@)
}

/// The texts of a sequence of headers.
pub open spec fn header_texts(headers: Seq<(String, String)>) -> Seq<(Seq<char>, Seq<char>)> {
    headers.map_values(|h: (String, String)| (h.0@, h.1@))
}

/// The headers of a reply that opens a stream: no caching, no proxy
/// buffering, the event-stream content type, and access from any origin.
pub open spec fn stream_headers() -> Seq<(Seq<char>, Seq<char>)> {
    seq![
        ("Cache-Control"@, "no-cache"@),
        ("X-Accel-Buffering"@, "no"@),
        ("Content-Type"@, "text/event-stream"@),
        ("Access-Control-Allow-Origin"@, "*"@),
    ]
}

/// The heartbeat on the wire: an event of type `heartbeat` with no data.
pub open spec fn heartbeat_frame() -> Seq<char> {
    event_frame("heartbeat"@, ""@)
}

/// The reply is the one that turns a request down: a client error with no
/// header and an empty body.
pub open spec fn is_rejection(reply: StreamReply) -> bool {
    &&& reply.status == 400
    &&& reply.headers@.len() == 0
    &&& reply.body is None
    &&& reply.client is None
}

/// The reply is the one that opens a stream for the subscriber `id`: a
/// success with the stream headers and a body.
pub open spec fn is_stream_for(reply: StreamReply, id: int) -> bool {
    &&& reply.status == 200
    &&& header_texts(reply.headers@) == stream_headers()
    &&& reply.body is Some
    &&& reply.client matches Some(client) && client == id
}

/// One channel and its subscribers.
struct Channel {
    name: String,
    clients: Vec<Client>,
}

impl View for Channel {
    type V = ChannelState;

    closed spec fn view(&self) -> ChannelState {
        ChannelState { name: self.name@, clients: client_states(self.clients@) }
    }
}

/// The server's registry of channels and subscribers.
pub struct EventServer {
    channels: Vec<Channel>,
    id_storage: IdAllocator,
    clock: std::time::Instant,
}

impl View for EventServer {
    type V = ServerState;

    closed spec fn view(&self) -> ServerState {
        ServerState {
            channels: self.channels@.map_values(|c: Channel| c@),
            allocated: self.id_storage@,
        }
    }
}

/// The headers of a reply that opens a stream.
pub fn make_stream_headers() -> (headers: Vec<(String, String)>)
    ensures
        header_texts(headers@) == stream_headers(),
{
    let mut headers: Vec<(String, String)> = Vec::new();
    headers.push(("Cache-Control".to_owned(), "no-cache".to_owned()));
    headers.push(("X-Accel-Buffering".to_owned(), "no".to_owned()));
    headers.push(("Content-Type".to_owned(), "text/event-stream".to_owned()));
    headers.push(("Access-Control-Allow-Origin".to_owned(), "*".to_owned()));
    assert(header_texts(headers@) =~= stream_headers());
    headers
}

/// One delivery attempt for each subscriber, in order.
fn deliver_all(clients: &mut Vec<Client>, payload: &str, now: u128) -> (report: Vec<Delivery>)
    ensures
        recipients(report@) == client_ids(client_states(old(clients)@)),
        client_states(final(clients)@) == after_deliveries(
            client_states(old(clients)@),
            payload@,
            outcomes(report@),
            now as nat,
        ),
{
    let mut report: Vec<Delivery> = Vec::new();
    let mut i: usize = 0;
    while i < clients.len()
        invariant
            i <= clients@.len(),
            clients@.len() == old(clients)@.len(),
            report@.len() == i,
            forall|j: int|
                0 <= j < i ==> (#[trigger] clients@[j])@ == old(clients)@[j]@.after_delivery(
                    payload@,
                    report@[j].accepted,
                    now as nat,
                ),
            forall|j: int| 0 <= j < i ==> (#[trigger] report@[j]).client == old(clients)@[j]@.id,
            forall|j: int| i <= j < clients@.len() ==> #[trigger] clients@[j] == old(clients)@[j],
        decreases clients@.len() - i,
    {
        let client = &mut clients[i];
        let accepted = client.send_chunk(payload, now);
        let id = client.id();
        report.push(Delivery { client: id, accepted });
        i += 1;
    }
    assert(recipients(report@) =~= client_ids(client_states(old(clients)@)));
    assert(client_states(clients@) =~= after_deliveries(
        client_states(old(clients)@),
        payload@,
        outcomes(report@),
        now as nat,
    ));
    report
}

/// Takes the stale subscribers out, keeps the others in order, and gives
/// the identifiers of those taken out.
fn evict_stale(clients: &mut Vec<Client>, now: u128, grace_secs: u64) -> (gone: Vec<i32>)
    ensures
        client_states(final(clients)@) == survivors(
            client_states(old(clients)@),
            now as nat,
            grace_nanos(grace_secs),
        ),
        as_ints(gone@) == evicted(
            client_states(old(clients)@),
            now as nat,
            grace_nanos(grace_secs),
        ),
{
    let ghost before = client_states(clients@);
    let ghost keep = |c: ClientState| !c.is_stale(now as nat, grace_nanos(grace_secs));
    let ghost drop = |c: ClientState| c.is_stale(now as nat, grace_nanos(grace_secs));
    let ghost seen: int = 0;
    let mut gone: Vec<i32> = Vec::new();
    let mut i: usize = 0;
    assert(before.take(0) =~= Seq::<ClientState>::empty());
    assert(client_states(clients@).take(0) =~= Seq::<ClientState>::empty());
    proof {
        reveal(Seq::filter);
    }
    assert(as_ints(gone@) =~= client_ids(before.take(0).filter(drop)));
    while i < clients.len()
        invariant
            before == client_states(old(clients)@),
            keep == |c: ClientState| !c.is_stale(now as nat, grace_nanos(grace_secs)),
            drop == |c: ClientState| c.is_stale(now as nat, grace_nanos(grace_secs)),
            0 <= i <= clients@.len(),
            0 <= seen <= before.len(),
            seen - i == before.len() - clients@.len(),
            forall|j: int|
                i <= j < clients@.len() ==> (#[trigger] clients@[j])@ == before[seen + (j - i)],
            client_states(clients@).take(i as int) == before.take(seen).filter(keep),
            as_ints(gone@) == client_ids(before.take(seen).filter(drop)),
        decreases clients@.len() - i,
    {
        let ghost current = client_states(clients@);
        proof {
            lemma_filter_take_step(before, keep, seen);
            lemma_filter_take_step(before, drop, seen);
            assert(clients@[i as int]@ == before[seen]);
        }
        if clients[i].is_stale(now, grace_secs) {
            let ghost prev = clients@;
            let client = clients.remove(i);
            let ghost ids = as_ints(gone@);
            gone.push(client.id());
            proof {
                assert(client_states(clients@).take(i as int) =~= current.take(i as int));
                assert(as_ints(gone@) =~= ids.push(before[seen].id));
                assert(client_ids(before.take(seen).filter(drop).push(before[seen])) =~= client_ids(
                    before.take(seen).filter(drop),
                ).push(before[seen].id));
                assert forall|j: int| i <= j < clients@.len() implies (#[trigger] clients@[j])@
                    == before[seen + 1 + (j - i)] by {
                    assert(clients@[j] == prev[j + 1]);
                }
                seen = seen + 1;
            }
        } else {
            proof {
                assert(current.take(i + 1) =~= current.take(i as int).push(before[seen]));
                seen = seen + 1;
            }
            i += 1;
        }
    }
    proof {
        assert(client_states(clients@).take(i as int) =~= client_states(clients@));
        assert(before.take(seen) =~= before);
    }
    gone
}

impl EventServer {
    /// What validity means beyond the registry's own: the store of
    /// identifiers holds each one once.
    pub closed spec fn ids_wf(&self) -> bool {
        self.id_storage.wf()
    }

    /// The registry is valid.
    pub open spec fn wf(&self) -> bool {
        &&& self@.wf()
        &&& self.ids_wf()
    }

    /// A server with no channel and no identifier in use.
    pub fn summon() -> (server: EventServer)
        ensures
            server.wf(),
            server@ == ServerState::empty(),
    {
        let server = EventServer {
            channels: Vec::new(),
            id_storage: IdAllocator::new(),
            clock: start_clock(),
        };
        assert(server@.channels =~= Seq::<ChannelState>::empty());
        server
    }

    /// The position of the channel of that name, if one is registered.
    fn find_channel(&self, name: &str) -> (found: Option<usize>)
        requires
            self.wf(),
        ensures
            match found {
                Some(i) => i < self.channels@.len() && self@.has_channel(name@) && self@.index_of(
                    name@,
                ) == i && self.channels@[i as int].name@ == name@,
                None => !self@.has_channel(name@),
            },
    {
        let key = name.to_owned();
        let mut i: usize = 0;
        while i < self.channels.len()
            invariant
                self.wf(),
                i <= self.channels@.len(),
                key@ == name@,
                forall|j: int| 0 <= j < i ==> self@.channels[j].name != name@,
            decreases self.channels@.len() - i,
        {
            if self.channels[i].name == key {
                proof {
                    assert(self@.channels[i as int].name == name@);
                    lemma_index_of(self@, name@, i as int);
                }
                return Some(i);
            }
            i += 1;
        }
        None
    }

    /// Whether an identifier is left for one more subscriber.
    pub fn has_free_id(&self) -> (free: bool)
        requires
            self.wf(),
        ensures
            free == (self@.allocated.len() < i32::MAX),
    {
        proof {
            self.id_storage.lemma_wf_view();
        }
        self.id_storage.len() < i32::MAX as usize
    }

    /// Registers a channel. A channel of that name that exists already is
    /// emptied: its subscribers are dropped, and their identifiers stay in
    /// use.
    pub fn register_channel(&mut self, channel: &str)
        requires
            old(self).wf(),
        ensures
            final(self).wf(),
            final(self)@ == old(self)@.register(channel@),
    {
        match self.find_channel(channel) {
            Some(i) => {
                let entry = &mut self.channels[i];
                entry.clients = Vec::new();
                proof {
                    assert(self.channels@[i as int].clients@ =~= Seq::<Client>::empty());
                    assert(client_states(self.channels@[i as int].clients@) =~= Seq::<
                        ClientState,
                    >::empty());
                    assert(self.channels@[i as int]@ == ChannelState::empty(channel@));
                    assert(self@.channels =~= old(self)@.channels.update(
                        i as int,
                        ChannelState::empty(channel@),
                    ));
                }
            },
            None => {
                self.channels.push(Channel { name: channel.to_owned(), clients: Vec::new() });
                proof {
                    let i = old(self).channels@.len() as int;
                    assert(client_states(self.channels@[i].clients@) =~= Seq::<
                        ClientState,
                    >::empty());
                    assert(self.channels@[i]@ == ChannelState::empty(channel@));
                    assert(self@.channels =~= old(self)@.channels.push(
                        ChannelState::empty(channel@),
                    ));
                }
            },
        }
        proof {
            lemma_register_wf(old(self)@, channel@);
        }
    }

    /// The names of the registered channels, in order of registration.
    pub fn get_channels(&self) -> (names: Vec<String>)
        ensures
            texts(names@) == self@.names(),
    {
        let mut names: Vec<String> = Vec::new();
        let mut i: usize = 0;
        while i < self.channels.len()
            invariant
                i <= self.channels@.len(),
                names@.len() == i,
                forall|j: int| 0 <= j < i ==> (#[trigger] names@[j])@ == self@.channels[j].name,
            decreases self.channels@.len() - i,
        {
            names.push(self.channels[i].name.clone());
            i += 1;
        }
        assert(texts(names@) =~= self@.names());
        names
    }

    /// The identifiers of the subscribers of a channel, in order; `None`
    /// where no channel of that name is registered.
    pub fn client_ids_of(&self, channel: &str) -> (ids: Option<Vec<i32>>)
        requires
            self.wf(),
        ensures
            ids is Some == self@.has_channel(channel@),
            ids is Some ==> as_ints(ids->0@) == client_ids(self@.clients_of(channel@)),
    {
        match self.find_channel(channel) {
            Some(k) => {
                let clients = &self.channels[k].clients;
                let mut ids: Vec<i32> = Vec::new();
                let mut i: usize = 0;
                while i < clients.len()
                    invariant
                        i <= clients@.len(),
                        ids@.len() == i,
                        forall|j: int| 0 <= j < i ==> (#[trigger] ids@[j]) == clients@[j]@.id,
                    decreases clients@.len() - i,
                {
                    ids.push(clients[i].id());
                    i += 1;
                }
                assert(as_ints(ids@) =~= client_ids(self@.clients_of(channel@)));
                Some(ids)
            },
            None => None,
        }
    }

    /// Attaches a new subscriber to a registered channel and gives its
    /// identifier, the smallest one that is free. Fails, and changes
    /// nothing, where no channel of that name is registered.
    pub fn add_client(&mut self, channel: &str, sender: hyper::body::Sender) -> (attached: Result<
        i32,
        ServerError,
    >)
        requires
            old(self).wf(),
            old(self)@.has_channel(channel@) ==> old(self)@.allocated.len() < i32::MAX,
        ensures
            final(self).wf(),
            attached is Ok == old(self)@.has_channel(channel@),
            attached matches Ok(id) ==> id == smallest_free(old(self)@.allocated) && final(self)@
                == old(self)@.attach(channel@),
            attached is Err ==> final(self)@ == old(self)@,
    {
        match self.find_channel(channel) {
            Some(i) => {
                let id = self.id_storage.assign_id();
                let entry = &mut self.channels[i];
                entry.clients.push(Client::new(sender, id));
                proof {
                    lemma_smallest_free_is(old(self)@.allocated, id as int);
                    let before = old(self)@.channels[i as int];
                    assert(client_states(self.channels@[i as int].clients@) =~= before.clients.push(
                        ClientState::fresh(id as int),
                    ));
                    assert(self@.channels =~= old(self)@.attach(channel@).channels);
                    lemma_attach_wf(old(self)@, channel@);
                }
                Ok(id)
            },
            None => Err(ServerError::ChannelNotFound),
        }
    }

    /// Answers a request for a stream on the channel that `path` names in
    /// its last segment. A registered channel gets a new subscriber, and
    /// the reply carries the body that its events arrive on; any other
    /// request is turned down and changes nothing.
    pub fn create_stream(&mut self, path: &str) -> (reply: StreamReply)
        requires
            old(self).wf(),
            old(self)@.has_channel(last_segment(path@)) ==> old(self)@.allocated.len() < i32::MAX,
        ensures
            final(self).wf(),
            old(self)@.has_channel(last_segment(path@)) ==> is_stream_for(
                reply,
                smallest_free(old(self)@.allocated),
            ) && final(self)@ == old(self)@.attach(last_segment(path@)),
            !old(self)@.has_channel(last_segment(path@)) ==> is_rejection(reply) && final(self)@
                == old(self)@,
    {
        let channel = channel_of_path(path);
        let (sender, body) = open_stream();
        match self.add_client(channel.as_str(), sender) {
            Ok(id) => StreamReply {
                status: STATUS_OK,
                headers: make_stream_headers(),
                body: Some(body),
                client: Some(id),
            },
            Err(_) => StreamReply {
                status: STATUS_BAD_REQUEST,
                headers: Vec::new(),
                body: None,
                client: None,
            },
        }
    }

    /// Sends one event to every subscriber of a channel, in order, and
    /// notes at time `now` which of them took it. Nothing happens where no
    /// channel of that name is registered or where it has no subscriber.
    pub fn send_to_channel_at(&mut self, channel: &str, event: &str, message: &str, now: u128) -> (report:
        Vec<Delivery>)
        requires
            old(self).wf(),
        ensures
            final(self).wf(),
            final(self)@ == old(self)@.broadcast(
                channel@,
                event_frame(event@, message@),
                outcomes(report@),
                now as nat,
            ),
            old(self)@.has_channel(channel@) ==> recipients(report@) == client_ids(
                old(self)@.clients_of(channel@),
            ),
            !old(self)@.has_channel(channel@) ==> report@.len() == 0,
    {
        let payload = format_event(event, message);
        let report = match self.find_channel(channel) {
            Some(i) => {
                let entry = &mut self.channels[i];
                let report = deliver_all(&mut entry.clients, payload.as_str(), now);
                proof {
                    assert(self@.channels =~= old(self)@.broadcast(
                        channel@,
                        event_frame(event@, message@),
                        outcomes(report@),
                        now as nat,
                    ).channels);
                }
                report
            },
            None => Vec::new(),
        };
        proof {
            lemma_broadcast_wf(
                old(self)@,
                channel@,
                event_frame(event@, message@),
                outcomes(report@),
                now as nat,
            );
        }
        report
    }

    /// Sends one event to every subscriber of a channel and notes, at the
    /// time the server's clock shows, which of them took it.
    pub fn send_to_channel(&mut self, channel: &str, event: &str, message: &str) -> (report: Vec<
        Delivery,
    >)
        requires
            old(self).wf(),
        ensures
            final(self).wf(),
            exists|now: nat|
                final(self)@ == #[trigger] old(self)@.broadcast(
                    channel@,
                    event_frame(event@, message@),
                    outcomes(report@),
                    now,
                ),
            old(self)@.has_channel(channel@) ==> recipients(report@) == client_ids(
                old(self)@.clients_of(channel@),
            ),
            !old(self)@.has_channel(channel@) ==> report@.len() == 0,
    {
        let now = elapsed_nanos(&self.clock);
        let report = self.send_to_channel_at(channel, event, message, now);
        assert(self@ == old(self)@.broadcast(
            channel@,
            event_frame(event@, message@),
            outcomes(report@),
            now as nat,
        ));
        report
    }

    /// Sends one event to every subscriber of every channel that is
    /// registered when the call begins, channel by channel in order of
    /// registration, each channel once, and notes at time `now` which
    /// subscribers took it.
    pub fn send_to_all_channels_at(&mut self, event: &str, message: &str, now: u128) -> (reports:
        Vec<ChannelReport>)
        requires
            old(self).wf(),
        ensures
            final(self).wf(),
            final(self)@ == old(self)@.broadcast_all(
                event_frame(event@, message@),
                all_outcomes(reports@),
                now as nat,
            ),
            reports@.len() == old(self)@.channels.len(),
            forall|k: int|
                0 <= k < reports@.len() ==> (#[trigger] reports@[k]).channel@
                    == old(self)@.channels[k].name && recipients(reports@[k].deliveries@)
                    == client_ids(old(self)@.channels[k].clients),
    {
        let names = self.get_channels();
        let mut reports: Vec<ChannelReport> = Vec::new();
        let mut k: usize = 0;
        assert(names@.len() == texts(names@).len());
        while k < names.len()
            invariant
                old(self).wf(),
                self.wf(),
                texts(names@) == old(self)@.names(),
                names@.len() == old(self)@.channels.len(),
                k <= names@.len(),
                reports@.len() == k,
                self@.channels.len() == old(self)@.channels.len(),
                self@.allocated == old(self)@.allocated,
                forall|j: int|
                    0 <= j < k ==> #[trigger] self@.channels[j] == old(
                        self,
                    )@.channels[j].with_clients(
                        after_deliveries(
                            old(self)@.channels[j].clients,
                            event_frame(event@, message@),
                            outcomes(reports@[j].deliveries@),
                            now as nat,
                        ),
                    ),
                forall|j: int|
                    0 <= j < k ==> (#[trigger] reports@[j]).channel@ == old(self)@.channels[j].name
                        && recipients(reports@[j].deliveries@) == client_ids(
                        old(self)@.channels[j].clients,
                    ),
                forall|j: int|
                    k <= j < self@.channels.len() ==> #[trigger] self@.channels[j] == old(
                        self,
                    )@.channels[j],
            decreases names@.len() - k,
        {
            let ghost before = self@;
            proof {
                assert(texts(names@)[k as int] == old(self)@.names()[k as int]);
                assert(names@[k as int]@ == old(self)@.channels[k as int].name);
                assert(before.channels[k as int] == old(self)@.channels[k as int]);
                lemma_index_of(before, names@[k as int]@, k as int);
            }
            let deliveries = self.send_to_channel_at(names[k].as_str(), event, message, now);
            let channel = names[k].clone();
            reports.push(ChannelReport { channel, deliveries });
            proof {
                assert forall|j: int| 0 <= j < k + 1 implies #[trigger] self@.channels[j] == old(
                    self,
                )@.channels[j].with_clients(
                    after_deliveries(
                        old(self)@.channels[j].clients,
                        event_frame(event@, message@),
                        outcomes(reports@[j].deliveries@),
                        now as nat,
                    ),
                ) by {
                    if j < k {
                        assert(self@.channels[j] == before.channels[j]);
                    }
                }
            }
            k += 1;
        }
        proof {
            assert(self@.channels =~= old(self)@.broadcast_all(
                event_frame(event@, message@),
                all_outcomes(reports@),
                now as nat,
            ).channels);
        }
        reports
    }

    /// Sends one event to every subscriber of every registered channel and
    /// notes, at the time the server's clock shows, which of them took it.
    pub fn send_to_all_channels(&mut self, event: &str, message: &str) -> (reports: Vec<
        ChannelReport,
    >)
        requires
            old(self).wf(),
        ensures
            final(self).wf(),
            exists|now: nat|
                final(self)@ == #[trigger] old(self)@.broadcast_all(
                    event_frame(event@, message@),
                    all_outcomes(reports@),
                    now,
                ),
            reports@.len() == old(self)@.channels.len(),
            forall|k: int|
                0 <= k < reports@.len() ==> (#[trigger] reports@[k]).channel@
                    == old(self)@.channels[k].name && recipients(reports@[k].deliveries@)
                    == client_ids(old(self)@.channels[k].clients),
    {
        let now = elapsed_nanos(&self.clock);
        let reports = self.send_to_all_channels_at(event, message, now);
        assert(self@ == old(self)@.broadcast_all(
            event_frame(event@, message@),
            all_outcomes(reports@),
            now as nat,
        ));
        reports
    }

    /// One scan at time `now`: every subscriber whose deliveries have been
    /// failing for more than `grace_secs` seconds leaves its channel, and
    /// its identifier is free again. All other subscribers stay as they
    /// are. Gives the identifiers that were set free.
    pub fn remove_stale_clients_at(&mut self, now: u128, grace_secs: u64) -> (gone: Vec<i32>)
        requires
            old(self).wf(),
        ensures
            final(self).wf(),
            final(self)@ == old(self)@.reap(now as nat, grace_nanos(grace_secs)),
            as_ints(gone@) == old(self)@.evicted_ids(now as nat, grace_nanos(grace_secs)),
    {
        let ghost grace = grace_nanos(grace_secs);
        let ghost start = self@;
        let mut gone: Vec<i32> = Vec::new();
        let mut k: usize = 0;
        assert(start.channels.take(0) =~= Seq::<ChannelState>::empty());
        assert(as_ints(gone@) =~= evicted_from(start.channels.take(0), now as nat, grace));
        while k < self.channels.len()
            invariant
                start == old(self)@,
                grace == grace_nanos(grace_secs),
                k <= self.channels@.len(),
                self@.channels.len() == start.channels.len(),
                self.id_storage == old(self).id_storage,
                forall|j: int|
                    0 <= j < k ==> #[trigger] self@.channels[j] == start.channels[j].with_clients(
                        survivors(start.channels[j].clients, now as nat, grace),
                    ),
                forall|j: int|
                    k <= j < self@.channels.len() ==> #[trigger] self@.channels[j]
                        == start.channels[j],
                as_ints(gone@) == evicted_from(start.channels.take(k as int), now as nat, grace),
            decreases self.channels@.len() - k,
        {
            let ghost before = self@;
            let ghost ids = as_ints(gone@);
            let entry = &mut self.channels[k];
            let mut here = evict_stale(&mut entry.clients, now, grace_secs);
            let ghost fresh = as_ints(here@);
            gone.append(&mut here);
            proof {
                assert(before.channels[k as int] == start.channels[k as int]);
                assert(as_ints(gone@) =~= ids + fresh);
                assert(start.channels.take(k + 1).drop_last() =~= start.channels.take(k as int));
                assert(start.channels.take(k + 1).last() == start.channels[k as int]);
                assert forall|j: int| 0 <= j < self@.channels.len() && j != k implies #[trigger]
                    self@.channels[j] == before.channels[j] by {}
            }
            k += 1;
        }
        assert(start.channels.take(k as int) =~= start.channels);
        let mut m: usize = 0;
        assert(as_ints(gone@).take(0) =~= Seq::<int>::empty());
        assert(self.id_storage@ =~= start.allocated.difference(as_ints(gone@).take(0).to_set()));
        while m < gone.len()
            invariant
                old(self).wf(),
                start == old(self)@,
                m <= gone@.len(),
                self@.channels.len() == start.channels.len(),
                forall|j: int|
                    0 <= j < self@.channels.len() ==> #[trigger] self@.channels[j]
                        == start.channels[j].with_clients(
                        survivors(start.channels[j].clients, now as nat, grace),
                    ),
                self.id_storage.wf(),
                self.id_storage@ == start.allocated.difference(
                    as_ints(gone@).take(m as int).to_set(),
                ),
            decreases gone@.len() - m,
        {
            let ghost ids = as_ints(gone@);
            self.id_storage.release_id(gone[m]);
            proof {
                assert(ids.take(m + 1) =~= ids.take(m as int).push(ids[m as int]));
                assert(ids[m as int] == gone@[m as int] as int);
                assert(ids.take(m + 1).to_set() =~= ids.take(m as int).to_set().insert(
                    ids[m as int],
                )) by {
                    let shorter = ids.take(m as int);
                    let longer = ids.take(m + 1);
                    assert forall|x: int| longer.to_set().contains(x) implies shorter.to_set().insert(
                        ids[m as int],
                    ).contains(x) by {
                        let i = choose|i: int| 0 <= i < longer.len() && longer[i] == x;
                        if i < m {
                            assert(shorter[i] == x);
                        }
                    }
                    assert forall|x: int| shorter.to_set().insert(ids[m as int]).contains(
                        x,
                    ) implies longer.to_set().contains(x) by {
                        if x == ids[m as int] {
                            assert(longer[m as int] == x);
                        } else {
                            let i = choose|i: int| 0 <= i < shorter.len() && shorter[i] == x;
                            assert(longer[i] == x);
                        }
                    }
                }
                assert(self.id_storage@ =~= start.allocated.difference(
                    ids.take(m + 1).to_set(),
                ));
            }
            m += 1;
        }
        proof {
            assert(as_ints(gone@).take(m as int) =~= as_ints(gone@));
            assert(self@.channels =~= start.reap(now as nat, grace).channels);
            lemma_reap_wf(start, now as nat, grace);
        }
        gone
    }

    /// One scan at the time the server's clock shows, with the grace
    /// period of `GRACE_PERIOD_SECS` seconds.
    pub fn remove_stale_clients(&mut self) -> (gone: Vec<i32>)
        requires
            old(self).wf(),
        ensures
            final(self).wf(),
            exists|now: nat|
                final(self)@ == #[trigger] old(self)@.reap(now, grace_nanos(GRACE_PERIOD_SECS))
                    && as_ints(gone@) == old(self)@.evicted_ids(
                    now,
                    grace_nanos(GRACE_PERIOD_SECS),
                ),
    {
        let now = elapsed_nanos(&self.clock);
        let gone = self.remove_stale_clients_at(now, GRACE_PERIOD_SECS);
        assert(self@ == old(self)@.reap(now as nat, grace_nanos(GRACE_PERIOD_SECS)));
        gone
    }

    /// One maintenance round at time `now`: a scan that evicts the stale
    /// subscribers, then a heartbeat event with no data to every channel.
    pub fn maintenance_at(&mut self, now: u128, grace_secs: u64) -> (report: MaintenanceReport)
        requires
            old(self).wf(),
        ensures
            final(self).wf(),
            final(self)@ == old(self)@.reap(now as nat, grace_nanos(grace_secs)).broadcast_all(
                heartbeat_frame(),
                all_outcomes(report.heartbeat@),
                now as nat,
            ),
            as_ints(report.evicted@) == old(self)@.evicted_ids(
                now as nat,
                grace_nanos(grace_secs),
            ),
            report.heartbeat@.len() == old(self)@.channels.len(),
            forall|k: int|
                0 <= k < report.heartbeat@.len() ==> (#[trigger] report.heartbeat@[k]).channel@
                    == old(self)@.channels[k].name && recipients(report.heartbeat@[k].deliveries@)
                    == client_ids(
                    survivors(old(self)@.channels[k].clients, now as nat, grace_nanos(grace_secs)),
                ),
    {
        let evicted = self.remove_stale_clients_at(now, grace_secs);
        let heartbeat = self.send_to_all_channels_at("heartbeat", "", now);
        MaintenanceReport { evicted, heartbeat }
    }

    /// One maintenance round at the time the server's clock shows, with
    /// the grace period of `GRACE_PERIOD_SECS` seconds.
    pub fn maintenance(&mut self) -> (report: MaintenanceReport)
        requires
            old(self).wf(),
        ensures
            final(self).wf(),
            exists|now: nat|
                final(self)@ == (#[trigger] old(self)@.reap(
                    now,
                    grace_nanos(GRACE_PERIOD_SECS),
                )).broadcast_all(heartbeat_frame(), all_outcomes(report.heartbeat@), now)
                    && as_ints(report.evicted@)
                    == old(self)@.evicted_ids(now, grace_nanos(GRACE_PERIOD_SECS)),
            report.heartbeat@.len() == old(self)@.channels.len(),
    {
        let now = elapsed_nanos(&self.clock);
        let report = self.maintenance_at(now, GRACE_PERIOD_SECS);
        assert(self@ == old(self)@.reap(now as nat, grace_nanos(GRACE_PERIOD_SECS)).broadcast_all(
            heartbeat_frame(),
            all_outcomes(report.heartbeat@),
            now as nat,
        ));
        report
    }
}

} // verus!
