use vstd::prelude::*;

use crate::task::TaskHandle;

verus! {

/// Number of data words a message carries.
pub const MESSAGE_WORDS: usize = 4;

/// A message: a tag that says what it is, and data words.
#[derive(Clone, Copy, Debug, PartialEq, Eq)]
pub struct Message {
    pub tag: u64,
    pub words: [u64; MESSAGE_WORDS],
}

impl Message {
    /// A message with tag `tag` and all data words zero.
    pub fn new(tag: u64) -> (msg: Message)
        ensures
            msg.tag == tag,
            forall|i: int| 0 <= i < MESSAGE_WORDS ==> msg.words[i] == 0,
    {
        Message { tag, words: [0u64; MESSAGE_WORDS] }
    }

    /// The message with data word `index` set to `value`.
    pub fn with_word(self, index: usize, value: u64) -> (msg: Message)
        requires
            index < MESSAGE_WORDS,
        ensures
            msg.tag == self.tag,
            msg.words@ == self.words@.update(index as int, value),
    {
        let mut msg = self;
        msg.words[index] = value;
        msg
    }
}

/// What an endpoint waits for.
#[derive(Clone, Copy)]
pub enum EndpointState {
    /// No server and no client.
    Idle,
    /// A server waits for a message.
    WaitingReceiver(TaskHandle),
    /// A client's message waits for a server.
    WaitingCaller(TaskHandle, Message),
    /// A server holds a client's message; the client waits for the reply.
    WaitingReply(TaskHandle),
}

/// A named meeting point of servers and clients.
#[derive(Clone, Copy)]
pub struct Endpoint {
    pub id: u32,
    pub state: EndpointState,
}

/// Lets a server reply to the client whose message it received.
#[derive(Clone, Copy, Debug, PartialEq, Eq)]
pub struct ReplyToken(pub TaskHandle);

/// What a server finds when it asks for a message.
#[derive(Debug, PartialEq, Eq)]
pub enum RecvOutcome {
    ServerHasMessage(ReplyToken, Message),
    ServerBlocked,
}

/// Why the registry refused a request.
#[derive(Debug, PartialEq, Eq)]
pub enum IpcError {
    EndpointNotFound,
    EndpointAlreadyExists,
    EndpointBusy,
}

/// The endpoints and the messages that wait to be picked up: deliveries to
/// servers and replies to clients.
pub struct EndpointRegistry {
    endpoints: Vec<Endpoint>,
    server_deliveries: Vec<(TaskHandle, ReplyToken, Message)>,
    client_replies: Vec<(TaskHandle, Message)>,
}

/// Index of the endpoint `id`, or -1.
pub open spec fn endpoint_index(endpoints: Seq<Endpoint>, id: u32) -> int {
    if exists|i: int| 0 <= i < endpoints.len() && (#[trigger] endpoints[i]).id == id {
        choose|i: int| 0 <= i < endpoints.len() && (#[trigger] endpoints[i]).id == id
    } else {
        -1
    }
}

/// Whether no two endpoints have the same id.
pub open spec fn ids_unique(endpoints: Seq<Endpoint>) -> bool {
    forall|i: int, j: int|
        0 <= i < j < endpoints.len() ==> (#[trigger] endpoints[i]).id != (#[trigger] endpoints[j]).id
}

/// Whether `endpoint` waits for `client`'s reply.
pub open spec fn waits_reply_for(endpoint: Endpoint, client: TaskHandle) -> bool {
    endpoint.state matches EndpointState::WaitingReply(t) && t == client
}

/// Index of the first endpoint that waits for `client`'s reply, or -1.
pub open spec fn first_waiting_reply(endpoints: Seq<Endpoint>, client: TaskHandle) -> int
    decreases endpoints.len(),
{
    if endpoints.len() == 0 {
        -1
    } else if waits_reply_for(endpoints[0], client) {
        0
    } else {
        let rest = first_waiting_reply(endpoints.drop_first(), client);
        if rest < 0 {
            -1
        } else {
            rest + 1
        }
    }
}

/// The endpoints after a reply to `client`: the first endpoint that waits
/// for the client's reply becomes idle.
pub open spec fn replied_endpoints(endpoints: Seq<Endpoint>, client: TaskHandle) -> Seq<Endpoint> {
    let i = first_waiting_reply(endpoints, client);
    if i >= 0 {
        endpoints.update(i, Endpoint { id: endpoints[i].id, state: EndpointState::Idle })
    } else {
        endpoints
    }
}

/// A full exchange on an idle endpoint (a client's message waits for a
/// server, a server takes it, the server replies) leaves the endpoints as
/// they were, when no other endpoint waits for that client's reply.
pub proof fn lemma_exchange_restores_endpoints(endpoints: Seq<Endpoint>, i: int, client: TaskHandle, msg: Message)
    requires
        0 <= i < endpoints.len(),
        endpoints[i].state == EndpointState::Idle,
        forall|k: int| 0 <= k < endpoints.len() && k != i ==> !waits_reply_for(#[trigger] endpoints[k], client),
    ensures
        ({
            let id = endpoints[i].id;
            let sent = endpoints.update(i, Endpoint { id, state: EndpointState::WaitingCaller(client, msg) });
            let received = sent.update(i, Endpoint { id, state: EndpointState::WaitingReply(client) });
            replied_endpoints(received, client) == endpoints
        }),
{
    let id = endpoints[i].id;
    let sent = endpoints.update(i, Endpoint { id, state: EndpointState::WaitingCaller(client, msg) });
    let received = sent.update(i, Endpoint { id, state: EndpointState::WaitingReply(client) });
    lemma_first_waiting_reply(received, client);
    assert(waits_reply_for(received[i], client));
    let j = first_waiting_reply(received, client);
    assert(j == i) by {
        if j < i {
            assert(received[j] == endpoints[j]);
        }
    }
    assert(replied_endpoints(received, client) =~= endpoints);
}

/// Index of the first entry of `items` addressed to `task`, or -1.
pub open spec fn first_for<X>(items: Seq<(TaskHandle, X)>, task: TaskHandle) -> int
    decreases items.len(),
{
    if items.len() == 0 {
        -1
    } else if items[0].0 == task {
        0
    } else {
        let rest = first_for(items.drop_first(), task);
        if rest < 0 {
            -1
        } else {
            rest + 1
        }
    }
}

/// `items` without the entry at `pos`, the last entry taking its place.
pub open spec fn swap_removed<X>(items: Seq<X>, pos: int) -> Seq<X> {
    items.update(pos, items.last()).drop_last()
}

proof fn lemma_first_for<X>(items: Seq<(TaskHandle, X)>, task: TaskHandle)
    ensures
        -1 <= first_for(items, task) < items.len(),
        first_for(items, task) >= 0 ==> items[first_for(items, task)].0 == task,
        first_for(items, task) >= 0 ==> forall|k: int|
            0 <= k < first_for(items, task) ==> (#[trigger] items[k]).0 != task,
        first_for(items, task) < 0 ==> forall|k: int|
            0 <= k < items.len() ==> (#[trigger] items[k]).0 != task,
    decreases items.len(),
{
    if items.len() > 0 && items[0].0 != task {
        lemma_first_for(items.drop_first(), task);
        let rest = first_for(items.drop_first(), task);
        assert forall|k: int| 1 <= k < items.len() implies (#[trigger] items[k]).0 == items.drop_first()[k
            - 1].0 by {}
    }
}

proof fn lemma_first_waiting_reply(endpoints: Seq<Endpoint>, client: TaskHandle)
    ensures
        -1 <= first_waiting_reply(endpoints, client) < endpoints.len(),
        first_waiting_reply(endpoints, client) >= 0 ==> waits_reply_for(endpoints[first_waiting_reply(endpoints, client)], client),
        first_waiting_reply(endpoints, client) >= 0 ==> forall|k: int|
            0 <= k < first_waiting_reply(endpoints, client) ==> !waits_reply_for(#[trigger] endpoints[k], client),
        first_waiting_reply(endpoints, client) < 0 ==> forall|k: int|
            0 <= k < endpoints.len() ==> !waits_reply_for(#[trigger] endpoints[k], client),
    decreases endpoints.len(),
{
    if endpoints.len() > 0 && !waits_reply_for(endpoints[0], client) {
        lemma_first_waiting_reply(endpoints.drop_first(), client);
        assert forall|k: int| 1 <= k < endpoints.len() implies (#[trigger] endpoints[k])
            == endpoints.drop_first()[k - 1] by {}
    }
}

fn same_task(a: TaskHandle, b: TaskHandle) -> (same: bool)
    ensures
        same == (a == b),
{
    a.index == b.index && a.generation == b.generation
}

impl EndpointRegistry {
    pub closed spec fn endpoints_view(&self) -> Seq<Endpoint> {
        self.endpoints@
    }

    /// Messages delivered to servers, oldest first except where one was taken.
    pub closed spec fn deliveries(&self) -> Seq<(TaskHandle, ReplyToken, Message)> {
        self.server_deliveries@
    }

    /// Replies to clients, oldest first except where one was taken.
    pub closed spec fn replies(&self) -> Seq<(TaskHandle, Message)> {
        self.client_replies@
    }

    /// The deliveries as (server, (token, message)) pairs.
    pub open spec fn deliveries_by_server(&self) -> Seq<(TaskHandle, (ReplyToken, Message))> {
        self.deliveries().map_values(
            |d: (TaskHandle, ReplyToken, Message)| (d.0, (d.1, d.2)),
        )
    }

    pub open spec fn wf(&self) -> bool {
        ids_unique(self.endpoints_view())
    }

    /// The state of endpoint `id`, if it exists.
    pub open spec fn state_of(&self, id: u32) -> Option<EndpointState> {
        let i = endpoint_index(self.endpoints_view(), id);
        if i >= 0 {
            Some(self.endpoints_view()[i].state)
        } else {
            None
        }
    }

    /// A registry without endpoints or messages.
    pub fn new() -> (registry: Self)
        ensures
            registry.wf(),
            registry.endpoints_view().len() == 0,
            registry.deliveries().len() == 0,
            registry.replies().len() == 0,
    {
        EndpointRegistry {
            endpoints: Vec::new(),
            server_deliveries: Vec::new(),
            client_replies: Vec::new(),
        }
    }

    fn find_index(&self, id: u32) -> (found: Option<usize>)
        requires
            self.wf(),
        ensures
            match found {
                Some(i) => i == endpoint_index(self.endpoints_view(), id),
                None => endpoint_index(self.endpoints_view(), id) == -1,
            },
    {
        let mut i: usize = 0;
        while i < self.endpoints.len()
            invariant
                ids_unique(self.endpoints@),
                i <= self.endpoints@.len(),
                forall|k: int| 0 <= k < i ==> (#[trigger] self.endpoints@[k]).id != id,
            decreases self.endpoints@.len() - i,
        {
            if self.endpoints[i].id == id {
                proof {
                    let j = endpoint_index(self.endpoints_view(), id);
                    assert(self.endpoints@[i as int].id == id);
                    assert(0 <= j < self.endpoints@.len() && self.endpoints@[j].id == id);
                    assert(j == i) by {
                        if j != i {
                            if j < i {
                            } else {
                                assert(self.endpoints@[i as int].id != self.endpoints@[j].id);
                            }
                        }
                    }
                }
                return Some(i);
            }
            i = i + 1;
        }
        None
    }

    /// Adds endpoint `id` in the idle state; fails when it exists.
    pub fn create(&mut self, id: u32) -> (result: Result<(), IpcError>)
        requires
            old(self).wf(),
        ensures
            final(self).wf(),
            final(self).deliveries() == old(self).deliveries(),
            final(self).replies() == old(self).replies(),
            match result {
                Ok(()) => {
                    &&& old(self).state_of(id) is None
                    &&& final(self).endpoints_view() == old(self).endpoints_view().push(
                        Endpoint { id, state: EndpointState::Idle },
                    )
                },
                Err(e) => {
                    &&& e == IpcError::EndpointAlreadyExists
                    &&& old(self).state_of(id) is Some
                    &&& final(self).endpoints_view() == old(self).endpoints_view()
                },
            },
    {
        match self.find_index(id) {
            Some(_) => {
                return Err(IpcError::EndpointAlreadyExists);
            },
            None => {},
        }
        let ghost before = self.endpoints@;
        self.endpoints.push(Endpoint { id, state: EndpointState::Idle });
        proof {
            assert forall|i: int, j: int|
                0 <= i < j < self.endpoints@.len() implies (#[trigger] self.endpoints@[i]).id
                != (#[trigger] self.endpoints@[j]).id by {
                if j == before.len() {
                    assert(before[i] == self.endpoints@[i]);
                }
            }
        }
        Ok(())
    }

    /// A client's call on endpoint `id`. An idle endpoint keeps the message
    /// for a server; a waiting server gets it delivered at once. Fails when
    /// the endpoint does not exist or already has a client.
    pub fn send(&mut self, id: u32, sender: TaskHandle, msg: Message) -> (result: Result<(), IpcError>)
        requires
            old(self).wf(),
        ensures
            final(self).wf(),
            final(self).replies() == old(self).replies(),
            ({
                let i = endpoint_index(old(self).endpoints_view(), id);
                let eps = old(self).endpoints_view();
                match old(self).state_of(id) {
                    None => result == Err::<(), IpcError>(IpcError::EndpointNotFound) && final(self).endpoints_view()
                        == eps && final(self).deliveries() == old(self).deliveries(),
                    Some(EndpointState::Idle) => result is Ok && final(self).endpoints_view()
                        == eps.update(i, Endpoint { id, state: EndpointState::WaitingCaller(sender, msg) })
                        && final(self).deliveries() == old(self).deliveries(),
                    Some(EndpointState::WaitingReceiver(server)) => result is Ok
                        && final(self).endpoints_view() == eps.update(
                        i,
                        Endpoint { id, state: EndpointState::WaitingReply(sender) },
                    ) && final(self).deliveries() == old(self).deliveries().push(
                        (server, ReplyToken(sender), msg),
                    ),
                    Some(_) => result == Err::<(), IpcError>(IpcError::EndpointBusy) && final(self).endpoints_view()
                        == eps && final(self).deliveries() == old(self).deliveries(),
                }
            }),
    {
        let i = match self.find_index(id) {
            Some(i) => i,
            None => {
                return Err(IpcError::EndpointNotFound);
            },
        };
        let endpoint = self.endpoints[i];
        let ghost before = self.endpoints@;
        let notify_server = match endpoint.state {
            EndpointState::Idle => {
                self.endpoints.set(
                    i,
                    Endpoint { id: endpoint.id, state: EndpointState::WaitingCaller(sender, msg) },
                );
                None
            },
            EndpointState::WaitingReceiver(server_task) => {
                self.endpoints.set(
                    i,
                    Endpoint { id: endpoint.id, state: EndpointState::WaitingReply(sender) },
                );
                Some(server_task)
            },
            EndpointState::WaitingCaller(_, _) | EndpointState::WaitingReply(_) => {
                return Err(IpcError::EndpointBusy);
            },
        };
        proof {
            assert forall|a: int, b: int|
                0 <= a < b < self.endpoints@.len() implies (#[trigger] self.endpoints@[a]).id
                != (#[trigger] self.endpoints@[b]).id by {
                assert(before[a].id == self.endpoints@[a].id);
                assert(before[b].id == self.endpoints@[b].id);
            }
        }
        match notify_server {
            Some(server_task) => {
                self.server_deliveries.push((server_task, ReplyToken(sender), msg));
            },
            None => {},
        }
        Ok(())
    }

    /// A server asks endpoint `id` for a message. It gets a waiting client's
    /// message at once, or waits when the endpoint is idle. Fails when the
    /// endpoint does not exist or already has a server or a client waiting
    /// for a reply.
    pub fn recv(&mut self, id: u32, server: TaskHandle) -> (result: Result<RecvOutcome, IpcError>)
        requires
            old(self).wf(),
        ensures
            final(self).wf(),
            final(self).deliveries() == old(self).deliveries(),
            final(self).replies() == old(self).replies(),
            ({
                let i = endpoint_index(old(self).endpoints_view(), id);
                let eps = old(self).endpoints_view();
                match old(self).state_of(id) {
                    None => result == Err::<RecvOutcome, IpcError>(IpcError::EndpointNotFound)
                        && final(self).endpoints_view() == eps,
                    Some(EndpointState::Idle) => result == Ok::<RecvOutcome, IpcError>(RecvOutcome::ServerBlocked)
                        && final(self).endpoints_view() == eps.update(
                        i,
                        Endpoint { id, state: EndpointState::WaitingReceiver(server) },
                    ),
                    Some(EndpointState::WaitingCaller(client, msg)) => result == Ok::<
                        RecvOutcome,
                        IpcError,
                    >(RecvOutcome::ServerHasMessage(ReplyToken(client), msg))
                        && final(self).endpoints_view() == eps.update(
                        i,
                        Endpoint { id, state: EndpointState::WaitingReply(client) },
                    ),
                    Some(_) => result == Err::<RecvOutcome, IpcError>(IpcError::EndpointBusy)
                        && final(self).endpoints_view() == eps,
                }
            }),
    {
        let i = match self.find_index(id) {
            Some(i) => i,
            None => {
                return Err(IpcError::EndpointNotFound);
            },
        };
        let endpoint = self.endpoints[i];
        let ghost before = self.endpoints@;
        let outcome = match endpoint.state {
            EndpointState::Idle => {
                self.endpoints.set(
                    i,
                    Endpoint { id: endpoint.id, state: EndpointState::WaitingReceiver(server) },
                );
                RecvOutcome::ServerBlocked
            },
            EndpointState::WaitingCaller(client_task, msg) => {
                self.endpoints.set(
                    i,
                    Endpoint { id: endpoint.id, state: EndpointState::WaitingReply(client_task) },
                );
                RecvOutcome::ServerHasMessage(ReplyToken(client_task), msg)
            },
            EndpointState::WaitingReceiver(_) | EndpointState::WaitingReply(_) => {
                return Err(IpcError::EndpointBusy);
            },
        };
        proof {
            assert forall|a: int, b: int|
                0 <= a < b < self.endpoints@.len() implies (#[trigger] self.endpoints@[a]).id
                != (#[trigger] self.endpoints@[b]).id by {
                assert(before[a].id == self.endpoints@[a].id);
                assert(before[b].id == self.endpoints@[b].id);
            }
        }
        Ok(outcome)
    }

    /// A server's reply: the first endpoint that waits for this client's
    /// reply becomes idle, and the reply waits for the client.
    pub fn reply(&mut self, token: ReplyToken, msg: Message)
        requires
            old(self).wf(),
        ensures
            final(self).wf(),
            final(self).deliveries() == old(self).deliveries(),
            final(self).replies() == old(self).replies().push((token.0, msg)),
            final(self).endpoints_view() == replied_endpoints(old(self).endpoints_view(), token.0),
    {
        let ReplyToken(client_task) = token;
        let ghost eps = self.endpoints@;
        proof {
            lemma_first_waiting_reply(eps, client_task);
        }
        let mut i: usize = 0;
        let mut found = false;
        while i < self.endpoints.len() && !found
            invariant
                self.endpoints@ == eps,
                i <= eps.len(),
                found ==> i < eps.len() && i == first_waiting_reply(eps, client_task),
                forall|k: int| 0 <= k < i ==> !waits_reply_for(#[trigger] eps[k], client_task),
                -1 <= first_waiting_reply(eps, client_task) < eps.len(),
                first_waiting_reply(eps, client_task) >= 0 ==> waits_reply_for(
                    eps[first_waiting_reply(eps, client_task)],
                    client_task,
                ),
                first_waiting_reply(eps, client_task) >= 0 ==> forall|k: int|
                    0 <= k < first_waiting_reply(eps, client_task) ==> !waits_reply_for(
                        #[trigger] eps[k],
                        client_task,
                    ),
                first_waiting_reply(eps, client_task) < 0 ==> forall|k: int|
                    0 <= k < eps.len() ==> !waits_reply_for(#[trigger] eps[k], client_task),
            decreases eps.len() - i + if found { 0int } else { 1int },
        {
            let endpoint = self.endpoints[i];
            let mut waits = false;
            if let EndpointState::WaitingReply(task) = endpoint.state {
                waits = same_task(task, client_task);
            }
            if waits {
                proof {
                    let f = first_waiting_reply(eps, client_task);
                    assert(waits_reply_for(eps[i as int], client_task));
                    assert(f == i) by {
                        if f < 0 || f > i {
                        }
                    }
                }
                found = true;
            } else {
                i = i + 1;
            }
        }
        if found {
            let id = self.endpoints[i].id;
            self.endpoints.set(i, Endpoint { id, state: EndpointState::Idle });
        }
        proof {
            if !found {
                assert(first_waiting_reply(eps, client_task) < 0) by {
                    let f = first_waiting_reply(eps, client_task);
                    if f >= 0 {
                        assert(!waits_reply_for(eps[f], client_task));
                    }
                }
            }
            assert forall|a: int, b: int|
                0 <= a < b < self.endpoints@.len() implies (#[trigger] self.endpoints@[a]).id
                != (#[trigger] self.endpoints@[b]).id by {
                assert(eps[a].id == self.endpoints@[a].id);
                assert(eps[b].id == self.endpoints@[b].id);
            }
        }
        self.client_replies.push((client_task, msg));
    }

    /// Whether a message waits for `server`.
    pub fn has_server_delivery(&self, server: TaskHandle) -> (has: bool)
        ensures
            has == exists|k: int|
                0 <= k < self.deliveries().len() && (#[trigger] self.deliveries()[k]).0 == server,
    {
        let mut k: usize = 0;
        while k < self.server_deliveries.len()
            invariant
                k <= self.server_deliveries@.len(),
                forall|j: int| 0 <= j < k ==> (#[trigger] self.server_deliveries@[j]).0 != server,
            decreases self.server_deliveries@.len() - k,
        {
            if same_task(self.server_deliveries[k].0, server) {
                assert(self.deliveries()[k as int].0 == server);
                return true;
            }
            k = k + 1;
        }
        false
    }

    /// Takes the first message that waits for `server`; the last waiting
    /// message moves into its place.
    pub fn take_server_delivery(&mut self, server: TaskHandle) -> (taken: Option<(ReplyToken, Message)>)
        requires
            old(self).wf(),
        ensures
            final(self).wf(),
            final(self).endpoints_view() == old(self).endpoints_view(),
            final(self).replies() == old(self).replies(),
            ({
                let ds = old(self).deliveries();
                let pos = first_for(old(self).deliveries_by_server(), server);
                match taken {
                    None => pos < 0 && final(self).deliveries() == ds,
                    Some(t) => {
                        &&& pos >= 0
                        &&& t == (ds[pos].1, ds[pos].2)
                        &&& final(self).deliveries() == swap_removed(ds, pos)
                    },
                }
            }),
    {
        let ghost ds = self.server_deliveries@;
        let ghost by_server = self.deliveries_by_server();
        proof {
            lemma_first_for(by_server, server);
        }
        let mut k: usize = 0;
        let mut found = false;
        while k < self.server_deliveries.len() && !found
            invariant
                self.server_deliveries@ == ds,
                by_server == ds.map_values(
                    |d: (TaskHandle, ReplyToken, Message)| (d.0, (d.1, d.2)),
                ),
                k <= ds.len(),
                found ==> k < ds.len() && ds[k as int].0 == server,
                forall|j: int| 0 <= j < k ==> (#[trigger] ds[j]).0 != server,
            decreases ds.len() - k + if found { 0int } else { 1int },
        {
            if same_task(self.server_deliveries[k].0, server) {
                found = true;
            } else {
                k = k + 1;
            }
        }
        let ghost f = first_for(by_server, server);
        proof {
            assert forall|j: int| 0 <= j < k implies (#[trigger] by_server[j]).0 != server by {
                assert(by_server[j].0 == ds[j].0);
            }
            if found {
                assert(by_server[k as int].0 == server);
                assert(f == k) by {
                    if f < 0 || f > k {
                    } else if f < k {
                    }
                }
            } else {
                assert(f < 0) by {
                    if f >= 0 {
                        assert(by_server[f].0 == ds[f].0);
                    }
                }
            }
        }
        if !found {
            return None;
        }
        let (_, token, msg) = self.server_deliveries.swap_remove(k);
        proof {
            assert(self.server_deliveries@ =~= swap_removed(ds, k as int));
        }
        Some((token, msg))
    }

    /// Whether a reply waits for `client`.
    pub fn has_client_reply(&self, client: TaskHandle) -> (has: bool)
        ensures
            has == exists|k: int|
                0 <= k < self.replies().len() && (#[trigger] self.replies()[k]).0 == client,
    {
        let mut k: usize = 0;
        while k < self.client_replies.len()
            invariant
                k <= self.client_replies@.len(),
                forall|j: int| 0 <= j < k ==> (#[trigger] self.client_replies@[j]).0 != client,
            decreases self.client_replies@.len() - k,
        {
            if same_task(self.client_replies[k].0, client) {
                assert(self.replies()[k as int].0 == client);
                return true;
            }
            k = k + 1;
        }
        false
    }

    /// Takes the first reply that waits for `client`; the last waiting
    /// reply moves into its place.
    pub fn take_client_reply(&mut self, client: TaskHandle) -> (taken: Option<Message>)
        requires
            old(self).wf(),
        ensures
            final(self).wf(),
            final(self).endpoints_view() == old(self).endpoints_view(),
            final(self).deliveries() == old(self).deliveries(),
            ({
                let rs = old(self).replies();
                let pos = first_for(rs, client);
                match taken {
                    None => pos < 0 && final(self).replies() == rs,
                    Some(m) => pos >= 0 && m == rs[pos].1 && final(self).replies() == swap_removed(
                        rs,
                        pos,
                    ),
                }
            }),
    {
        let ghost rs = self.client_replies@;
        proof {
            lemma_first_for(rs, client);
        }
        let mut k: usize = 0;
        let mut found = false;
        while k < self.client_replies.len() && !found
            invariant
                self.client_replies@ == rs,
                k <= rs.len(),
                found ==> k < rs.len() && rs[k as int].0 == client,
                forall|j: int| 0 <= j < k ==> (#[trigger] rs[j]).0 != client,
            decreases rs.len() - k + if found { 0int } else { 1int },
        {
            if same_task(self.client_replies[k].0, client) {
                found = true;
            } else {
                k = k + 1;
            }
        }
        proof {
            let f = first_for(rs, client);
            if found {
                assert(f == k) by {
                    if f < 0 || f > k {
                    } else if f < k {
                    }
                }
            } else {
                assert(f < 0) by {
                    if f >= 0 {
                        assert(rs[f].0 == client);
                    }
                }
            }
        }
        if !found {
            return None;
        }
        let (_, msg) = self.client_replies.swap_remove(k);
        proof {
            assert(self.client_replies@ =~= swap_removed(rs, k as int));
        }
        Some(msg)
    }
}

} // verus!
