use std::collections::VecDeque;
use vstd::prelude::*;

use crate::syscall::IpcServerHandle;
use crate::task::{FutureHandle, TaskHandle};

verus! {

/// Most servers that the manager registers.
pub const MAX_SERVERS: usize = 256;

/// Why the IPC manager refused a request.
#[derive(Copy, Clone, Debug, PartialEq, Eq, Structural)]
pub enum IpcError {
    ServerNotFound,
    ServerCannotBeAdded,
}

/// A message as its server receives it: the value, the sending task and
/// the future on which the sender waits for the reply.
#[derive(Copy, Clone, Debug, PartialEq, Eq)]
pub struct IpcReceiveMessage {
    pub value: u32,
    pub sender: TaskHandle,
    pub future: FutureHandle,
}

/// A reply to a message: the value, and the future of the sender that
/// receives it.
#[derive(Copy, Clone, Debug, PartialEq, Eq)]
pub struct IpcReplyMessage {
    pub value: u32,
    pub future: FutureHandle,
}

/// The servers under their service names, the messages that wait for each,
/// and the servers that wait for a message.
pub struct IpcManager {
    services: Vec<String>,
    mailboxes: Vec<VecDeque<IpcReceiveMessage>>,
    receivers: Vec<(IpcServerHandle, FutureHandle)>,
}

/// The future on which server `h` waits in `receivers`: the last entry for it.
pub open spec fn receiver_in(receivers: Seq<(IpcServerHandle, FutureHandle)>, h: IpcServerHandle) -> Option<FutureHandle>
    decreases receivers.len(),
{
    if receivers.len() == 0 {
        None
    } else if receivers.last().0 == h {
        Some(receivers.last().1)
    } else {
        receiver_in(receivers.drop_last(), h)
    }
}

/// `receivers` without the entries of server `h`.
pub open spec fn without_server(receivers: Seq<(IpcServerHandle, FutureHandle)>, h: IpcServerHandle) -> Seq<
    (IpcServerHandle, FutureHandle),
>
    decreases receivers.len(),
{
    if receivers.len() == 0 {
        receivers
    } else if receivers.last().0 == h {
        without_server(receivers.drop_last(), h)
    } else {
        without_server(receivers.drop_last(), h).push(receivers.last())
    }
}

proof fn lemma_without_server(receivers: Seq<(IpcServerHandle, FutureHandle)>, h: IpcServerHandle, x: IpcServerHandle)
    ensures
        receiver_in(without_server(receivers, h), x) == if x == h {
            None
        } else {
            receiver_in(receivers, x)
        },
    decreases receivers.len(),
{
    if receivers.len() > 0 {
        lemma_without_server(receivers.drop_last(), h, x);
        let w = without_server(receivers.drop_last(), h);
        assert(w.push(receivers.last()).drop_last() =~= w);
    }
}

/// Index of the service named `name`, or -1.
pub open spec fn service_index(services: Seq<Seq<char>>, name: Seq<char>) -> int {
    if exists|i: int| 0 <= i < services.len() && services[i] == name {
        choose|i: int| 0 <= i < services.len() && services[i] == name
    } else {
        -1
    }
}

impl IpcManager {
    /// The service names, by server index.
    pub closed spec fn services(&self) -> Seq<Seq<char>> {
        self.services@.map_values(|s: String| s@)
    }

    /// The messages that wait for each server, oldest first.
    pub closed spec fn mailboxes(&self) -> Seq<Seq<IpcReceiveMessage>> {
        self.mailboxes@.map_values(|m: VecDeque<IpcReceiveMessage>| m@)
    }

    /// The future on which server `h` waits for a message, if any.
    pub closed spec fn receiver(&self, h: IpcServerHandle) -> Option<FutureHandle> {
        receiver_in(self.receivers@, h)
    }

    /// One mailbox per server, no two servers under one name, and at most
    /// `MAX_SERVERS` servers.
    pub closed spec fn wf(&self) -> bool {
        &&& self.mailboxes@.len() == self.services@.len()
        &&& self.services@.len() <= MAX_SERVERS
        &&& forall|i: int, j: int|
            0 <= i < j < self.services@.len() ==> (#[trigger] self.services@[i])@ != (#[trigger] self.services@[j])@
    }

    /// The handle of server `i`.
    pub open spec fn server_handle(i: int) -> IpcServerHandle {
        IpcServerHandle { index: i as u8, generation: 0 }
    }

    /// Whether `h` names a registered server.
    pub open spec fn is_server(&self, h: IpcServerHandle) -> bool {
        h.index < self.services().len()
    }

    /// Whether `h` names a registered server.
    pub fn is_registered(&self, h: IpcServerHandle) -> (registered: bool)
        ensures
            registered == self.is_server(h),
    {
        (h.index as usize) < self.services.len()
    }

    /// No servers, no messages, no server waiting.
    pub fn new() -> (manager: Self)
        ensures
            manager.wf(),
            manager.services() == Seq::<Seq<char>>::empty(),
            manager.mailboxes() == Seq::<Seq<IpcReceiveMessage>>::empty(),
            forall|h: IpcServerHandle| #[trigger] manager.receiver(h) is None,
    {
        let manager = IpcManager { services: Vec::new(), mailboxes: Vec::new(), receivers: Vec::new() };
        assert(manager.services() =~= Seq::<Seq<char>>::empty());
        assert(manager.mailboxes() =~= Seq::<Seq<IpcReceiveMessage>>::empty());
        manager
    }

    fn find_index(&self, service: &String) -> (found: Option<usize>)
        requires
            self.wf(),
        ensures
            match found {
                Some(i) => i == service_index(self.services(), service@) && i < self.services().len(),
                None => service_index(self.services(), service@) == -1,
            },
    {
        let mut i: usize = 0;
        while i < self.services.len()
            invariant
                self.wf(),
                i <= self.services@.len(),
                forall|j: int| 0 <= j < i ==> (#[trigger] self.services()[j]) != service@,
            decreases self.services@.len() - i,
        {
            if self.services[i] == *service {
                proof {
                    let ss = self.services();
                    assert(ss[i as int] == service@);
                    let w = service_index(ss, service@);
                    assert(0 <= w < ss.len() && ss[w] == service@);
                    assert(self.services@[w]@ == ss[w]);
                    assert(self.services@[i as int]@ == ss[i as int]);
                    if w < i {
                        assert(self.services@[w]@ != self.services@[i as int]@);
                    } else if w > i {
                        assert(self.services@[i as int]@ != self.services@[w]@);
                    }
                }
                return Some(i);
            }
            i = i + 1;
        }
        None
    }

    /// The handle of the server registered for `service`; `ServerNotFound`
    /// when there is none.
    pub fn find(&self, service: &str) -> (result: Result<IpcServerHandle, IpcError>)
        requires
            self.wf(),
        ensures
            match result {
                Ok(h) => {
                    let i = service_index(self.services(), service@);
                    i >= 0 && h == Self::server_handle(i)
                },
                Err(e) => e == IpcError::ServerNotFound && service_index(self.services(), service@) == -1,
            },
    {
        let owned = service.to_owned();
        match self.find_index(&owned) {
            Some(i) => Ok(IpcServerHandle { index: i as u8, generation: 0 }),
            None => Err(IpcError::ServerNotFound),
        }
    }

    /// Registers a server for `service`, with an empty mailbox; fails with
    /// `ServerCannotBeAdded` when the service has a server already.
    pub fn register(&mut self, service: &str) -> (result: Result<IpcServerHandle, IpcError>)
        requires
            old(self).wf(),
            service_index(old(self).services(), service@) == -1 ==> old(self).services().len() < MAX_SERVERS,
        ensures
            final(self).wf(),
            forall|h: IpcServerHandle| #[trigger] final(self).receiver(h) == old(self).receiver(h),
            match result {
                Ok(h) => {
                    &&& service_index(old(self).services(), service@) == -1
                    &&& h == Self::server_handle(old(self).services().len() as int)
                    &&& final(self).services() == old(self).services().push(service@)
                    &&& final(self).mailboxes() == old(self).mailboxes().push(Seq::empty())
                },
                Err(e) => {
                    &&& e == IpcError::ServerCannotBeAdded
                    &&& service_index(old(self).services(), service@) >= 0
                    &&& final(self).services() == old(self).services()
                    &&& final(self).mailboxes() == old(self).mailboxes()
                },
            },
    {
        let owned = service.to_owned();
        if self.find_index(&owned).is_some() {
            return Err(IpcError::ServerCannotBeAdded);
        }
        let index = self.services.len();
        let ghost old_services = self.services@;
        self.services.push(owned);
        self.mailboxes.push(VecDeque::new());
        proof {
            assert(self.services() =~= old(self).services().push(service@));
            assert(self.mailboxes() =~= old(self).mailboxes().push(Seq::empty()));
            assert forall|i: int, j: int|
                0 <= i < j < self.services@.len() implies (#[trigger] self.services@[i])@ != (#[trigger] self.services@[j])@ by {
                if j == index {
                    assert(self.services@[i]@ == old(self).services()[i]);
                    assert(service_index(old(self).services(), service@) == -1);
                    if self.services@[i]@ == service@ {
                        assert(old(self).services()[i] == service@);
                    }
                } else {
                    assert(self.services@[i] == old_services[i]);
                    assert(self.services@[j] == old_services[j]);
                }
            }
        }
        Ok(IpcServerHandle { index: index as u8, generation: 0 })
    }

    /// Drops the wait of server `h` and returns the future it waited on.
    fn take_receiver(&mut self, h: IpcServerHandle) -> (future: Option<FutureHandle>)
        ensures
            future == old(self).receiver(h),
            final(self).services == old(self).services,
            final(self).mailboxes == old(self).mailboxes,
            forall|x: IpcServerHandle|
                #[trigger] final(self).receiver(x) == if x == h {
                    None
                } else {
                    old(self).receiver(x)
                },
    {
        let mut found: Option<FutureHandle> = None;
        let mut kept: Vec<(IpcServerHandle, FutureHandle)> = Vec::new();
        let mut i: usize = 0;
        while i < self.receivers.len()
            invariant
                i <= self.receivers@.len(),
                kept@ == without_server(self.receivers@.take(i as int), h),
                found == receiver_in(self.receivers@.take(i as int), h),
            decreases self.receivers@.len() - i,
        {
            let e = self.receivers[i];
            let ghost next = self.receivers@.take(i + 1);
            assert(next.drop_last() == self.receivers@.take(i as int));
            assert(next.last() == e);
            if e.0.index == h.index && e.0.generation == h.generation {
                found = Some(e.1);
            } else {
                kept.push(e);
            }
            i = i + 1;
        }
        assert(self.receivers@.take(self.receivers@.len() as int) == self.receivers@);
        let ghost old_receivers = self.receivers@;
        self.receivers = kept;
        proof {
            assert forall|x: IpcServerHandle|
                #[trigger] self.receiver(x) == if x == h {
                    None
                } else {
                    old(self).receiver(x)
                } by {
                lemma_without_server(old_receivers, h, x);
            }
        }
        found
    }

    /// Sends `message` to server `h`: when the server waits for a message,
    /// its wait ends and the future it waited on is returned, for the message
    /// to be handed to it; else the message goes to the end of the server's
    /// mailbox.
    pub fn send(&mut self, h: IpcServerHandle, message: IpcReceiveMessage) -> (waiting: Option<FutureHandle>)
        requires
            old(self).wf(),
            old(self).is_server(h),
        ensures
            final(self).wf(),
            final(self).services() == old(self).services(),
            waiting == old(self).receiver(h),
            forall|x: IpcServerHandle|
                #[trigger] final(self).receiver(x) == if x == h {
                    None
                } else {
                    old(self).receiver(x)
                },
            final(self).mailboxes() == if waiting is Some {
                old(self).mailboxes()
            } else {
                old(self).mailboxes().update(h.index as int, old(self).mailboxes()[h.index as int].push(message))
            },
    {
        let waiting = self.take_receiver(h);
        let ghost mid = *self;
        if waiting.is_none() {
            let index = h.index as usize;
            self.mailboxes[index].push_back(message);
            proof {
                assert(self.mailboxes() =~= old(self).mailboxes().update(
                    h.index as int,
                    old(self).mailboxes()[h.index as int].push(message),
                ));
            }
        }
        proof {
            assert forall|x: IpcServerHandle|
                #[trigger] self.receiver(x) == if x == h {
                    None
                } else {
                    old(self).receiver(x)
                } by {
                assert(mid.receiver(x) == if x == h {
                    None
                } else {
                    old(self).receiver(x)
                });
            }
        }
        waiting
    }

    /// Takes the oldest message for server `h`, if any.
    pub fn receive(&mut self, h: IpcServerHandle) -> (message: Option<IpcReceiveMessage>)
        requires
            old(self).wf(),
            old(self).is_server(h),
        ensures
            final(self).wf(),
            final(self).services() == old(self).services(),
            forall|x: IpcServerHandle| #[trigger] final(self).receiver(x) == old(self).receiver(x),
            ({
                let mb = old(self).mailboxes()[h.index as int];
                match message {
                    None => mb.len() == 0 && final(self).mailboxes() == old(self).mailboxes(),
                    Some(m) => mb.len() > 0 && m == mb[0] && final(self).mailboxes() == old(self).mailboxes().update(
                        h.index as int,
                        mb.drop_first(),
                    ),
                }
            }),
    {
        let index = h.index as usize;
        let message = self.mailboxes[index].pop_front();
        proof {
            let mb = old(self).mailboxes()[h.index as int];
            if message is Some {
                assert(self.mailboxes() =~= old(self).mailboxes().update(h.index as int, mb.drop_first()));
            } else {
                assert(self.mailboxes() =~= old(self).mailboxes());
            }
        }
        message
    }

    /// Records that server `h` waits for a message on `future`, in the place
    /// of a wait it had before.
    pub fn add_receiver(&mut self, h: IpcServerHandle, future: FutureHandle)
        requires
            old(self).wf(),
        ensures
            final(self).wf(),
            final(self).services() == old(self).services(),
            final(self).mailboxes() == old(self).mailboxes(),
            forall|x: IpcServerHandle|
                #[trigger] final(self).receiver(x) == if x == h {
                    Some(future)
                } else {
                    old(self).receiver(x)
                },
    {
        let _ = self.take_receiver(h);
        let ghost mid = *self;
        self.receivers.push((h, future));
        proof {
            assert(self.receivers@.drop_last() =~= mid.receivers@);
            assert forall|x: IpcServerHandle|
                #[trigger] self.receiver(x) == if x == h {
                    Some(future)
                } else {
                    old(self).receiver(x)
                } by {
                assert(mid.receiver(x) == if x == h {
                    None
                } else {
                    old(self).receiver(x)
                });
            }
        }
    }
}

} // verus!
