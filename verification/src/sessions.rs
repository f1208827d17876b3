use vstd::prelude::*;
use std::collections::HashMap;
use vstd::std_specs::iter::IteratorSpec;
use tokio::sync::mpsc::UnboundedSender;

verus! {

broadcast use {vstd::std_specs::hash::group_hash_axioms, vstd::seq_lib::group_seq_properties};

/// The sending half of an unbounded tokio channel.
#[verifier::external_type_specification]
#[verifier::external_body]
#[verifier::reject_recursive_types(T)]
pub struct ExUnboundedSender<T>(UnboundedSender<T>);

/// A record of the messages handed to the sessions' channels, in the order of the
/// calls: the channel's sender and the message. It has no content at run time.
pub struct SendLog {
    sent: Ghost<Seq<(UnboundedSender<Vec<u8>>, Seq<u8>)>>,
}

/// This structure manages the socket sessions, by the id of each.
pub struct WebSockets {
    web_sockets: HashMap<u128, UnboundedSender<Vec<u8>>>,
    log: SendLog,
}

/// `after` is `before` followed by one send of `payload` on the sender that `sessions`
/// holds under each id of `targets`, in some order of the ids.
pub open spec fn sends_once_to(
    before: Seq<(UnboundedSender<Vec<u8>>, Seq<u8>)>,
    after: Seq<(UnboundedSender<Vec<u8>>, Seq<u8>)>,
    sessions: Map<u128, UnboundedSender<Vec<u8>>>,
    targets: Set<u128>,
    payload: Seq<u8>,
) -> bool {
    exists|ids: Seq<u128>|
        #![trigger ids.to_set()]
        ids.no_duplicates() && ids.to_set() == targets
            && after == before + ids.map_values(|x: u128| (sessions[x], payload))
}

impl View for WebSockets {
    type V = Map<u128, UnboundedSender<Vec<u8>>>;

    closed spec fn view(&self) -> Self::V {
        self.web_sockets@
    }
}

/// Calls `tokio::sync::mpsc::UnboundedSender::send` on `session` with `message`.
/// Claimed: the call is recorded in `log`, with the sender and the message. Whether the
/// message is taken depends on whether the receiving half is still open, which
/// nothing here can see: nothing is claimed of the result.
#[verifier::external_body]
fn send_to(log: &mut SendLog, session: &UnboundedSender<Vec<u8>>, message: Vec<u8>) -> (taken: bool)
    ensures
        final(log).sent@ == old(log).sent@.push((*session, message@)),
{
    session.send(message).is_ok()
}

/// The work that the session task is asked to do.
#[derive(Debug)]
pub enum WebSocketCommands {
    WebSocketAddConn(u128, UnboundedSender<Vec<u8>>),
    WebSocketRemoveConn(u128),
    WebSocketBroadcast(Vec<u8>),
    WebSocketBroadcastExcept(u128, Vec<u8>),
}

/// Removing a session just added, under an id that was free, gives the registry back.
pub proof fn lemma_add_then_remove(
    m: Map<u128, UnboundedSender<Vec<u8>>>,
    ident: u128,
    session: UnboundedSender<Vec<u8>>,
)
    requires
        !m.contains_key(ident),
    ensures
        m.insert(ident, session).remove(ident) == m,
{
    assert(m.insert(ident, session).remove(ident) =~= m);
}

/// With no session under `ident`, a broadcast except `ident` reaches the same sessions
/// as a plain broadcast.
pub proof fn lemma_except_absent_is_broadcast(
    m: Map<u128, UnboundedSender<Vec<u8>>>,
    ident: u128,
    before: Seq<(UnboundedSender<Vec<u8>>, Seq<u8>)>,
    after: Seq<(UnboundedSender<Vec<u8>>, Seq<u8>)>,
    payload: Seq<u8>,
)
    requires
        !m.contains_key(ident),
    ensures
        sends_once_to(before, after, m, m.dom().remove(ident), payload)
            <==> sends_once_to(before, after, m, m.dom(), payload),
{
    assert(m.dom().remove(ident) =~= m.dom());
}

impl Default for WebSockets {
    fn default() -> (s: Self)
        ensures
            s@ == Map::<u128, UnboundedSender<Vec<u8>>>::empty(),
            s.sent() == Seq::<(UnboundedSender<Vec<u8>>, Seq<u8>)>::empty(),
    {
        Self::new()
    }
}

impl WebSockets {
    /// The messages handed to the sessions so far, each with the id of its session.
    pub closed spec fn sent(&self) -> Seq<(UnboundedSender<Vec<u8>>, Seq<u8>)> {
        self.log.sent@
    }

    /// No sessions.
    pub fn new() -> (s: Self)
        ensures
            s@ == Map::<u128, UnboundedSender<Vec<u8>>>::empty(),
            s.sent() == Seq::<(UnboundedSender<Vec<u8>>, Seq<u8>)>::empty(),
    {
        Self { web_sockets: HashMap::new(), log: SendLog { sent: Ghost(Seq::empty()) } }
    }

    /// Add a socket to the session; a session already under `ident` is replaced.
    pub fn add_session(&mut self, ident: u128, session: UnboundedSender<Vec<u8>>)
        ensures
            final(self)@ == old(self)@.insert(ident, session),
            final(self).sent() == old(self).sent(),
    {
        let _ = self.web_sockets.insert(ident, session);
    }

    /// Remove a socket from the session.
    pub fn remove_session(&mut self, ident: u128)
        ensures
            final(self)@ == old(self)@.remove(ident),
            final(self).sent() == old(self).sent(),
    {
        let _ = self.web_sockets.remove(&ident);
    }

    /// Broadcast payload to all registered sockets within a session: each gets one
    /// copy, in no set order.
    pub fn broadcast(&mut self, payload: Vec<u8>)
        ensures
            final(self)@ == old(self)@,
            sends_once_to(old(self).sent(), final(self).sent(), old(self)@, old(self)@.dom(), payload@),
    {
        let ids = self.recipients(None);
        assert forall|i: int| 0 <= i < ids@.len() implies self@.contains_key(#[trigger] ids@[i]) by {
            assert(ids@.contains(ids@[i]));
        }
        self.send_each(&ids, &payload);
        proof { self.lemma_recipients_set(ids@, None); }
    }

    /// Broadcast payload to all registered sockets except the one identified by ident.
    pub fn broadcast_except(&mut self, ident: u128, payload: Vec<u8>)
        ensures
            final(self)@ == old(self)@,
            sends_once_to(old(self).sent(), final(self).sent(), old(self)@, old(self)@.dom().remove(ident), payload@),
    {
        let ids = self.recipients(Some(ident));
        assert forall|i: int| 0 <= i < ids@.len() implies self@.contains_key(#[trigger] ids@[i]) by {
            assert(ids@.contains(ids@[i]));
        }
        self.send_each(&ids, &payload);
        proof { self.lemma_recipients_set(ids@, Some(ident)); }
    }

    /// Carries out one command.
    pub fn handle_command(&mut self, command: WebSocketCommands)
        ensures
            match command {
                WebSocketCommands::WebSocketAddConn(ident, session) =>
                    final(self)@ == old(self)@.insert(ident, session)
                        && final(self).sent() == old(self).sent(),
                WebSocketCommands::WebSocketRemoveConn(ident) =>
                    final(self)@ == old(self)@.remove(ident)
                        && final(self).sent() == old(self).sent(),
                WebSocketCommands::WebSocketBroadcast(payload) =>
                    final(self)@ == old(self)@
                        && sends_once_to(old(self).sent(), final(self).sent(), old(self)@, old(self)@.dom(), payload@),
                WebSocketCommands::WebSocketBroadcastExcept(ident, payload) =>
                    final(self)@ == old(self)@
                        && sends_once_to(
                            old(self).sent(),
                            final(self).sent(),
                            old(self)@,
                            old(self)@.dom().remove(ident),
                            payload@,
                        ),
            },
    {
        match command {
            WebSocketCommands::WebSocketAddConn(ident, session) => self.add_session(ident, session),
            WebSocketCommands::WebSocketRemoveConn(ident) => self.remove_session(ident),
            WebSocketCommands::WebSocketBroadcast(items) => self.broadcast(items),
            WebSocketCommands::WebSocketBroadcastExcept(ident, items) => self.broadcast_except(ident, items),
        }
    }

    /// Sends a copy of `payload` to the session under each of `ids`, in that order.
    fn send_each(&mut self, ids: &Vec<u128>, payload: &Vec<u8>)
        requires
            forall|i: int| 0 <= i < ids@.len() ==> old(self)@.contains_key(#[trigger] ids@[i]),
        ensures
            final(self)@ == old(self)@,
            final(self).sent() == old(self).sent() + ids@.map_values(|x: u128| (old(self)@[x], payload@)),
    {
        let mut i: usize = 0;
        while i < ids.len()
            invariant
                i <= ids@.len(),
                self@ == old(self)@,
                forall|j: int| 0 <= j < ids@.len() ==> self@.contains_key(#[trigger] ids@[j]),
                self.sent() == old(self).sent() + ids@.take(i as int).map_values(|x: u128| (old(self)@[x], payload@)),
            decreases ids@.len() - i,
        {
            let id = ids[i];
            let ghost before = self.sent();
            match self.web_sockets.get(&id) {
                Some(session) => {
                    let message = payload.clone();
                    assert(message@ =~= payload@);
                    let _ = send_to(&mut self.log, session, message);
                },
                None => {
                    assert(false);
                },
            }
            proof {
                assert(ids@.take(i + 1) =~= ids@.take(i as int).push(id));
                assert(ids@.take(i + 1).map_values(|x: u128| (old(self)@[x], payload@))
                    =~= ids@.take(i as int).map_values(|x: u128| (old(self)@[x], payload@)).push((old(self)@[id], payload@)));
                assert(self.sent() =~= before.push((old(self)@[id], payload@)));
            }
            i = i + 1;
        }
        assert(ids@.take(ids@.len() as int) =~= ids@);
    }

    /// The ids that `recipients` gives are, as a set, the registered ids less `except`.
    proof fn lemma_recipients_set(&self, ids: Seq<u128>, except: Option<u128>)
        requires
            forall|x: u128| ids.contains(x) <==> (self@.contains_key(x) && except != Some(x)),
        ensures
            ids.to_set() == (match except {
                Some(e) => self@.dom().remove(e),
                None => self@.dom(),
            }),
    {
        assert(ids.to_set() =~= (match except {
            Some(e) => self@.dom().remove(e),
            None => self@.dom(),
        }));
    }

    /// The ids of the registered sessions, each once, without `except` when it is given:
    /// the sessions that a broadcast reaches.
    pub fn recipients(&self, except: Option<u128>) -> (ids: Vec<u128>)
        ensures
            ids@.no_duplicates(),
            forall|x: u128| ids@.contains(x) <==> (self@.contains_key(x) && except != Some(x)),
    {
        let mut ids: Vec<u128> = Vec::new();
        let ghost keys = vstd::std_specs::hash::spec_keys_iter(&self.web_sockets).remaining();
        let ghost ks = keys.unref();
        proof {
            assert(ks.no_duplicates()) by {
                assert forall|a: int, b: int| 0 <= a < ks.len() && 0 <= b < ks.len() && a != b
                    implies ks[a] != ks[b] by {
                    assert(keys[a] != keys[b]);
                }
            }
        }
        for k in it: self.web_sockets.keys()
            invariant
                it.seq() == keys,
                ks == keys.unref(),
                ks.no_duplicates(),
                ks.to_set() == self@.dom(),
                ids@.no_duplicates(),
                forall|x: u128| ids@.contains(x) <==> (ks.take(it.index()).contains(x) && except != Some(x)),
        {
            let ghost i = it.index();
            let id: u128 = *k;
            proof {
                assert(id == ks[i]);
                assert(ks.take(i + 1) =~= ks.take(i).push(id));
                assert forall|j: int| 0 <= j < i implies ks.take(i)[j] != id by {
                    assert(ks[j] != ks[i]);
                }
            }
            let keep = match except {
                Some(e) => id != e,
                None => true,
            };
            let ghost before = ids@;
            if keep {
                ids.push(id);
                proof {
                    assert(!before.contains(id));
                    assert forall|a: int, b: int| 0 <= a < ids@.len() && 0 <= b < ids@.len() && a != b
                        implies ids@[a] != ids@[b] by {
                        if b == before.len() {
                            assert(before.contains(before[a]));
                        } else if a == before.len() {
                            assert(before.contains(before[b]));
                        }
                    }
                }
            }
            proof {
                assert forall|x: u128| ids@.contains(x) <==> (ks.take(i + 1).contains(x) && except != Some(x)) by {
                    assert(ks.take(i + 1).contains(x) <==> (ks.take(i).contains(x) || x == id));
                    if keep {
                        assert(ids@ == before.push(id));
                        assert(ids@.contains(x) <==> (before.contains(x) || x == id));
                    }
                }
            }
        }
        proof {
            assert(ks.take(ks.len() as int) =~= ks);
        }
        ids
    }
}

} // verus!
