//! One session: the identifiers it hands out, the answers it waits for, and
//! where each message of the server's core goes.
//!
//! `W` is what waits for an answer (the sending end of a channel) and `P` the
//! connection to the client. The session decides; its owner sends.
use std::collections::HashMap;

use vstd::prelude::*;

use crate::outgoing_message::{OutgoingMessage, OutgoingNotification, RequestId};
#[allow(unused_imports)]
use crate::outgoing_message::{id_text, IdModel, MessageModel};
#[allow(unused_imports)]
use crate::server_info::is_server_info;
use crate::server_info::{get_info, ServerInfo};
use crate::text::{chars_of, in_dictionary_order};
#[allow(unused_imports)]
use crate::text::{dictionary_le, lemma_dictionary_total, lemma_dictionary_transitive};
#[allow(unused_imports)]
use vstd::std_specs::iter::IteratorSpec;

verus! {

broadcast use vstd::std_specs::hash::group_hash_axioms;

/// A session with one client.
pub struct SessionRuntime<W, P> {
    next_synthetic_request_id: i64,
    pending_responses: HashMap<i64, W>,
    peer: Option<P>,
}

/// A session as a mathematical value: the next identifier, who waits for the
/// answer to which, and the client's connection once there is one.
#[verifier::ext_equal]
pub struct SessionModel<W, P> {
    pub next_id: i64,
    pub pending: Map<i64, W>,
    pub peer: Option<P>,
}

/// What to do with an answer.
pub enum Resolution<W, V, E> {
    /// Hand it to the one who waits for it.
    Deliver { waiter: W, id: RequestId, response: Result<V, E> },
    /// Drop it: nobody waits for it.
    Unknown { id: RequestId },
}

/// What to do with a notification.
pub enum NotificationRoute<P, V> {
    /// Send it to the client as a custom notification.
    Forward { peer: P, method: String, params: Option<V> },
    /// Drop it: the handshake has not taken place.
    NoPeer { method: String },
}

/// What to do with a message.
pub enum BridgeAction<W, P, V, E> {
    /// It is an answer.
    Resolve(Resolution<W, V, E>),
    /// It is a notification.
    Notify(NotificationRoute<P, V>),
    /// It is a request to the client: send it as a custom request, and hand
    /// what the client answers back to the server's core under this identifier.
    ForwardRequest { peer: P, id: RequestId, method: String, params: Option<V> },
    /// It is a request to the client before the handshake: drop it.
    DropRequest { method: String },
}

/// What to do with a message, as a mathematical value.
pub enum ActionModel<W, P, V, E> {
    Deliver { waiter: W, id: IdModel, response: Result<V, E> },
    Unknown { id: IdModel },
    Forward { peer: P, method: Seq<char>, params: Option<V> },
    NoPeer { method: Seq<char> },
    ForwardRequest { peer: P, id: IdModel, method: Seq<char>, params: Option<V> },
    DropRequest { method: Seq<char> },
}

/// What to do about a handshake.
pub struct Handshake {
    /// Whether the client's description is still to be recorded with its
    /// connection.
    pub record_peer_info: bool,
    /// What to answer.
    pub info: ServerInfo,
}

/// The identifier after `n`: one more, and after the largest the smallest.
pub open spec fn id_after(n: i64) -> i64 {
    if n == i64::MAX {
        i64::MIN
    } else {
        (n + 1) as i64
    }
}

/// A session in which nothing has happened.
pub open spec fn new_session<W, P>() -> SessionModel<W, P> {
    SessionModel { next_id: 0, pending: Map::empty(), peer: None }
}

/// The session once `waiter` waits for the answer to the next identifier.
pub open spec fn reserved<W, P>(s: SessionModel<W, P>, waiter: W) -> SessionModel<W, P> {
    SessionModel {
        next_id: id_after(s.next_id),
        pending: s.pending.insert(s.next_id, waiter),
        peer: s.peer,
    }
}

/// The session once the client of the handshake is known.
pub open spec fn initialized<W, P>(s: SessionModel<W, P>, peer: P) -> SessionModel<W, P> {
    SessionModel { peer: Some(peer), ..s }
}

/// Whether somebody waits for the answer to a request.
pub open spec fn awaits<W, P>(s: SessionModel<W, P>, id: IdModel) -> bool {
    id is Number && s.pending.contains_key(id->Number_0)
}

/// The session once nobody waits for the answer to a request any more.
pub open spec fn answered<W, P>(s: SessionModel<W, P>, id: IdModel) -> SessionModel<W, P> {
    if awaits(s, id) {
        SessionModel { pending: s.pending.remove(id->Number_0), ..s }
    } else {
        s
    }
}

/// What to do with a message.
pub open spec fn action<W, P, V, E>(
    s: SessionModel<W, P>,
    message: MessageModel<V, E>,
) -> ActionModel<W, P, V, E> {
    match message {
        MessageModel::Answer { id, outcome } => if awaits(s, id) {
            ActionModel::Deliver { waiter: s.pending[id->Number_0], id, response: outcome }
        } else {
            ActionModel::Unknown { id }
        },
        MessageModel::Notification { method, params } => match s.peer {
            Some(peer) => ActionModel::Forward { peer, method, params },
            None => ActionModel::NoPeer { method },
        },
        MessageModel::Request { id, method, params } => match s.peer {
            Some(peer) => ActionModel::ForwardRequest { peer, id, method, params },
            None => ActionModel::DropRequest { method },
        },
    }
}

/// The session after a message: an answer ends the wait for it, and nothing
/// else changes anything.
pub open spec fn bridged<W, P, V, E>(
    s: SessionModel<W, P>,
    message: MessageModel<V, E>,
) -> SessionModel<W, P> {
    match message {
        MessageModel::Answer { id, .. } => answered(s, id),
        _ => s,
    }
}

/// Whether a resolution is the one to take.
pub open spec fn resolution_is<W, P, V, E>(
    r: Resolution<W, V, E>,
    a: ActionModel<W, P, V, E>,
) -> bool {
    match r {
        Resolution::Deliver { waiter, id, response } => a == (ActionModel::<W, P, V, E>::Deliver {
            waiter,
            id: id@,
            response,
        }),
        Resolution::Unknown { id } => a == (ActionModel::<W, P, V, E>::Unknown { id: id@ }),
    }
}

/// Whether a route is the one to take, the connection being a clone of the
/// session's.
pub open spec fn route_is<W, P: Clone, V, E>(
    r: NotificationRoute<P, V>,
    a: ActionModel<W, P, V, E>,
) -> bool {
    match r {
        NotificationRoute::Forward { peer, method, params } => a matches ActionModel::Forward {
            peer: p,
            method: m,
            params: q,
        } && cloned(p, peer) && method@ == m && params == q,
        NotificationRoute::NoPeer { method } => a == (ActionModel::<W, P, V, E>::NoPeer {
            method: method@,
        }),
    }
}

/// Whether an action is the one to take, the connection being a clone of the
/// session's.
pub open spec fn action_is<W, P: Clone, V, E>(
    r: BridgeAction<W, P, V, E>,
    a: ActionModel<W, P, V, E>,
) -> bool {
    match r {
        BridgeAction::Resolve(resolution) => resolution_is(resolution, a),
        BridgeAction::Notify(route) => route_is(route, a),
        BridgeAction::ForwardRequest { peer, id, method, params } => a matches
            ActionModel::ForwardRequest { peer: p, id: i, method: m, params: q } && cloned(p, peer)
            && id@ == i && method@ == m && params == q,
        BridgeAction::DropRequest { method } => a == (ActionModel::<W, P, V, E>::DropRequest {
            method: method@,
        }),
    }
}

/// Identifiers taken by their views.
pub open spec fn id_models(ids: Seq<RequestId>) -> Seq<IdModel> {
    ids.map_values(|id: RequestId| id@)
}

/// Whether identifiers stand in the order of their texts, none of them twice.
pub open spec fn in_text_order(ids: Seq<IdModel>) -> bool {
    forall|i: int, j: int|
        0 <= i < j < ids.len() ==> #[trigger] ids[i] != #[trigger] ids[j] && dictionary_le(
            id_text(ids[i]),
            id_text(ids[j]),
        )
}

/// Whether these are the identifiers that are waited for, all of them and no
/// others, in the order of their texts.
pub open spec fn is_listing<W>(ids: Seq<IdModel>, pending: Map<i64, W>) -> bool {
    &&& in_text_order(ids)
    &&& forall|i: int|
        0 <= i < ids.len() ==> #[trigger] ids[i] is Number && pending.contains_key(
            ids[i]->Number_0,
        )
    &&& forall|n: i64| #[trigger]
        pending.contains_key(n) ==> ids.contains(IdModel::Number(n))
}

proof fn lemma_inserted_in_order(texts: Seq<Vec<char>>, p: int, text: Vec<char>)
    requires
        0 <= p <= texts.len(),
        p > 0 ==> dictionary_le(texts[p - 1]@, text@),
        forall|q: int| p <= q < texts.len() ==> !dictionary_le((#[trigger] texts[q])@, text@),
        forall|i: int, j: int|
            0 <= i < j < texts.len() ==> dictionary_le(
                (#[trigger] texts[i])@,
                (#[trigger] texts[j])@,
            ),
    ensures
        forall|i: int, j: int|
            0 <= i < j < texts.len() + 1 ==> dictionary_le(
                (#[trigger] texts.insert(p, text)[i])@,
                (#[trigger] texts.insert(p, text)[j])@,
            ),
{
    let after = texts.insert(p, text);
    assert forall|i: int, j: int| 0 <= i < j < after.len() implies dictionary_le(
        (#[trigger] after[i])@,
        (#[trigger] after[j])@,
    ) by {
        if i == p {
            assert(after[j] == texts[j - 1]);
            lemma_dictionary_total(text@, texts[j - 1]@);
        } else if j == p {
            assert(after[i] == texts[i]);
            if i < p - 1 {
                assert(dictionary_le(texts[i]@, texts[p - 1]@));
                lemma_dictionary_transitive(texts[i]@, texts[p - 1]@, text@);
            }
        } else {
            let k = if i < p { i } else { i - 1 };
            let l = if j < p { j } else { j - 1 };
            assert(after[i] == texts[k]);
            assert(after[j] == texts[l]);
        }
    }
}

proof fn lemma_inserted_members(s: Seq<i64>, p: int, n: i64)
    requires
        0 <= p <= s.len(),
        s.no_duplicates(),
        !s.contains(n),
    ensures
        s.insert(p, n).no_duplicates(),
        forall|m: i64| #[trigger] s.insert(p, n).contains(m) <==> s.contains(m) || m == n,
{
    let t = s.insert(p, n);
    assert forall|m: i64| #[trigger] t.contains(m) <==> s.contains(m) || m == n by {
        if s.contains(m) {
            let k = choose|k: int| 0 <= k < s.len() && s[k] == m;
            assert(t[if k < p { k } else { k + 1 }] == m);
        }
        if m == n {
            assert(t[p] == m);
        }
        if t.contains(m) && m != n {
            let k = choose|k: int| 0 <= k < t.len() && t[k] == m;
            assert(s[if k < p { k } else { k - 1 }] == m);
        }
    }
    assert forall|i: int, j: int| 0 <= i < t.len() && 0 <= j < t.len() && i != j implies t[i]
        != t[j] by {
        if i == p {
            assert(s.contains(s[if j < p { j } else { j - 1 }]));
        } else if j == p {
            assert(s.contains(s[if i < p { i } else { i - 1 }]));
        }
    }
}

impl<W, P> View for SessionRuntime<W, P> {
    type V = SessionModel<W, P>;

    closed spec fn view(&self) -> SessionModel<W, P> {
        SessionModel {
            next_id: self.next_synthetic_request_id,
            pending: self.pending_responses@,
            peer: self.peer,
        }
    }
}

impl<W, P> SessionRuntime<W, P> {
    /// A session in which nothing has happened.
    pub fn new() -> (session: Self)
        ensures
            session@ == new_session::<W, P>(),
    {
        SessionRuntime {
            next_synthetic_request_id: 0,
            pending_responses: HashMap::new(),
            peer: None,
        }
    }

    /// Hands out the next identifier and lets `waiter` wait for the answer to
    /// it.
    pub fn reserve_pending_response(&mut self, waiter: W) -> (id: RequestId)
        ensures
            id@ == IdModel::Number(old(self)@.next_id),
            final(self)@ == reserved(old(self)@, waiter),
    {
        let id: i64 = self.next_synthetic_request_id;
        self.next_synthetic_request_id = id.wrapping_add(1);
        self.pending_responses.insert(id, waiter);
        RequestId::Number(id)
    }

    /// Takes the one who waits for an answer out of the session.
    pub fn resolve_pending_response<V, E>(
        &mut self,
        id: RequestId,
        response: Result<V, E>,
    ) -> (resolution: Resolution<W, V, E>)
        ensures
            resolution_is(
                resolution,
                action(old(self)@, MessageModel::Answer { id: id@, outcome: response }),
            ),
            final(self)@ == answered(old(self)@, id@),
    {
        let waiter = match &id {
            RequestId::Number(n) => self.pending_responses.remove(n),
            RequestId::String(_) => None,
        };
        match waiter {
            Some(waiter) => Resolution::Deliver { waiter, id, response },
            None => {
                proof {
                    if let IdModel::Number(n) = id@ {
                        assert(old(self)@.pending.remove(n) =~= old(self)@.pending);
                    }
                }
                Resolution::Unknown { id }
            },
        }
    }

    /// Takes up a handshake: the connection becomes the session's, and the
    /// client's description is recorded unless one is there already.
    pub fn initialize(&mut self, peer: P, peer_info_is_recorded: bool) -> (handshake: Handshake)
        ensures
            handshake.record_peer_info == !peer_info_is_recorded,
            is_server_info(handshake.info),
            final(self)@ == initialized(old(self)@, peer),
    {
        self.peer = Some(peer);
        Handshake { record_peer_info: !peer_info_is_recorded, info: get_info() }
    }

    /// The identifiers whose answers are waited for, in the order of their
    /// texts.
    pub fn pending_request_ids(&self) -> (ids: Vec<RequestId>)
        ensures
            is_listing(id_models(ids@), self@.pending),
    {
        let mut sorted: Vec<i64> = Vec::new();
        let mut texts: Vec<Vec<char>> = Vec::new();
        let keys = self.pending_responses.keys();
        let ghost all = keys.remaining();
        for key in it: keys
            invariant
                it.seq() == all,
                all.no_duplicates(),
                all.unref().to_set() == self.pending_responses@.dom(),
                sorted@.no_duplicates(),
                forall|n: i64| #[trigger]
                    sorted@.contains(n) <==> all.take(it.index() as int).contains(&n),
                texts@.len() == sorted@.len(),
                forall|i: int|
                    0 <= i < texts@.len() ==> (#[trigger] texts@[i])@ == id_text(
                        IdModel::Number(sorted@[i]),
                    ),
                forall|i: int, j: int|
                    0 <= i < j < texts@.len() ==> dictionary_le(
                        (#[trigger] texts@[i])@,
                        (#[trigger] texts@[j])@,
                    ),
        {
            let n: i64 = *key;
            let text = chars_of(RequestId::Number(n).to_string().as_str());
            let mut p: usize = sorted.len();
            while p > 0 && !in_dictionary_order(texts[p - 1].as_slice(), text.as_slice())
                invariant
                    p <= texts@.len(),
                    texts@.len() == sorted@.len(),
                    forall|q: int|
                        p <= q < texts@.len() ==> !dictionary_le(
                            (#[trigger] texts@[q])@,
                            text@,
                        ),
                decreases p,
            {
                p -= 1;
            }
            let ghost old_texts = texts@;
            let ghost old_sorted = sorted@;
            sorted.insert(p, n);
            texts.insert(p, text);
            proof {
                lemma_inserted_in_order(old_texts, p as int, text);
                let i = it.index() as int;
                assert(all.take(i + 1) =~= all.take(i).push(&n));
                assert(!all.take(i).contains(&n)) by {
                    if all.take(i).contains(&n) {
                        let k = choose|k: int| 0 <= k < i && all.take(i)[k] == &n;
                        assert(all[k] == all[i]);
                    }
                }
                assert(!old_sorted.contains(n));
                lemma_inserted_members(old_sorted, p as int, n);
                assert forall|m: i64| #[trigger] sorted@.contains(m) <==> all.take(i + 1).contains(
                    &m,
                ) by {
                    assert(old_sorted.contains(m) <==> all.take(i).contains(&m));
                    if all.take(i).contains(&m) {
                        let k = choose|k: int| 0 <= k < i && all.take(i)[k] == &m;
                        assert(all.take(i + 1)[k] == &m);
                    }
                    if m == n {
                        assert(all.take(i + 1)[i] == &m);
                    }
                }
            }
        }
        assert(all.take(all.len() as int) =~= all);
        let mut ids: Vec<RequestId> = Vec::new();
        let n: usize = sorted.len();
        let mut i: usize = 0;
        while i < n
            invariant
                i <= n,
                n == sorted@.len(),
                ids@.len() == i,
                forall|j: int| 0 <= j < i ==> (#[trigger] ids@[j])@ == IdModel::Number(sorted@[j]),
            decreases n - i,
        {
            ids.push(RequestId::Number(sorted[i]));
            i += 1;
        }
        proof {
            let models = id_models(ids@);
            assert forall|i: int| 0 <= i < models.len() implies #[trigger] models[i] is Number
                && self@.pending.contains_key(models[i]->Number_0) by {
                let m = sorted@[i];
                assert(ids@[i]@ == IdModel::Number(m));
                assert(sorted@.contains(m));
                let k = choose|k: int| 0 <= k < all.len() && all[k] == &m;
                assert(all.unref()[k] == m);
                assert(all.unref().to_set().contains(m));
            }
            assert forall|m: i64| #[trigger] self@.pending.contains_key(m) implies models.contains(
                IdModel::Number(m),
            ) by {
                assert(all.unref().to_set().contains(m));
                let k = choose|k: int| 0 <= k < all.unref().len() && all.unref()[k] == m;
                assert(all[k] == &m);
                assert(all.contains(&m));
                assert(sorted@.contains(m));
                let j = choose|j: int| 0 <= j < sorted@.len() && sorted@[j] == m;
                assert(models[j] == ids@[j]@);
            }
            assert forall|i: int, j: int| 0 <= i < j < models.len() implies #[trigger] models[i]
                != #[trigger] models[j] && dictionary_le(
                id_text(models[i]),
                id_text(models[j]),
            ) by {
                assert(models[i] == ids@[i]@ && models[j] == ids@[j]@);
                assert(dictionary_le(texts@[i]@, texts@[j]@));
            }
        }
        ids
    }

    /// How many answers are waited for.
    pub fn pending_request_count(&self) -> (count: usize)
        ensures
            count == self@.pending.len(),
    {
        self.pending_responses.len()
    }
}

impl<W, P: Clone> SessionRuntime<W, P> {
    /// Finds out where a notification goes.
    pub fn forward_notification<V>(&self, notification: OutgoingNotification<V>) -> (route:
        NotificationRoute<P, V>)
        ensures
            route_is(
                route,
                action::<W, P, V, ()>(
                    self@,
                    MessageModel::Notification {
                        method: notification.method@,
                        params: notification.params,
                    },
                ),
            ),
    {
        match &self.peer {
            Some(peer) => NotificationRoute::Forward {
                peer: peer.clone(),
                method: notification.method,
                params: notification.params,
            },
            None => NotificationRoute::NoPeer { method: notification.method },
        }
    }

    /// Takes a message of the server's core and says what to do with it.
    pub fn bridge_outgoing_message<V, E>(&mut self, message: OutgoingMessage<V, E>) -> (r:
        BridgeAction<W, P, V, E>)
        ensures
            action_is(r, action(old(self)@, message@)),
            final(self)@ == bridged(old(self)@, message@),
    {
        match message {
            OutgoingMessage::Response(response) => BridgeAction::Resolve(
                self.resolve_pending_response(response.id, Ok(response.result)),
            ),
            OutgoingMessage::Error(error) => BridgeAction::Resolve(
                self.resolve_pending_response(error.id, Err(error.error)),
            ),
            OutgoingMessage::Notification(notification) => BridgeAction::Notify(
                self.forward_notification(notification),
            ),
            OutgoingMessage::Request(request) => match &self.peer {
                Some(peer) => BridgeAction::ForwardRequest {
                    peer: peer.clone(),
                    id: request.id,
                    method: request.method,
                    params: request.params,
                },
                None => BridgeAction::DropRequest { method: request.method },
            },
        }
    }
}

} // verus!
