//! What holds of whole sessions: of everything that can happen in one, in any
//! order, and of any number of them side by side.
use vstd::prelude::*;

#[allow(unused_imports)]
use crate::number::{digits, lemma_signed_decimal_injective};
#[allow(unused_imports)]
use crate::outgoing_message::{id_text, IdModel, MessageModel, OutgoingMessage, RequestId};
#[allow(unused_imports)]
use crate::session_runtime::{
    action, action_is, awaits, bridged, id_after, id_models, in_text_order, initialized,
    is_listing, new_session, reserved, resolution_is, route_is, ActionModel, BridgeAction,
    NotificationRoute, Resolution, SessionModel,
};
#[allow(unused_imports)]
use crate::text::{dictionary_le, lemma_dictionary_antisymmetric, lemma_dictionary_total};

verus! {

/// What can happen in a session.
pub enum SessionEvent<W, P, V, E> {
    /// Somebody starts to wait for an answer.
    Reserve(W),
    /// A handshake takes place.
    Initialize(P),
    /// The server's core sends a message.
    Message(MessageModel<V, E>),
}

/// How many identifiers there are.
pub open spec fn id_count() -> int {
    0x1_0000_0000_0000_0000
}

/// The identifier that counting up from zero reaches after `n` steps.
pub open spec fn nth_id(n: int) -> i64 {
    ((n + 0x8000_0000_0000_0000) % id_count() - 0x8000_0000_0000_0000) as i64
}

/// How many reservations there are from `next` on before `id` comes up.
pub open spec fn steps_until(next: i64, id: i64) -> int {
    (id - next) % id_count()
}

/// The session after one event.
pub open spec fn step<W, P, V, E>(
    s: SessionModel<W, P>,
    event: SessionEvent<W, P, V, E>,
) -> SessionModel<W, P> {
    match event {
        SessionEvent::Reserve(waiter) => reserved(s, waiter),
        SessionEvent::Initialize(peer) => initialized(s, peer),
        SessionEvent::Message(message) => bridged(s, message),
    }
}

/// The session after some events.
pub open spec fn run<W, P, V, E>(
    s: SessionModel<W, P>,
    events: Seq<SessionEvent<W, P, V, E>>,
) -> SessionModel<W, P>
    decreases events.len(),
{
    if events.len() == 0 {
        s
    } else {
        step(run(s, events.drop_last()), events.last())
    }
}

/// How many identifiers some events hand out.
pub open spec fn reservations<W, P, V, E>(events: Seq<SessionEvent<W, P, V, E>>) -> int
    decreases events.len(),
{
    if events.len() == 0 {
        0
    } else {
        reservations(events.drop_last()) + if events.last() is Reserve {
            1int
        } else {
            0
        }
    }
}

/// The connection of the last handshake, if there was one.
pub open spec fn last_peer<W, P, V, E>(events: Seq<SessionEvent<W, P, V, E>>) -> Option<P>
    decreases events.len(),
{
    if events.len() == 0 {
        None
    } else {
        match events.last() {
            SessionEvent::Initialize(peer) => Some(peer),
            _ => last_peer(events.drop_last()),
        }
    }
}

/// Whether an event is an answer to the request with this identifier.
pub open spec fn answers<W, P, V, E>(event: SessionEvent<W, P, V, E>, id: i64) -> bool {
    match event {
        SessionEvent::Message(MessageModel::Answer { id: other, .. }) => other == IdModel::Number(
            id,
        ),
        _ => false,
    }
}

/// Whether one of some events is an answer to the request with this
/// identifier.
pub open spec fn answered_in<W, P, V, E>(events: Seq<SessionEvent<W, P, V, E>>, id: i64) -> bool {
    exists|i: int| 0 <= i < events.len() && answers(#[trigger] events[i], id)
}

/// An answer with this identifier and outcome.
pub open spec fn answer<V, E>(id: i64, outcome: Result<V, E>) -> MessageModel<V, E> {
    MessageModel::Answer { id: IdModel::Number(id), outcome }
}

proof fn lemma_nth_id(n: int)
    ensures
        id_after(nth_id(n)) == nth_id(n + 1),
{
}

proof fn lemma_run_counts<W, P, V, E>(
    s: SessionModel<W, P>,
    n: int,
    events: Seq<SessionEvent<W, P, V, E>>,
)
    requires
        s.next_id == nth_id(n),
    ensures
        run(s, events).next_id == nth_id(n + reservations(events)),
        0 <= reservations(events) <= events.len(),
    decreases events.len(),
{
    if events.len() > 0 {
        lemma_run_counts(s, n, events.drop_last());
        lemma_nth_id(n + reservations(events.drop_last()));
    }
}

/// Identifiers count up from zero in every session: after `n` reservations,
/// whatever else has happened, the next one gets identifier `n`.
pub proof fn identifiers_count_up_from_zero<W, P, V, E>(events: Seq<SessionEvent<W, P, V, E>>)
    requires
        reservations(events) <= i64::MAX,
    ensures
        run(new_session::<W, P>(), events).next_id == reservations(events),
{
    lemma_run_counts(new_session::<W, P>(), 0, events);
}

/// Every identifier that is waited for was handed out before, so a new
/// reservation never takes the place of one that still waits, until every
/// identifier has been handed out.
pub proof fn reservations_do_not_collide<W, P, V, E>(events: Seq<SessionEvent<W, P, V, E>>)
    requires
        reservations(events) < id_count(),
    ensures
        forall|id: i64| #[trigger]
            run(new_session::<W, P>(), events).pending.contains_key(id) ==> steps_until(0, id)
                < reservations(events),
        !run(new_session::<W, P>(), events).pending.contains_key(
            run(new_session::<W, P>(), events).next_id,
        ),
    decreases events.len(),
{
    let s = run(new_session::<W, P>(), events);
    lemma_run_counts(new_session::<W, P>(), 0, events);
    if events.len() > 0 {
        let before = events.drop_last();
        lemma_run_counts(new_session::<W, P>(), 0, before);
        reservations_do_not_collide(before);
        let t = run(new_session::<W, P>(), before);
        assert forall|id: i64| #[trigger] s.pending.contains_key(id) implies steps_until(0, id)
            < reservations(events) by {
            assert(t.pending.contains_key(id) || (events.last() is Reserve && id == t.next_id));
        }
    }
    assert(steps_until(0, s.next_id) == reservations(events));
}

proof fn lemma_still_waiting<W, P, V, E>(
    s: SessionModel<W, P>,
    id: i64,
    waiter: W,
    n: int,
    events: Seq<SessionEvent<W, P, V, E>>,
)
    requires
        id == nth_id(n),
        s.next_id == nth_id(n + 1),
        s.pending.contains_key(id),
        s.pending[id] == waiter,
        !answered_in(events, id),
        reservations(events) < id_count(),
    ensures
        run(s, events).pending.contains_key(id),
        run(s, events).pending[id] == waiter,
    decreases events.len(),
{
    if events.len() > 0 {
        let before = events.drop_last();
        assert(!answered_in(before, id)) by {
            if answered_in(before, id) {
                let i = choose|i: int| 0 <= i < before.len() && answers(#[trigger] before[i], id);
                assert(answers(events[i], id));
            }
        }
        assert(!answers(events[events.len() - 1], id));
        lemma_still_waiting(s, id, waiter, n, before);
        lemma_run_counts(s, n + 1, before);
        assert(events.last() is Reserve ==> nth_id(n + 1 + reservations(before)) != id);
    }
}

proof fn lemma_no_longer_waiting<W, P, V, E>(
    s: SessionModel<W, P>,
    id: i64,
    events: Seq<SessionEvent<W, P, V, E>>,
)
    requires
        !s.pending.contains_key(id),
        reservations(events) <= steps_until(s.next_id, id),
    ensures
        !run(s, events).pending.contains_key(id),
    decreases events.len(),
{
    if events.len() > 0 {
        let before = events.drop_last();
        let n = s.next_id as int;
        lemma_no_longer_waiting(s, id, before);
        lemma_run_counts(s, n, before);
        assert(events.last() is Reserve ==> nth_id(n + reservations(before)) != id);
    }
}

/// An answer reaches the one who waits for it: whoever reserved an identifier
/// is handed the first answer to it and its outcome, a result or an error,
/// whatever happens in between. Then the wait is over. (It takes as many
/// further reservations as there are identifiers for one to come up again.)
pub proof fn an_answer_reaches_its_waiter<W, P, V, E>(
    s: SessionModel<W, P>,
    waiter: W,
    between: Seq<SessionEvent<W, P, V, E>>,
    outcome: Result<V, E>,
)
    requires
        !answered_in(between, s.next_id),
        reservations(between) < id_count(),
    ensures
        action(run(reserved(s, waiter), between), answer(s.next_id, outcome)) == (ActionModel::<
            W,
            P,
            V,
            E,
        >::Deliver { waiter, id: IdModel::Number(s.next_id), response: outcome }),
        !awaits(
            bridged(run(reserved(s, waiter), between), answer(s.next_id, outcome)),
            IdModel::Number(s.next_id),
        ),
{
    let n = s.next_id as int;
    assert(nth_id(n) == s.next_id);
    lemma_nth_id(n);
    lemma_still_waiting(reserved(s, waiter), s.next_id, waiter, n, between);
}

/// Nobody is answered twice: after an answer, in whatever state of the
/// session it came, a further one to the same identifier is dropped, whatever
/// happens in between, until the identifier is handed out again.
pub proof fn nobody_is_answered_twice<W, P, V, E>(
    s: SessionModel<W, P>,
    id: i64,
    first: Result<V, E>,
    between: Seq<SessionEvent<W, P, V, E>>,
    second: Result<V, E>,
)
    requires
        reservations(between) <= steps_until(s.next_id, id),
    ensures
        action(run(bridged(s, answer(id, first)), between), answer(id, second)) == (ActionModel::<
            W,
            P,
            V,
            E,
        >::Unknown { id: IdModel::Number(id) }),
{
    lemma_no_longer_waiting(bridged(s, answer(id, first)), id, between);
}

/// A message disturbs no wait but the one it ends: after any message, whoever
/// waits for another identifier waits as before.
pub proof fn a_message_disturbs_no_other_wait<W, P, V, E>(
    s: SessionModel<W, P>,
    message: MessageModel<V, E>,
    id: i64,
)
    requires
        !answers(SessionEvent::<W, P, V, E>::Message(message), id),
    ensures
        bridged(s, message).pending.contains_key(id) <==> s.pending.contains_key(id),
        s.pending.contains_key(id) ==> bridged(s, message).pending[id] == s.pending[id],
        bridged(s, message).next_id == s.next_id,
        bridged(s, message).peer == s.peer,
{
}

/// An answer that nobody waits for, such as any to an identifier that is no
/// number, is dropped and changes nothing.
pub proof fn an_unexpected_answer_changes_nothing<W, P, V, E>(
    s: SessionModel<W, P>,
    id: IdModel,
    outcome: Result<V, E>,
)
    requires
        !awaits(s, id),
    ensures
        action(s, MessageModel::<V, E>::Answer { id, outcome }) == (ActionModel::<
            W,
            P,
            V,
            E,
        >::Unknown { id }),
        bridged(s, MessageModel::<V, E>::Answer { id, outcome }) == s,
{
}

/// A notification goes to the connection of the last handshake, with its
/// method and parameters as they are, and is dropped before the first.
pub proof fn notifications_follow_the_last_handshake<W, P, V, E>(
    events: Seq<SessionEvent<W, P, V, E>>,
    method: Seq<char>,
    params: Option<V>,
)
    ensures
        action(
            run(new_session::<W, P>(), events),
            MessageModel::<V, E>::Notification { method, params },
        ) == match last_peer(events) {
            Some(peer) => ActionModel::<W, P, V, E>::Forward { peer, method, params },
            None => ActionModel::<W, P, V, E>::NoPeer { method },
        },
    decreases events.len(),
{
    if events.len() > 0 {
        notifications_follow_the_last_handshake(events.drop_last(), method, params);
    }
}

/// A request to the client goes to the connection of the last handshake, with
/// its identifier, method and parameters as they are, and is dropped before
/// the first.
pub proof fn requests_follow_the_last_handshake<W, P, V, E>(
    events: Seq<SessionEvent<W, P, V, E>>,
    id: IdModel,
    method: Seq<char>,
    params: Option<V>,
)
    ensures
        action(
            run(new_session::<W, P>(), events),
            MessageModel::<V, E>::Request { id, method, params },
        ) == match last_peer(events) {
            Some(peer) => ActionModel::<W, P, V, E>::ForwardRequest { peer, id, method, params },
            None => ActionModel::<W, P, V, E>::DropRequest { method },
        },
    decreases events.len(),
{
    if events.len() > 0 {
        requests_follow_the_last_handshake(events.drop_last(), id, method, params);
    }
}

/// Notifications and requests to the client leave the session as it is: who
/// waits for an answer goes on waiting. Neither is taken for an answer.
pub proof fn only_answers_change_the_session<W, P, V, E>(
    s: SessionModel<W, P>,
    message: MessageModel<V, E>,
)
    requires
        !(message is Answer),
    ensures
        bridged(s, message) == s,
        !(action(s, message) is Deliver) && !(action(s, message) is Unknown),
        message matches MessageModel::Request { id, method, params } ==> action(s, message)
            == match s.peer {
            Some(peer) => ActionModel::<W, P, V, E>::ForwardRequest { peer, id, method, params },
            None => ActionModel::<W, P, V, E>::DropRequest { method },
        },
{
}

/// Sessions by number, each event marked with the session it happens in.
pub open spec fn run_side_by_side<W, P, V, E>(
    sessions: Map<int, SessionModel<W, P>>,
    events: Seq<(int, SessionEvent<W, P, V, E>)>,
) -> Map<int, SessionModel<W, P>>
    decreases events.len(),
{
    if events.len() == 0 {
        sessions
    } else {
        let before = run_side_by_side(sessions, events.drop_last());
        let (k, event) = events.last();
        before.insert(k, step(before[k], event))
    }
}

/// The events of one session.
pub open spec fn events_of<W, P, V, E>(
    events: Seq<(int, SessionEvent<W, P, V, E>)>,
    k: int,
) -> Seq<SessionEvent<W, P, V, E>>
    decreases events.len(),
{
    if events.len() == 0 {
        seq![]
    } else if events.last().0 == k {
        events_of(events.drop_last(), k).push(events.last().1)
    } else {
        events_of(events.drop_last(), k)
    }
}

/// Sessions are isolated: however their events interleave, each ends up where
/// its own events alone take it.
pub proof fn sessions_are_isolated<W, P, V, E>(
    sessions: Map<int, SessionModel<W, P>>,
    events: Seq<(int, SessionEvent<W, P, V, E>)>,
    k: int,
)
    ensures
        run_side_by_side(sessions, events)[k] == run(sessions[k], events_of(events, k)),
    decreases events.len(),
{
    if events.len() > 0 {
        let before = events.drop_last();
        sessions_are_isolated(sessions, before, k);
        if events.last().0 == k {
            let own = events_of(events, k);
            assert(own.drop_last() =~= events_of(before, k));
        }
    }
}

/// There is one way to list the identifiers that are waited for in order.
pub proof fn a_listing_is_unique<W>(a: Seq<IdModel>, b: Seq<IdModel>, pending: Map<i64, W>)
    requires
        is_listing(a, pending),
        is_listing(b, pending),
    ensures
        a == b,
{
    assert forall|id: IdModel| #[trigger] a.contains(id) <==> b.contains(id) by {
        if a.contains(id) {
            let i = choose|i: int| 0 <= i < a.len() && a[i] == id;
            assert(pending.contains_key(a[i]->Number_0));
        }
        if b.contains(id) {
            let i = choose|i: int| 0 <= i < b.len() && b[i] == id;
            assert(pending.contains_key(b[i]->Number_0));
        }
    }
    lemma_ordered_unique(a, b);
}

/// The listing names as many identifiers as are waited for.
pub proof fn a_listing_is_complete<W>(ids: Seq<IdModel>, pending: Map<i64, W>)
    requires
        is_listing(ids, pending),
    ensures
        ids.len() == pending.len(),
{
    let numbers = ids.map_values(|id: IdModel| id->Number_0);
    assert forall|i: int, j: int|
        0 <= i < numbers.len() && 0 <= j < numbers.len() && i != j implies numbers[i]
        != numbers[j] by {
        assert(ids[i] is Number && ids[j] is Number);
        assert(ids[if i < j { i } else { j }] != ids[if i < j { j } else { i }]);
    }
    assert forall|n: i64| numbers.to_set().contains(n) <==> pending.dom().contains(n) by {
        if numbers.contains(n) {
            let i = choose|i: int| 0 <= i < numbers.len() && numbers[i] == n;
            assert(ids[i] is Number);
        }
        if pending.contains_key(n) {
            let i = choose|i: int| 0 <= i < ids.len() && ids[i] == IdModel::Number(n);
            assert(numbers[i] == n);
        }
    }
    assert(numbers.to_set() =~= pending.dom());
    numbers.unique_seq_to_set();
}

proof fn lemma_ordered_unique(a: Seq<IdModel>, b: Seq<IdModel>)
    requires
        in_text_order(a),
        in_text_order(b),
        forall|i: int| 0 <= i < a.len() ==> #[trigger] a[i] is Number,
        forall|i: int| 0 <= i < b.len() ==> #[trigger] b[i] is Number,
        forall|id: IdModel| #[trigger] a.contains(id) <==> b.contains(id),
    ensures
        a == b,
    decreases a.len(),
{
    if a.len() == 0 {
        if b.len() > 0 {
            assert(b.contains(b[0]));
            assert(a.contains(b[0]));
        }
        assert(a =~= b);
    } else {
        assert(a.contains(a[0]));
        let i = choose|i: int| 0 <= i < b.len() && b[i] == a[0];
        assert(b.contains(b[0]));
        assert(a.contains(b[0]));
        let j = choose|j: int| 0 <= j < a.len() && a[j] == b[0];
        if i > 0 && j > 0 {
            assert(b[0] != b[i]);
            assert(a[0] != a[j]);
            lemma_dictionary_antisymmetric(id_text(a[0]), id_text(b[0]));
            lemma_signed_decimal_injective(a[0]->Number_0 as int, b[0]->Number_0 as int);
        }
        assert(a[0] == b[0]);
        let s = a.skip(1);
        let t = b.skip(1);
        assert forall|k: int, l: int| 0 <= k < l < s.len() implies #[trigger] s[k]
            != #[trigger] s[l] && dictionary_le(id_text(s[k]), id_text(s[l])) by {
            assert(a[k + 1] != a[l + 1]);
        }
        assert forall|k: int, l: int| 0 <= k < l < t.len() implies #[trigger] t[k]
            != #[trigger] t[l] && dictionary_le(id_text(t[k]), id_text(t[l])) by {
            assert(b[k + 1] != b[l + 1]);
        }
        assert forall|k: int| 0 <= k < s.len() implies #[trigger] s[k] is Number by {
            assert(a[k + 1] is Number);
        }
        assert forall|k: int| 0 <= k < t.len() implies #[trigger] t[k] is Number by {
            assert(b[k + 1] is Number);
        }
        assert forall|id: IdModel| #[trigger] s.contains(id) <==> t.contains(id) by {
            if s.contains(id) {
                let k = choose|k: int| 0 <= k < s.len() && s[k] == id;
                assert(a[0] != a[k + 1]);
                assert(a.contains(a[k + 1]));
                let l = choose|l: int| 0 <= l < b.len() && b[l] == id;
                assert(t[l - 1] == id);
            }
            if t.contains(id) {
                let k = choose|k: int| 0 <= k < t.len() && t[k] == id;
                assert(b[0] != b[k + 1]);
                assert(b.contains(b[k + 1]));
                assert(a.contains(id));
                let l = choose|l: int| 0 <= l < a.len() && a[l] == id;
                assert(s[l - 1] == id);
            }
        }
        lemma_ordered_unique(s, t);
        assert(a =~= seq![a[0]] + s);
        assert(b =~= seq![b[0]] + t);
    }
}

/// A new session waits for nobody, knows no client, and starts at zero.
pub proof fn a_new_session_is_empty<W, P>(id: i64)
    ensures
        new_session::<W, P>().next_id == 0,
        !new_session::<W, P>().pending.contains_key(id),
        new_session::<W, P>().peer is None,
{
}

/// Each identifier is one more than the one before it, counted around the
/// circle of all of them, so that no two come before the same.
pub proof fn identifiers_go_around_in_a_circle(n: i64, m: i64)
    ensures
        (id_after(n) - n - 1) % 0x1_0000_0000_0000_0000 == 0,
        id_after(n) == id_after(m) ==> n == m,
        n < i64::MAX ==> id_after(n) > n,
{
}

/// A reservation adds one wait, under the next identifier, and moves on to
/// another identifier. Every other wait and the client stay as they are.
pub proof fn a_reservation_adds_one_wait<W, P>(s: SessionModel<W, P>, waiter: W, id: i64)
    ensures
        reserved(s, waiter).pending.contains_key(s.next_id),
        reserved(s, waiter).pending[s.next_id] == waiter,
        id != s.next_id ==> {
            &&& reserved(s, waiter).pending.contains_key(id) <==> s.pending.contains_key(id)
            &&& s.pending.contains_key(id) ==> reserved(s, waiter).pending[id] == s.pending[id]
        },
        (reserved(s, waiter).next_id - s.next_id - 1) % 0x1_0000_0000_0000_0000 == 0,
        reserved(s, waiter).peer == s.peer,
{
}

/// A handshake makes its client the session's and changes nothing else.
pub proof fn a_handshake_sets_the_client<W, P>(s: SessionModel<W, P>, peer: P)
    ensures
        initialized(s, peer).peer == Some(peer),
        initialized(s, peer).pending == s.pending,
        initialized(s, peer).next_id == s.next_id,
{
}

/// An answer is delivered to the one who waits under its identifier, with the
/// identifier and the outcome as they came, where somebody does. Otherwise, and
/// always where the identifier is a text, it is dropped.
pub proof fn answers_go_to_whoever_waits<W, P, V, E>(
    s: SessionModel<W, P>,
    n: i64,
    text: Seq<char>,
    outcome: Result<V, E>,
)
    ensures
        s.pending.contains_key(n) ==> action(
            s,
            MessageModel::Answer { id: IdModel::Number(n), outcome },
        ) == (ActionModel::<W, P, V, E>::Deliver {
            waiter: s.pending[n],
            id: IdModel::Number(n),
            response: outcome,
        }),
        !s.pending.contains_key(n) ==> action(
            s,
            MessageModel::Answer { id: IdModel::Number(n), outcome },
        ) == (ActionModel::<W, P, V, E>::Unknown { id: IdModel::Number(n) }),
        action(s, MessageModel::Answer { id: IdModel::Text(text), outcome }) == (ActionModel::<
            W,
            P,
            V,
            E,
        >::Unknown { id: IdModel::Text(text) }),
{
}

/// An answer ends the wait under its identifier and touches no other, nor the
/// client, nor the identifiers to come. One whose identifier is a text touches
/// nothing.
pub proof fn an_answer_ends_one_wait<W, P, V, E>(
    s: SessionModel<W, P>,
    n: i64,
    id: i64,
    text: Seq<char>,
    outcome: Result<V, E>,
)
    ensures
        ({
            let t = bridged(s, MessageModel::Answer { id: IdModel::Number(n), outcome });
            &&& !t.pending.contains_key(n)
            &&& id != n ==> (t.pending.contains_key(id) <==> s.pending.contains_key(id))
            &&& id != n && s.pending.contains_key(id) ==> t.pending[id] == s.pending[id]
            &&& t.next_id == s.next_id
            &&& t.peer == s.peer
        }),
        bridged(s, MessageModel::Answer { id: IdModel::Text(text), outcome }) == s,
{
}

/// Notifications and requests go to the client where there is one and are
/// dropped where there is none. Neither changes the session.
pub proof fn the_client_gets_what_is_meant_for_it<W, P, V, E>(
    s: SessionModel<W, P>,
    peer: P,
    id: IdModel,
    method: Seq<char>,
    params: Option<V>,
)
    ensures
        s.peer == Some(peer) ==> {
            &&& action(s, MessageModel::<V, E>::Notification { method, params }) == (ActionModel::<
                W,
                P,
                V,
                E,
            >::Forward { peer, method, params })
            &&& action(s, MessageModel::<V, E>::Request { id, method, params }) == (ActionModel::<
                W,
                P,
                V,
                E,
            >::ForwardRequest { peer, id, method, params })
        },
        s.peer is None ==> {
            &&& action(s, MessageModel::<V, E>::Notification { method, params }) == (ActionModel::<
                W,
                P,
                V,
                E,
            >::NoPeer { method })
            &&& action(s, MessageModel::<V, E>::Request { id, method, params }) == (ActionModel::<
                W,
                P,
                V,
                E,
            >::DropRequest { method })
        },
        bridged(s, MessageModel::<V, E>::Notification { method, params }) == s,
        bridged(s, MessageModel::<V, E>::Request { id, method, params }) == s,
{
}

/// An action that is to be taken is taken with all its parts: who is meant,
/// under which identifier, and what is passed on.
pub proof fn actions_are_taken_as_they_are<W, P: Clone, V, E>(
    r: BridgeAction<W, P, V, E>,
    a: ActionModel<W, P, V, E>,
)
    ensures
        action_is(r, a) <==> match a {
            ActionModel::Deliver { waiter, id, response } => {
                &&& r is Resolve
                &&& r->Resolve_0 is Deliver
                &&& r->Resolve_0->waiter == waiter
                &&& r->Resolve_0->Deliver_id@ == id
                &&& r->Resolve_0->response == response
            },
            ActionModel::Unknown { id } => {
                &&& r is Resolve
                &&& r->Resolve_0 is Unknown
                &&& r->Resolve_0->Unknown_id@ == id
            },
            ActionModel::Forward { peer, method, params } => {
                &&& r is Notify
                &&& r->Notify_0 is Forward
                &&& cloned(peer, r->Notify_0->peer)
                &&& r->Notify_0->Forward_method@ == method
                &&& r->Notify_0->params == params
            },
            ActionModel::NoPeer { method } => {
                &&& r is Notify
                &&& r->Notify_0 is NoPeer
                &&& r->Notify_0->NoPeer_method@ == method
            },
            ActionModel::ForwardRequest { peer, id, method, params } => {
                &&& r is ForwardRequest
                &&& cloned(peer, r->peer)
                &&& r->id@ == id
                &&& r->ForwardRequest_method@ == method
                &&& r->params == params
            },
            ActionModel::DropRequest { method } => {
                &&& r is DropRequest
                &&& r->DropRequest_method@ == method
            },
        },
{
}

/// The parts of an action are taken as those of the whole.
pub proof fn parts_of_actions_are_taken_as_they_are<W, P: Clone, V, E>(
    resolution: Resolution<W, V, E>,
    route: NotificationRoute<P, V>,
    a: ActionModel<W, P, V, E>,
)
    ensures
        resolution_is(resolution, a) <==> action_is(BridgeAction::Resolve(resolution), a),
        route_is(route, a) <==> action_is(BridgeAction::<W, P, V, E>::Notify(route), a),
{
}

/// A message is seen with all its parts, and so is an identifier.
pub proof fn nothing_is_hidden_of_a_message<V, E>(
    message: OutgoingMessage<V, E>,
    id: RequestId,
)
    ensures
        id matches RequestId::Number(n) ==> id@ == IdModel::Number(n),
        id matches RequestId::String(s) ==> id@ == IdModel::Text(s@),
        message matches OutgoingMessage::Response(m) ==> message@ == (MessageModel::<V, E>::Answer {
            id: m.id@,
            outcome: Ok(m.result),
        }),
        message matches OutgoingMessage::Error(m) ==> message@ == (MessageModel::<V, E>::Answer {
            id: m.id@,
            outcome: Err(m.error),
        }),
        message matches OutgoingMessage::Notification(m) ==> message@ == (MessageModel::<
            V,
            E,
        >::Notification { method: m.method@, params: m.params }),
        message matches OutgoingMessage::Request(m) ==> message@ == (MessageModel::<V, E>::Request {
            id: m.id@,
            method: m.method@,
            params: m.params,
        }),
{
}

/// A listing holds an identifier if and only if it is waited for, holds none
/// twice, and is in the order of the identifiers' texts: of two, the one whose
/// text comes first stands first.
pub proof fn listings_are_these<W>(ids: Seq<IdModel>, pending: Map<i64, W>)
    ensures
        is_listing(ids, pending) <==> {
            &&& forall|id: IdModel| #[trigger]
                ids.contains(id) <==> (id is Number && pending.contains_key(id->Number_0))
            &&& forall|i: int, j: int|
                0 <= i < j < ids.len() ==> #[trigger] ids[i] != #[trigger] ids[j]
                    && !dictionary_le(id_text(ids[j]), id_text(ids[i]))
        },
{
    if is_listing(ids, pending) {
        assert forall|id: IdModel| #[trigger] ids.contains(id) implies id is Number
            && pending.contains_key(id->Number_0) by {
            let i = choose|i: int| 0 <= i < ids.len() && ids[i] == id;
            assert(ids[i] is Number);
        }
        assert forall|id: IdModel| id is Number && pending.contains_key(id->Number_0) implies
            #[trigger] ids.contains(id) by {
            assert(id == IdModel::Number(id->Number_0));
        }
        assert forall|i: int, j: int| 0 <= i < j < ids.len() implies #[trigger] ids[i]
            != #[trigger] ids[j] && !dictionary_le(id_text(ids[j]), id_text(ids[i])) by {
            if dictionary_le(id_text(ids[j]), id_text(ids[i])) {
                lemma_dictionary_antisymmetric(id_text(ids[i]), id_text(ids[j]));
                lemma_signed_decimal_injective(ids[i]->Number_0 as int, ids[j]->Number_0 as int);
            }
        }
    }
    if (forall|id: IdModel| #[trigger]
        ids.contains(id) <==> (id is Number && pending.contains_key(id->Number_0))) && (forall|
        i: int,
        j: int,
    |
        0 <= i < j < ids.len() ==> #[trigger] ids[i] != #[trigger] ids[j] && !dictionary_le(
            id_text(ids[j]),
            id_text(ids[i]),
        )) {
        assert forall|i: int, j: int| 0 <= i < j < ids.len() implies #[trigger] ids[i]
            != #[trigger] ids[j] && dictionary_le(id_text(ids[i]), id_text(ids[j])) by {
            lemma_dictionary_total(id_text(ids[i]), id_text(ids[j]));
        }
        assert forall|i: int| 0 <= i < ids.len() implies #[trigger] ids[i] is Number
            && pending.contains_key(ids[i]->Number_0) by {
            assert(ids.contains(ids[i]));
        }
    }
}

/// An identifier is written as its number in decimal or as its text.
pub proof fn identifiers_are_written_as_they_are(n: i64, text: Seq<char>)
    ensures
        id_text(IdModel::Text(text)) == text,
        id_text(IdModel::Number(n)) == if n < 0 {
            seq!['-'] + digits(-n as nat, 10)
        } else {
            digits(n as nat, 10)
        },
{
}

/// Identifiers are seen one by one.
pub proof fn nothing_is_hidden_of_a_listing(ids: Seq<RequestId>, i: int)
    ensures
        id_models(ids).len() == ids.len(),
        0 <= i < ids.len() ==> id_models(ids)[i] == ids[i]@,
{
}

} // verus!
