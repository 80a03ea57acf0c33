//! The grabs that the daemon holds on the display, as a ledger that follows
//! its requests.

use crate::cfgfile::BindingView;
use crate::daemon::{
    asks_next, enter_requests, init_keys, leave_requests, lemma_next_key_list, next_keys,
    next_state, requests_of_run, resolve, seen_after, start_requests, state_after, step_requests,
    DaemonStateView, RequestView, Resolution,
};
use crate::keyseq::Key;
use vstd::multiset::Multiset;
use vstd::prelude::*;

verus! {

/// The grabs held at some moment.
pub struct Grabs {
    /// The keys grabbed one by one, each as often as it is held.
    pub keys: Multiset<Key>,
    /// How many grabs of the whole keyboard are held.
    pub keyboard: nat,
}

/// No grab at all: what a fresh connection holds.
pub open spec fn no_grabs() -> Grabs {
    Grabs { keys: Multiset::empty(), keyboard: 0 }
}

/// Whether `request` may be made while `held` is held: a grab of one kind
/// only while none of the other kind is held, and a release only of what is held.
pub open spec fn permitted(held: Grabs, request: RequestView) -> bool {
    match request {
        RequestView::GrabKeys(_) => held.keyboard == 0,
        RequestView::UngrabKeys(keys) => keys.to_multiset().subset_of(held.keys),
        RequestView::GrabKeyboard => held.keyboard == 0 && held.keys.len() == 0,
        RequestView::UngrabKeyboard => held.keyboard >= 1,
        RequestView::Spawn(_) => true,
    }
}

/// The grabs held once `request` has been carried out.
pub open spec fn grant(held: Grabs, request: RequestView) -> Grabs {
    match request {
        RequestView::GrabKeys(keys) => Grabs { keys: held.keys.add(keys.to_multiset()), ..held },
        RequestView::UngrabKeys(keys) => Grabs { keys: held.keys.sub(keys.to_multiset()), ..held },
        RequestView::GrabKeyboard => Grabs { keyboard: held.keyboard + 1, ..held },
        RequestView::UngrabKeyboard => Grabs { keyboard: (held.keyboard - 1) as nat, ..held },
        RequestView::Spawn(_) => held,
    }
}

/// The grabs held once `requests` have been carried out in order: every
/// grab made so far less every release made so far.
pub open spec fn held_after(held: Grabs, requests: Seq<RequestView>) -> Grabs
    decreases requests.len(),
{
    if requests.len() == 0 {
        held
    } else {
        grant(held_after(held, requests.drop_last()), requests.last())
    }
}

/// Whether each of `requests` is permitted at the moment it is made.
pub open spec fn all_permitted(held: Grabs, requests: Seq<RequestView>) -> bool
    decreases requests.len(),
{
    requests.len() == 0 || (all_permitted(held, requests.drop_last()) && permitted(
        held_after(held, requests.drop_last()),
        requests.last(),
    ))
}

/// The grabs that belong to a state: the first keys of all bindings while
/// idle, the whole keyboard while listening.
pub open spec fn grabs_of(table: Seq<BindingView>, state: DaemonStateView) -> Grabs {
    match state {
        DaemonStateView::Idle => Grabs { keys: init_keys(table).to_multiset(), keyboard: 0 },
        DaemonStateView::Listening(_) => Grabs { keys: Multiset::empty(), keyboard: 1 },
    }
}

/// Exactly one kind of grab is held: keys or the keyboard, not both, not neither.
pub open spec fn one_kind_held(held: Grabs) -> bool {
    (held.keyboard == 0 && held.keys.len() > 0) || (held.keyboard == 1 && held.keys.len() == 0)
}

/// One more request is granted on top of the grabs held after the others.
proof fn lemma_held_after_push(held: Grabs, requests: Seq<RequestView>, request: RequestView)
    ensures
        held_after(held, requests.push(request)) == grant(held_after(held, requests), request),
        all_permitted(held, requests.push(request)) == (all_permitted(held, requests) && permitted(
            held_after(held, requests),
            request,
        )),
{
    assert(requests.push(request).drop_last() =~= requests);
}

/// Carrying out two lists of requests one after the other is carrying out
/// their concatenation.
pub proof fn lemma_held_after_concat(held: Grabs, first: Seq<RequestView>, second: Seq<RequestView>)
    ensures
        held_after(held, first + second) == held_after(held_after(held, first), second),
        all_permitted(held, first + second) == (all_permitted(held, first) && all_permitted(
            held_after(held, first),
            second,
        )),
    decreases second.len(),
{
    if second.len() == 0 {
        assert(first + second =~= first);
    } else {
        lemma_held_after_concat(held, first, second.drop_last());
        assert((first + second).drop_last() =~= first + second.drop_last());
        assert((first + second).last() == second.last());
    }
}

/// The ledger of grabs follows the state machine: if the grabs held are
/// those of `state`, then every request of the step that `key` causes is
/// permitted when it is made, a grab of one kind never meets a held grab of
/// the other, and once all are carried out the grabs held are exactly those
/// of the next state.
pub proof fn lemma_step_keeps_grabs(table: Seq<BindingView>, state: DaemonStateView, key: Key)
    ensures
        all_permitted(grabs_of(table, state), step_requests(table, state, key)),
        held_after(grabs_of(table, state), step_requests(table, state, key)) == grabs_of(
            table,
            next_state(table, state, key),
        ),
{
    let held = grabs_of(table, state);
    let enter = enter_requests(table, state);
    let outcome = resolve(table, seen_after(state, key), table.len());
    let leave = leave_requests(table, outcome);
    let keys = init_keys(table);
    let listening = Grabs { keys: Multiset::empty(), keyboard: 1 };
    let idle = Grabs { keys: keys.to_multiset(), keyboard: 0 };
    let nothing = Seq::<RequestView>::empty();

    assert(all_permitted(held, enter) && held_after(held, enter) == listening) by {
        match state {
            DaemonStateView::Idle => {
                let r0 = RequestView::UngrabKeys(keys);
                lemma_held_after_push(held, nothing, r0);
                lemma_held_after_push(held, nothing.push(r0), RequestView::GrabKeyboard);
                assert(held.keys.sub(keys.to_multiset()) =~= Multiset::empty());
            },
            DaemonStateView::Listening(_) => {},
        }
    }
    assert(all_permitted(listening, leave) && held_after(listening, leave) == grabs_of(
        table,
        next_state(table, state, key),
    )) by {
        assert(Multiset::<Key>::empty().add(keys.to_multiset()) =~= keys.to_multiset());
        match outcome {
            Resolution::Listen(_) => {},
            Resolution::Spawn(i) => {
                let r0 = RequestView::UngrabKeyboard;
                let r1 = RequestView::Spawn(i);
                let r2 = RequestView::GrabKeys(keys);
                lemma_held_after_push(listening, nothing, r0);
                lemma_held_after_push(listening, nothing.push(r0), r1);
                lemma_held_after_push(listening, nothing.push(r0).push(r1), r2);
            },
            Resolution::Drop => {
                let r0 = RequestView::UngrabKeyboard;
                let r1 = RequestView::GrabKeys(keys);
                lemma_held_after_push(listening, nothing, r0);
                lemma_held_after_push(listening, nothing.push(r0), r1);
            },
        }
    }
    lemma_held_after_concat(held, enter, leave);
}

/// The request that the daemon starts with takes a fresh connection to the
/// grabs of the idle state.
pub proof fn lemma_start_grabs(table: Seq<BindingView>)
    ensures
        all_permitted(no_grabs(), start_requests(table)),
        held_after(no_grabs(), start_requests(table)) == grabs_of(table, DaemonStateView::Idle),
{
    let keys = init_keys(table);
    lemma_held_after_push(no_grabs(), Seq::empty(), RequestView::GrabKeys(keys));
    assert(Multiset::<Key>::empty().add(keys.to_multiset()) =~= keys.to_multiset());
}

/// Across any run the grabs held are all the grabs made less all the
/// releases made, every request is permitted when it is made, and what is
/// held after any number of key presses is exactly the grabs of the state
/// that the daemon is then in.
pub proof fn lemma_run_keeps_grabs(table: Seq<BindingView>, presses: Seq<Key>)
    ensures
        all_permitted(no_grabs(), requests_of_run(table, presses)),
        held_after(no_grabs(), requests_of_run(table, presses)) == grabs_of(
            table,
            state_after(table, presses),
        ),
    decreases presses.len(),
{
    if presses.len() == 0 {
        lemma_start_grabs(table);
    } else {
        let before = presses.drop_last();
        lemma_run_keeps_grabs(table, before);
        lemma_step_keeps_grabs(table, state_after(table, before), presses.last());
        lemma_held_after_concat(
            no_grabs(),
            requests_of_run(table, before),
            step_requests(table, state_after(table, before), presses.last()),
        );
    }
}

/// Where some binding has a key, the grabs of every state are of exactly
/// one kind: the daemon never holds keys and keyboard together, and never
/// holds nothing.
pub proof fn lemma_one_kind_held(table: Seq<BindingView>, state: DaemonStateView, i: int)
    requires
        0 <= i < table.len(),
        table[i].keys.len() >= 1,
    ensures
        one_kind_held(grabs_of(table, state)),
{
    let keys = init_keys(table);
    lemma_next_key_list(table, Seq::empty());
    let empty = Seq::<Key>::empty();
    assert(table[i].keys.subrange(0, 0) =~= empty);
    assert(asks_next(table, empty, i, table[i].keys[0]));
    assert(next_keys(table, empty).contains(table[i].keys[0]));
    assert(keys.to_set().contains(table[i].keys[0]));
    assert(keys.len() > 0);
    keys.to_multiset_ensures();
}

} // verus!
