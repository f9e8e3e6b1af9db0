//! The guarantees of the correlation core, stated over whole runs.
//!
//! A run is a session folded over a sequence of events: registrations,
//! drain outcomes and shutdown.  The laws here say what the trace of
//! deliveries of such a run looks like: a completion observed before
//! its registration is still delivered; shutdown cancels every pending
//! continuation exactly once and the session drains no further; a
//! stream takes items in order until its terminal completion; and a
//! unary operation receives exactly one terminal result, its own.

use vstd::prelude::*;

use crate::common::{HYPERDEX_CLIENT_SEARCHDONE, HYPERDEX_CLIENT_SUCCESS};
use crate::session::{
    backlog_clear, cancel_action, completion_error, lemma_filter_snoc, session_inv,
    spec_backlog_matches, spec_backlog_rest, spec_deliver_one, spec_delivery, spec_drain_step,
    spec_flush, spec_register_step, spec_shutdown_step, table_contains, table_index_of,
    table_kind, table_unique, ActionModel, CompletionModel, DrainModel, HyperState, SessionModel,
};

verus! {

/// One event in the life of a session.
pub enum EventModel {
    /// An issuing thread registers the continuation for a fresh id.
    Register { id: i64, kind: HyperState },
    /// The worker thread drained one outcome.
    Drain(DrainModel),
    /// Shutdown is observed.
    Shutdown,
}

/// One event applied to a session.  A registration takes effect only
/// when the session is running and the id is fresh, as the issuing path
/// guarantees.
pub open spec fn spec_event_step(s: SessionModel, e: EventModel) -> (SessionModel, Seq<
    ActionModel,
>) {
    match e {
        EventModel::Register { id, kind } => {
            if !s.stopped && !table_contains(s.table, id) {
                spec_register_step(s, id, kind)
            } else {
                (s, Seq::empty())
            }
        },
        EventModel::Drain(d) => spec_drain_step(s, d),
        EventModel::Shutdown => spec_shutdown_step(s),
    }
}

/// A whole run: the state after every event, and the deliveries made
/// along the way, in order.
pub open spec fn spec_run(s: SessionModel, evs: Seq<EventModel>) -> (SessionModel, Seq<
    ActionModel,
>)
    decreases evs.len(),
{
    if evs.len() == 0 {
        (s, Seq::empty())
    } else {
        let first = spec_event_step(s, evs[0]);
        let rest = spec_run(first.0, evs.skip(1));
        (rest.0, first.1 + rest.1)
    }
}

/// A terminal delivery for `id`: the resolution of its unary
/// continuation or the close of its stream.
pub open spec fn is_terminal_for(a: ActionModel, id: i64) -> bool {
    match a {
        ActionModel::Resolve { id: x, .. } => x == id,
        ActionModel::StreamEnd { id: x, .. } => x == id,
        _ => false,
    }
}

/// How many terminal deliveries for `id` a trace holds.
pub open spec fn count_terminal(acts: Seq<ActionModel>, id: i64) -> nat {
    acts.filter(|a: ActionModel| is_terminal_for(a, id)).len()
}

/// Clearing a backlog of an id leaves no completion for that id.
pub proof fn lemma_rest_clear(b: Seq<CompletionModel>, id: i64)
    ensures
        backlog_clear(spec_backlog_rest(b, id), id),
    decreases b.len(),
{
    reveal(Seq::filter);
    if b.len() > 0 {
        lemma_rest_clear(b.drop_last(), id);
        if b.last().id != id {
            lemma_filter_snoc(
                spec_backlog_rest(b.drop_last(), id),
                |c: CompletionModel| c.id == id,
                b.last(),
            );
            assert(spec_backlog_rest(b, id) == spec_backlog_rest(b.drop_last(), id).push(b.last()));
        } else {
            assert(spec_backlog_rest(b, id) == spec_backlog_rest(b.drop_last(), id));
        }
    } else {
        assert(spec_backlog_rest(b, id) == b);
        assert(spec_backlog_matches(b, id) =~= Seq::<CompletionModel>::empty());
    }
}

/// Filtering out one id leaves the completions for another untouched.
pub proof fn lemma_rest_keeps_other(b: Seq<CompletionModel>, id: i64, other: i64)
    requires
        id != other,
    ensures
        spec_backlog_matches(spec_backlog_rest(b, other), id) == spec_backlog_matches(b, id),
    decreases b.len(),
{
    reveal(Seq::filter);
    if b.len() > 0 {
        lemma_rest_keeps_other(b.drop_last(), id, other);
        let is_match = |c: CompletionModel| c.id == id;
        if b.last().id != other {
            assert(spec_backlog_rest(b, other) == spec_backlog_rest(b.drop_last(), other).push(
                b.last(),
            ));
            lemma_filter_snoc(spec_backlog_rest(b.drop_last(), other), is_match, b.last());
        } else {
            assert(spec_backlog_rest(b, other) == spec_backlog_rest(b.drop_last(), other));
            assert(spec_backlog_matches(b, id) == spec_backlog_matches(b.drop_last(), id));
        }
    }
}

/// Race safety: a completion observed before its id is registered is
/// set aside without loss, and the registration that follows delivers
/// it to the fresh continuation at once.
pub proof fn lemma_completion_before_registration(
    s: SessionModel,
    c: CompletionModel,
    id: i64,
    kind: HyperState,
)
    requires
        !s.stopped,
        !table_contains(s.table, id),
        backlog_clear(s.backlog, id),
        c.id == id,
    ensures
        ({
            let after_drain = spec_drain_step(s, DrainModel::Completed(c));
            let after_reg = spec_register_step(after_drain.0, id, kind);
            &&& after_drain.1 == Seq::<ActionModel>::empty()
            &&& after_reg.1 == spec_deliver_one(kind, c).1
            &&& backlog_clear(after_reg.0.backlog, id)
        }),
{
    let after_drain = spec_drain_step(s, DrainModel::Completed(c));
    assert(after_drain.0.backlog == s.backlog.push(c));
    let is_match = |c: CompletionModel| c.id == id;
    lemma_filter_snoc(s.backlog, is_match, c);
    let ms = spec_backlog_matches(after_drain.0.backlog, id);
    assert(ms == spec_backlog_matches(s.backlog, id).push(c));
    assert(ms =~= seq![c]);
    assert(ms[0] == c);
    assert(ms.skip(1) =~= Seq::<CompletionModel>::empty());
    let step = spec_deliver_one(kind, c);
    if step.0 {
        assert(spec_flush(kind, ms).1 == step.1);
    } else {
        assert(spec_flush(kind, Seq::<CompletionModel>::empty()).1 == Seq::<ActionModel>::empty());
        assert(spec_flush(kind, ms).1 == step.1 + Seq::<ActionModel>::empty());
        assert(step.1 + Seq::<ActionModel>::empty() =~= step.1);
    }
    lemma_rest_clear(after_drain.0.backlog, id);
}

/// How many cancellations a shutdown trace holds for one id: exactly
/// one when the id was pending, none otherwise.
proof fn lemma_cancel_count(t: Seq<(i64, HyperState)>, id: i64)
    requires
        table_unique(t),
    ensures
        count_terminal(Seq::new(t.len(), |i: int| cancel_action(t[i])), id) == (
        if table_contains(t, id) {
            1nat
        } else {
            0nat
        }),
    decreases t.len(),
{
    reveal(Seq::filter);
    let full = Seq::new(t.len(), |i: int| cancel_action(t[i]));
    let pred = |a: ActionModel| is_terminal_for(a, id);
    if t.len() == 0 {
        assert(!table_contains(t, id));
        assert(full.filter(pred).len() == 0);
    } else {
        let prefix = Seq::new(t.drop_last().len(), |i: int| cancel_action(t.drop_last()[i]));
        assert(full.drop_last() =~= prefix);
        lemma_cancel_count(t.drop_last(), id);
        assert(full.last() == cancel_action(t.last()));
        assert(is_terminal_for(cancel_action(t.last()), id) == (t.last().0 == id));
        if t.last().0 == id {
            assert(table_contains(t, id)) by {
                assert(t[t.len() - 1].0 == id);
            }
            assert(!table_contains(t.drop_last(), id)) by {
                if table_contains(t.drop_last(), id) {
                    let j = table_index_of(t.drop_last(), id);
                    assert(t[j].0 == id);
                }
            }
        } else {
            if table_contains(t, id) {
                let j = table_index_of(t, id);
                assert(j < t.len() - 1);
                assert(t.drop_last()[j].0 == id);
                assert(table_contains(t.drop_last(), id));
            } else {
                if table_contains(t.drop_last(), id) {
                    let j = table_index_of(t.drop_last(), id);
                    assert(t[j].0 == id);
                }
            }
        }
    }
}

/// Shutdown: every continuation still pending receives exactly one
/// cancellation, in table order; nothing else receives one; and the
/// stopped session drains no further, whatever the engine reports.
pub proof fn lemma_shutdown_cancels_all(s: SessionModel)
    requires
        !s.stopped,
        session_inv(s),
    ensures
        ({
            let r = spec_shutdown_step(s);
            &&& r.1.len() == s.table.len()
            &&& forall|j: int| 0 <= j < s.table.len() ==> r.1[j] == cancel_action(s.table[j])
            &&& r.0.table.len() == 0
            &&& r.0.stopped
            &&& forall|id: i64|
                table_contains(s.table, id) ==> #[trigger] count_terminal(r.1, id) == 1
            &&& forall|id: i64|
                !table_contains(s.table, id) ==> #[trigger] count_terminal(r.1, id) == 0
            &&& forall|d: DrainModel| (#[trigger] spec_drain_step(r.0, d)).0 == r.0
            &&& forall|d: DrainModel| (#[trigger] spec_drain_step(r.0, d)).1 == Seq::<
                ActionModel,
            >::empty()
        }),
{
    let r = spec_shutdown_step(s);
    assert forall|id: i64| table_contains(s.table, id) implies #[trigger] count_terminal(r.1, id)
        == 1 by {
        lemma_cancel_count(s.table, id);
    }
    assert forall|id: i64| !table_contains(s.table, id) implies #[trigger] count_terminal(r.1, id)
        == 0 by {
        lemma_cancel_count(s.table, id);
    }
}

/// Streaming delivery: a success is one more item and the stream stays
/// open; the end-of-search marker closes it cleanly; any other status
/// closes it with that error as the final item.  A closed stream leaves
/// the table, so nothing more can be delivered to it.
pub proof fn lemma_stream_delivery(s: SessionModel, c: CompletionModel)
    requires
        !s.stopped,
        session_inv(s),
        table_contains(s.table, c.id),
        table_kind(s.table, c.id) == HyperState::HyperStateSearch,
    ensures
        ({
            let r = spec_drain_step(s, DrainModel::Completed(c));
            &&& c.status == HYPERDEX_CLIENT_SUCCESS ==> r.1 == seq![
                ActionModel::StreamItem { id: c.id, outcome: spec_delivery(c) },
            ] && r.0.table == s.table
            &&& c.status == HYPERDEX_CLIENT_SEARCHDONE ==> r.1 == seq![
                ActionModel::StreamEnd { id: c.id, error: None },
            ] && !table_contains(r.0.table, c.id)
            &&& c.status != HYPERDEX_CLIENT_SUCCESS && c.status != HYPERDEX_CLIENT_SEARCHDONE
                ==> r.1 == seq![
                ActionModel::StreamEnd { id: c.id, error: Some(completion_error(c)) },
            ] && !table_contains(r.0.table, c.id)
        }),
{
    let r = spec_drain_step(s, DrainModel::Completed(c));
    if c.status != HYPERDEX_CLIENT_SUCCESS {
        let j = table_index_of(s.table, c.id);
        assert(0 <= j < s.table.len() && s.table[j].0 == c.id);
        assert(r.0.table == s.table.remove(j));
        if table_contains(r.0.table, c.id) {
            let k = table_index_of(r.0.table, c.id);
            let k0 = if k < j {
                k
            } else {
                k + 1
            };
            assert(r.0.table[k] == s.table[k0]);
            assert(s.table[k0].0 == c.id && s.table[j].0 == c.id && k0 != j);
        }
    }
}

/// `e` registers `id`.
pub open spec fn is_reg_for(e: EventModel, id: i64) -> bool {
    match e {
        EventModel::Register { id: x, .. } => x == id,
        _ => false,
    }
}

/// `e` drains a completion for `id`.
pub open spec fn is_comp_for(e: EventModel, id: i64) -> bool {
    match e {
        EventModel::Drain(DrainModel::Completed(cc)) => cc.id == id,
        _ => false,
    }
}

/// How many events of a run register `id`.
pub open spec fn count_reg(evs: Seq<EventModel>, id: i64) -> nat {
    evs.filter(|e: EventModel| is_reg_for(e, id)).len()
}

/// How many events of a run drain a completion for `id`.
pub open spec fn count_comp(evs: Seq<EventModel>, id: i64) -> nat {
    evs.filter(|e: EventModel| is_comp_for(e, id)).len()
}

/// The run treats `id` as one unary operation with outcome `c`: every
/// registration of `id` is unary, every completion for `id` carries
/// `c`, and the session is not shut down.
pub open spec fn unary_events(evs: Seq<EventModel>, id: i64, c: CompletionModel) -> bool {
    &&& forall|j: int|
        0 <= j < evs.len() && is_reg_for(#[trigger] evs[j], id) ==> evs[j]
            == (EventModel::Register { id, kind: HyperState::HyperStateOp })
    &&& forall|j: int|
        0 <= j < evs.len() && is_comp_for(#[trigger] evs[j], id) ==> evs[j] == EventModel::Drain(
            DrainModel::Completed(c),
        )
    &&& forall|j: int| 0 <= j < evs.len() ==> !((#[trigger] evs[j]) is Shutdown)
}

/// Every table entry carrying `id` is unary.
pub open spec fn unary_in_table(t: Seq<(i64, HyperState)>, id: i64) -> bool {
    forall|j: int|
        0 <= j < t.len() && (#[trigger] t[j]).0 == id ==> t[j].1 == HyperState::HyperStateOp
}

/// Where one unary operation stands, given how many of its
/// registration and completion events are still to come: untouched,
/// registered and waiting, completed early and set aside, or finished.
pub open spec fn unary_tracked(
    s: SessionModel,
    id: i64,
    c: CompletionModel,
    nr: nat,
    nc: nat,
) -> bool {
    if nr == 1 && nc == 1 {
        !table_contains(s.table, id) && backlog_clear(s.backlog, id)
    } else if nr == 0 && nc == 1 {
        table_contains(s.table, id) && unary_in_table(s.table, id) && backlog_clear(s.backlog, id)
    } else if nr == 1 && nc == 0 {
        !table_contains(s.table, id) && spec_backlog_matches(s.backlog, id) == seq![c]
    } else if nr == 0 && nc == 0 {
        true
    } else {
        false
    }
}

/// Splitting off the first element of a filtered sequence.
pub proof fn lemma_filter_head<A>(s: Seq<A>, pred: spec_fn(A) -> bool)
    requires
        s.len() > 0,
    ensures
        s.filter(pred).len() == (
        if pred(s[0]) {
            1nat
        } else {
            0nat
        }) + s.skip(1).filter(pred).len(),
{
    reveal(Seq::filter);
    Seq::filter_distributes_over_add(seq![s[0]], s.skip(1), pred);
    assert(seq![s[0]] + s.skip(1) =~= s);
    assert(seq![s[0]].drop_last() =~= Seq::<A>::empty());
    assert(seq![s[0]].last() == s[0]);
    assert(Seq::<A>::empty().filter(pred).len() == 0);
}

/// Replaying completions that all carry some other id delivers nothing
/// terminal for this one.
pub proof fn lemma_flush_foreign(kind: HyperState, ms: Seq<CompletionModel>, id: i64)
    requires
        forall|k: int| 0 <= k < ms.len() ==> (#[trigger] ms[k]).id != id,
    ensures
        forall|j: int|
            0 <= j < spec_flush(kind, ms).1.len() ==> !is_terminal_for(
                #[trigger] spec_flush(kind, ms).1[j],
                id,
            ),
    decreases ms.len(),
{
    if ms.len() > 0 {
        let step = spec_deliver_one(kind, ms[0]);
        let all = spec_flush(kind, ms).1;
        assert(step.1.len() == 1);
        assert(!is_terminal_for(step.1[0], id));
        if step.0 {
            assert(all == step.1);
        } else {
            assert(forall|k: int| 0 <= k < ms.skip(1).len() ==> (#[trigger] ms.skip(1)[k]).id
                != id);
            lemma_flush_foreign(kind, ms.skip(1), id);
            assert(all == step.1 + spec_flush(kind, ms.skip(1)).1);
            assert forall|j: int| 0 <= j < all.len() implies !is_terminal_for(
                #[trigger] all[j],
                id,
            ) by {
                if j < step.1.len() {
                    assert(all[j] == step.1[0]);
                } else {
                    assert(all[j] == spec_flush(kind, ms.skip(1)).1[j - 1]);
                }
            }
        }
    }
}

/// A trace with no terminal delivery for `id` counts none.
pub proof fn lemma_no_terminal_count(acts: Seq<ActionModel>, id: i64)
    requires
        forall|j: int| 0 <= j < acts.len() ==> !is_terminal_for(#[trigger] acts[j], id),
    ensures
        count_terminal(acts, id) == 0,
{
    acts.lemma_all_neg_filter_empty(|a: ActionModel| is_terminal_for(a, id));
}

/// Exactly-once delivery for a unary operation: over any run that
/// registers the operation once and drains its completion once, in
/// either order and among any other traffic, the operation receives
/// exactly one terminal delivery, and that delivery resolves it with
/// its own completion's outcome, never another operation's.
#[verifier::rlimit(100)]
pub proof fn lemma_unary_exactly_once(
    s: SessionModel,
    evs: Seq<EventModel>,
    id: i64,
    c: CompletionModel,
)
    requires
        !s.stopped,
        c.id == id,
        unary_events(evs, id, c),
        unary_tracked(s, id, c, count_reg(evs, id), count_comp(evs, id)),
    ensures
        count_terminal(spec_run(s, evs).1, id) == (
        if count_reg(evs, id) == 0 && count_comp(evs, id) == 0 {
            0nat
        } else {
            1nat
        }),
        forall|j: int|
            0 <= j < spec_run(s, evs).1.len() && is_terminal_for(
                #[trigger] spec_run(s, evs).1[j],
                id,
            ) ==> spec_run(s, evs).1[j] == (ActionModel::Resolve {
                id,
                outcome: spec_delivery(c),
            }),
    decreases evs.len(),
{
    let nr = count_reg(evs, id);
    let nc = count_comp(evs, id);
    let reg_pred = |e: EventModel| is_reg_for(e, id);
    let comp_pred = |e: EventModel| is_comp_for(e, id);
    let term_pred = |a: ActionModel| is_terminal_for(a, id);
    let is_match = |cc: CompletionModel| cc.id == id;
    reveal(Seq::filter);
    if evs.len() == 0 {
        assert(evs.filter(reg_pred).len() == 0);
        assert(spec_run(s, evs).1.filter(term_pred).len() == 0);
    } else {
        let e = evs[0];
        let first = spec_event_step(s, e);
        let s1 = first.0;
        let a1 = first.1;
        let rest = evs.skip(1);
        let rest_run = spec_run(s1, rest);
        lemma_filter_head(evs, reg_pred);
        lemma_filter_head(evs, comp_pred);
        let nr1 = count_reg(rest, id);
        let nc1 = count_comp(rest, id);
        assert(unary_events(rest, id, c)) by {
            assert(forall|j: int| 0 <= j < rest.len() ==> rest[j] == evs[j + 1]);
        }
        assert(s1.stopped == s.stopped);
        match e {
            EventModel::Register { id: rid, kind } => {
                if rid == id {
                    assert(is_reg_for(e, id));
                    assert(kind == HyperState::HyperStateOp);
                    assert(nr == nr1 + 1);
                    assert(nc == nc1);
                    assert(nr == 1);
                    assert(!table_contains(s.table, id));
                    let ms = spec_backlog_matches(s.backlog, id);
                    if nc == 1 {
                        // not yet completed: the entry joins the table
                        assert(ms == Seq::<CompletionModel>::empty());
                        assert(spec_flush(kind, Seq::<CompletionModel>::empty()).0 == true);
                        assert(spec_flush(kind, Seq::<CompletionModel>::empty()).1 == Seq::<
                            ActionModel,
                        >::empty());
                        assert(a1 == Seq::<ActionModel>::empty());
                        assert(s1.table == s.table.push((id, kind)));
                        assert(table_contains(s1.table, id)) by {
                            assert(s1.table[s.table.len() as int].0 == id);
                        }
                        assert(unary_in_table(s1.table, id)) by {
                            assert forall|j: int|
                                0 <= j < s1.table.len() && (#[trigger] s1.table[j]).0
                                    == id implies s1.table[j].1 == HyperState::HyperStateOp by {
                                if j < s.table.len() {
                                    assert(table_contains(s.table, id));
                                }
                            }
                        }
                        lemma_rest_clear(s.backlog, id);
                        assert(unary_tracked(s1, id, c, nr1, nc1));
                        lemma_unary_exactly_once(s1, rest, id, c);
                        Seq::filter_distributes_over_add(a1, rest_run.1, term_pred);
                        assert(a1 + rest_run.1 =~= rest_run.1);
                    } else {
                        // completed early: the backlog resolves it now
                        assert(nc == 0);
                        assert(ms == seq![c]);
                        assert(ms[0] == c);
                        assert(ms.skip(1) =~= Seq::<CompletionModel>::empty());
                        let step = spec_deliver_one(kind, c);
                        assert(step.0 == true);
                        assert(a1 == step.1);
                        assert(a1 == seq![
                            ActionModel::Resolve { id, outcome: spec_delivery(c) },
                        ]);
                        assert(s1.table == s.table);
                        lemma_rest_clear(s.backlog, id);
                        assert(unary_tracked(s1, id, c, nr1, nc1));
                        lemma_unary_exactly_once(s1, rest, id, c);
                        Seq::filter_distributes_over_add(a1, rest_run.1, term_pred);
                        assert(a1.filter(term_pred) =~= a1);
                        assert(count_terminal(a1, id) == 1);
                    }
                } else {
                    assert(!is_reg_for(e, id));
                    assert(!is_comp_for(e, id));
                    assert(nr == nr1 && nc == nc1);
                    if !s.stopped && !table_contains(s.table, rid) {
                        // another operation registers: its replay
                        // carries only its own id
                        let ms2 = spec_backlog_matches(s.backlog, rid);
                        assert forall|k: int| 0 <= k < ms2.len() implies (#[trigger] ms2[k]).id
                            != id by {
                            s.backlog.lemma_filter_pred(|cc: CompletionModel| cc.id == rid, k);
                        }
                        lemma_flush_foreign(kind, ms2, id);
                        lemma_no_terminal_count(a1, id);
                        assert(s1.backlog == spec_backlog_rest(s.backlog, rid));
                        lemma_rest_keeps_other(s.backlog, id, rid);
                        assert(table_contains(s1.table, id) == table_contains(s.table, id)) by {
                            if s1.table.len() == s.table.len() + 1 {
                                if table_contains(s1.table, id) {
                                    let w = table_index_of(s1.table, id);
                                    assert(s1.table[w].0 == id);
                                    if w < s.table.len() {
                                        assert(s.table[w].0 == id);
                                    }
                                }
                                if table_contains(s.table, id) {
                                    let w = table_index_of(s.table, id);
                                    assert(s1.table[w].0 == id);
                                }
                            }
                        }
                        assert forall|j: int|
                            0 <= j < s1.table.len() && (#[trigger] s1.table[j]).0
                                == id implies s1.table[j] == s.table[j] by {
                            if s1.table.len() == s.table.len() + 1 && j == s.table.len() {
                                assert(s1.table[j].0 == rid);
                            }
                        }
                        assert(unary_tracked(s1, id, c, nr1, nc1));
                        lemma_unary_exactly_once(s1, rest, id, c);
                        Seq::filter_distributes_over_add(a1, rest_run.1, term_pred);
                        assert(a1.filter(term_pred) =~= Seq::<ActionModel>::empty());
                    } else {
                        assert(s1 == s && a1 == Seq::<ActionModel>::empty());
                        lemma_unary_exactly_once(s1, rest, id, c);
                        Seq::filter_distributes_over_add(a1, rest_run.1, term_pred);
                        assert(a1 + rest_run.1 =~= rest_run.1);
                    }
                }
            },
            EventModel::Drain(d) => {
                match d {
                    DrainModel::TimedOut => {
                        assert(s1 == s && a1 == Seq::<ActionModel>::empty());
                        assert(nr == nr1 && nc == nc1);
                        lemma_unary_exactly_once(s1, rest, id, c);
                        Seq::filter_distributes_over_add(a1, rest_run.1, term_pred);
                        assert(a1 + rest_run.1 =~= rest_run.1);
                    },
                    DrainModel::NonePending => {
                        assert(s1 == s && a1 == Seq::<ActionModel>::empty());
                        assert(nr == nr1 && nc == nc1);
                        lemma_unary_exactly_once(s1, rest, id, c);
                        Seq::filter_distributes_over_add(a1, rest_run.1, term_pred);
                        assert(a1 + rest_run.1 =~= rest_run.1);
                    },
                    DrainModel::HardError(err) => {
                        assert(s1 == s);
                        assert(a1 == seq![ActionModel::SideError { error: err }]);
                        assert(nr == nr1 && nc == nc1);
                        lemma_no_terminal_count(a1, id);
                        lemma_unary_exactly_once(s1, rest, id, c);
                        Seq::filter_distributes_over_add(a1, rest_run.1, term_pred);
                        assert(a1.filter(term_pred) =~= Seq::<ActionModel>::empty());
                    },
                    DrainModel::Completed(cc) => {
                        if cc.id == id {
                            assert(is_comp_for(e, id));
                            assert(cc == c);
                            assert(nc == nc1 + 1);
                            assert(nr == nr1);
                            assert(nc == 1);
                            if nr == 1 {
                                // the race: completion before registration
                                assert(!table_contains(s.table, id));
                                assert(s1.backlog == s.backlog.push(c));
                                assert(a1 == Seq::<ActionModel>::empty());
                                lemma_filter_snoc(s.backlog, is_match, c);
                                assert(spec_backlog_matches(s1.backlog, id) =~= seq![c]);
                                assert(unary_tracked(s1, id, c, nr1, nc1));
                                lemma_unary_exactly_once(s1, rest, id, c);
                                Seq::filter_distributes_over_add(a1, rest_run.1, term_pred);
                                assert(a1 + rest_run.1 =~= rest_run.1);
                            } else {
                                // registered and waiting: deliver now
                                assert(nr == 0);
                                assert(table_contains(s.table, id));
                                let w = table_index_of(s.table, id);
                                assert(0 <= w < s.table.len() && s.table[w].0 == id);
                                assert(table_kind(s.table, id) == HyperState::HyperStateOp);
                                let step = spec_deliver_one(HyperState::HyperStateOp, c);
                                assert(step.0 == true);
                                assert(a1 == seq![
                                    ActionModel::Resolve { id, outcome: spec_delivery(c) },
                                ]);
                                assert(unary_tracked(s1, id, c, nr1, nc1));
                                lemma_unary_exactly_once(s1, rest, id, c);
                                Seq::filter_distributes_over_add(a1, rest_run.1, term_pred);
                                assert(a1.filter(term_pred) =~= a1);
                                assert(count_terminal(a1, id) == 1);
                            }
                        } else {
                            assert(!is_comp_for(e, id));
                            assert(nr == nr1 && nc == nc1);
                            if table_contains(s.table, cc.id) {
                                let step = spec_deliver_one(table_kind(s.table, cc.id), cc);
                                assert(a1 == step.1);
                                assert(forall|j: int|
                                    0 <= j < a1.len() ==> !is_terminal_for(#[trigger] a1[j], id));
                                lemma_no_terminal_count(a1, id);
                                if step.0 {
                                    let w = table_index_of(s.table, cc.id);
                                    assert(s1.table == s.table.remove(w));
                                    assert(s.table[w].0 == cc.id);
                                    assert(table_contains(s.table, id) ==> table_contains(
                                        s1.table,
                                        id,
                                    )) by {
                                        if table_contains(s.table, id) {
                                            let v = table_index_of(s.table, id);
                                            assert(s.table[v].0 == id);
                                            assert(v != w);
                                            if v < w {
                                                assert(s1.table[v].0 == id);
                                            } else {
                                                assert(s1.table[v - 1].0 == id);
                                            }
                                        }
                                    }
                                    assert(table_contains(s1.table, id) ==> table_contains(
                                        s.table,
                                        id,
                                    )) by {
                                        if table_contains(s1.table, id) {
                                            let v = table_index_of(s1.table, id);
                                            let v0 = if v < w {
                                                v
                                            } else {
                                                v + 1
                                            };
                                            assert(s1.table[v] == s.table[v0]);
                                        }
                                    }
                                    assert(unary_in_table(s.table, id) ==> unary_in_table(
                                        s1.table,
                                        id,
                                    )) by {
                                        if unary_in_table(s.table, id) {
                                            assert forall|j: int|
                                                0 <= j < s1.table.len() && (
                                                #[trigger] s1.table[j]).0
                                                    == id implies s1.table[j].1
                                                == HyperState::HyperStateOp by {
                                                let j0 = if j < w {
                                                    j
                                                } else {
                                                    j + 1
                                                };
                                                assert(s1.table[j] == s.table[j0]);
                                            }
                                        }
                                    }
                                }
                                assert(unary_tracked(s1, id, c, nr1, nc1));
                                lemma_unary_exactly_once(s1, rest, id, c);
                                Seq::filter_distributes_over_add(a1, rest_run.1, term_pred);
                                assert(a1.filter(term_pred) =~= Seq::<ActionModel>::empty());
                            } else {
                                assert(s1.backlog == s.backlog.push(cc));
                                assert(a1 == Seq::<ActionModel>::empty());
                                lemma_filter_snoc(s.backlog, is_match, cc);
                                assert(unary_tracked(s1, id, c, nr1, nc1));
                                lemma_unary_exactly_once(s1, rest, id, c);
                                Seq::filter_distributes_over_add(a1, rest_run.1, term_pred);
                                assert(a1 + rest_run.1 =~= rest_run.1);
                            }
                        }
                    },
                }
            },
            EventModel::Shutdown => {
                assert(false);
            },
        }
    }
}

} // verus!
