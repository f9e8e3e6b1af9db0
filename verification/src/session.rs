//! One session: a pending-operation table, the side list for the
//! registration race, and the state machine its worker thread runs.
//!
//! The embedding runs one worker thread per session.  The worker drains
//! one engine event at a time and hands it to [`Session::handle_drain`];
//! an issuing thread that received an operation id from the engine hands
//! it to [`Session::register`]; shutdown goes through
//! [`Session::shutdown`].  Each call returns the deliveries the caller
//! must perform.  Every transition is specified against a mathematical
//! model of the session, so the routing itself is proved: each
//! completion reaches exactly the continuation registered under its id.

use vstd::prelude::*;

use crate::codec::{decode_attributes, spec_decode_attributes, AttrModel, RawAttribute};
use crate::common::{
    ErrorModel, HyperError, HYPERDEX_CLIENT_INTERRUPTED, HYPERDEX_CLIENT_NONEPENDING,
    HYPERDEX_CLIENT_SEARCHDONE, HYPERDEX_CLIENT_SERVERERROR, HYPERDEX_CLIENT_SUCCESS,
    HYPERDEX_CLIENT_TIMEOUT,
};
use crate::client_types::{map_of, HyperObject, ValueModel};

verus! {

/// The two continuation shapes a pending operation can have: a unary
/// operation resolves exactly once; a search streams items until a
/// terminal completion.
#[derive(Debug, Clone, Copy, PartialEq, Eq, Structural)]
pub enum HyperState {
    /// A unary continuation: one terminal result, then discarded.
    HyperStateOp,
    /// A streaming continuation: zero or more items, then one terminal
    /// notification.
    HyperStateSearch,
}

/// One completion as the engine reports it: the operation id, the
/// status, the error accessors read at that moment, and the attribute
/// payload.
#[derive(Debug)]
pub struct Completion {
    pub id: i64,
    pub status: u32,
    pub message: String,
    pub location: String,
    pub attrs: Vec<RawAttribute>,
}

/// The mathematical shape of a [`Completion`].
pub struct CompletionModel {
    pub id: i64,
    pub status: u32,
    pub message: Seq<char>,
    pub location: Seq<char>,
    pub attrs: Seq<AttrModel>,
}

impl DeepView for Completion {
    type V = CompletionModel;

    open spec fn deep_view(&self) -> CompletionModel {
        CompletionModel {
            id: self.id,
            status: self.status,
            message: self.message@,
            location: self.location@,
            attrs: self.attrs.deep_view(),
        }
    }
}

/// What one blocking drain call reported.
#[derive(Debug)]
pub enum DrainOutcome {
    /// The drain call timed out with nothing to report.
    TimedOut,
    /// No operation is outstanding on the handle.
    NonePending,
    /// A drain-level failure unrelated to any specific id.
    HardError { status: u32, message: String, location: String },
    /// One operation completed.
    Completed(Completion),
}

/// The mathematical shape of a [`DrainOutcome`].
pub enum DrainModel {
    TimedOut,
    NonePending,
    HardError(ErrorModel),
    Completed(CompletionModel),
}

impl DeepView for DrainOutcome {
    type V = DrainModel;

    open spec fn deep_view(&self) -> DrainModel {
        match self {
            DrainOutcome::TimedOut => DrainModel::TimedOut,
            DrainOutcome::NonePending => DrainModel::NonePending,
            DrainOutcome::HardError { status, message, location } => DrainModel::HardError(
                ErrorModel { status: *status, message: message@, location: location@ },
            ),
            DrainOutcome::Completed(c) => DrainModel::Completed(c.deep_view()),
        }
    }
}

/// What a delivery carries: a decoded object or an error.
pub enum DeliveryModel {
    Value(Map<Seq<char>, ValueModel>),
    Failure(ErrorModel),
}

/// The model of one delivered result.
pub open spec fn result_model(r: Result<HyperObject, HyperError>) -> DeliveryModel {
    match r {
        Ok(o) => DeliveryModel::Value(map_of(o.deep_view())),
        Err(e) => DeliveryModel::Failure(e.deep_view()),
    }
}

/// One delivery the caller of a session transition must perform.
#[allow(inconsistent_fields)]
#[derive(Debug)]
pub enum Action {
    /// Resolve the unary continuation registered under `id`.
    Resolve { id: i64, result: Result<HyperObject, HyperError> },
    /// Push one item to the stream registered under `id`.
    StreamItem { id: i64, result: Result<HyperObject, HyperError> },
    /// Close the stream registered under `id`, cleanly or with the
    /// terminal error.
    StreamEnd { id: i64, error: Option<HyperError> },
    /// Surface a drain-level failure on the dispatcher's error sink.
    SideError { error: HyperError },
}

/// The mathematical shape of an [`Action`].
pub enum ActionModel {
    Resolve { id: i64, outcome: DeliveryModel },
    StreamItem { id: i64, outcome: DeliveryModel },
    StreamEnd { id: i64, error: Option<ErrorModel> },
    SideError { error: ErrorModel },
}

impl DeepView for Action {
    type V = ActionModel;

    open spec fn deep_view(&self) -> ActionModel {
        match self {
            Action::Resolve { id, result } => ActionModel::Resolve {
                id: *id,
                outcome: result_model(*result),
            },
            Action::StreamItem { id, result } => ActionModel::StreamItem {
                id: *id,
                outcome: result_model(*result),
            },
            Action::StreamEnd { id, error } => ActionModel::StreamEnd {
                id: *id,
                error: match error {
                    Some(e) => Some(e.deep_view()),
                    None => None,
                },
            },
            Action::SideError { error } => ActionModel::SideError { error: error.deep_view() },
        }
    }
}

/// One table entry: an operation id and the continuation shape
/// registered under it.
#[derive(Debug, Clone, Copy)]
pub struct PendingEntry {
    pub id: i64,
    pub state: HyperState,
}

impl DeepView for PendingEntry {
    type V = (i64, HyperState);

    open spec fn deep_view(&self) -> (i64, HyperState) {
        (self.id, self.state)
    }
}

/// The mathematical state of a session.
pub struct SessionModel {
    /// The pending-operation table, in registration order.
    pub table: Seq<(i64, HyperState)>,
    /// Completions that arrived before their id was registered.
    pub backlog: Seq<CompletionModel>,
    /// Whether shutdown has been observed.
    pub stopped: bool,
}

/// Some table entry carries `id`.
pub open spec fn table_contains(t: Seq<(i64, HyperState)>, id: i64) -> bool {
    exists|i: int| 0 <= i < t.len() && (#[trigger] t[i]).0 == id
}

/// The position of the entry carrying `id`.
pub open spec fn table_index_of(t: Seq<(i64, HyperState)>, id: i64) -> int {
    choose|i: int| 0 <= i < t.len() && (#[trigger] t[i]).0 == id
}

/// The continuation shape registered under `id`.
pub open spec fn table_kind(t: Seq<(i64, HyperState)>, id: i64) -> HyperState {
    t[table_index_of(t, id)].1
}

/// The table without the entry carrying `id`.
pub open spec fn table_remove(t: Seq<(i64, HyperState)>, id: i64) -> Seq<(i64, HyperState)> {
    t.remove(table_index_of(t, id))
}

/// No two entries carry the same id.
pub open spec fn table_unique(t: Seq<(i64, HyperState)>) -> bool {
    forall|i: int, j: int| 0 <= i < j < t.len() ==> (#[trigger] t[i]).0 != (#[trigger] t[j]).0
}

/// The session invariant: table ids are unique, and no backlogged
/// completion's id is registered.
pub open spec fn session_inv(s: SessionModel) -> bool {
    &&& table_unique(s.table)
    &&& forall|i: int|
        0 <= i < s.backlog.len() ==> !table_contains(s.table, (#[trigger] s.backlog[i]).id)
}

/// The error a completion's status and accessors denote.
pub open spec fn completion_error(c: CompletionModel) -> ErrorModel {
    ErrorModel { status: c.status, message: c.message, location: c.location }
}

/// What a completion delivers: on success the decoded payload, on a
/// decode failure an engine-level error with a synthesized status, and
/// otherwise the reported error.
pub open spec fn spec_delivery(c: CompletionModel) -> DeliveryModel {
    if c.status != HYPERDEX_CLIENT_SUCCESS {
        DeliveryModel::Failure(completion_error(c))
    } else {
        match spec_decode_attributes(c.attrs) {
            Ok(m) => DeliveryModel::Value(m),
            Err(msg) => DeliveryModel::Failure(
                ErrorModel {
                    status: HYPERDEX_CLIENT_SERVERERROR,
                    message: msg,
                    location: Seq::empty(),
                },
            ),
        }
    }
}

/// What one matched completion does to a continuation of the given
/// shape: whether the entry leaves the table, and the deliveries made.
///
/// A unary continuation resolves exactly once and leaves.  A streaming
/// continuation takes a success as one more item and stays; any other
/// status is terminal and closes the stream, cleanly on the
/// end-of-search marker and with the reported error otherwise.
pub open spec fn spec_deliver_one(kind: HyperState, c: CompletionModel) -> (bool, Seq<
    ActionModel,
>) {
    match kind {
        HyperState::HyperStateOp => (
            true,
            seq![ActionModel::Resolve { id: c.id, outcome: spec_delivery(c) }],
        ),
        HyperState::HyperStateSearch => {
            if c.status == HYPERDEX_CLIENT_SUCCESS {
                (false, seq![ActionModel::StreamItem { id: c.id, outcome: spec_delivery(c) }])
            } else if c.status == HYPERDEX_CLIENT_SEARCHDONE {
                (true, seq![ActionModel::StreamEnd { id: c.id, error: None }])
            } else {
                (
                    true,
                    seq![
                        ActionModel::StreamEnd { id: c.id, error: Some(completion_error(c)) },
                    ],
                )
            }
        },
    }
}

/// Builds the result a completion resolves to.  What is delivered
/// depends on the status and payload alone, so the model completion in
/// the contract carries no particular id.
fn completion_result(status: u32, message: String, location: String, attrs: &Vec<RawAttribute>)
    -> (r: Result<HyperObject, HyperError>)
    ensures
        result_model(r) == spec_delivery(
            CompletionModel {
                id: 0,
                status,
                message: message@,
                location: location@,
                attrs: attrs.deep_view(),
            },
        ),
        r is Ok ==> r.unwrap().wf(),
{
    if status != HYPERDEX_CLIENT_SUCCESS {
        Err(HyperError::new(status, message, location))
    } else {
        match decode_attributes(attrs) {
            Ok(obj) => Ok(obj),
            Err(msg) => Err(
                HyperError {
                    status: HYPERDEX_CLIENT_SERVERERROR,
                    message: msg,
                    location: String::new(),
                },
            ),
        }
    }
}

/// Performs one matched delivery; returns whether the entry leaves the
/// table, and the deliveries.
fn deliver_one(kind: HyperState, c: Completion) -> (r: (bool, Vec<Action>))
    ensures
        r.0 == spec_deliver_one(kind, c.deep_view()).0,
        r.1.deep_view() == spec_deliver_one(kind, c.deep_view()).1,
{
    let ghost cm = c.deep_view();
    let Completion { id, status, message, location, attrs } = c;
    match kind {
        HyperState::HyperStateOp => {
            let result = completion_result(status, message, location, &attrs);
            let acts = vec![Action::Resolve { id, result }];
            proof {
                assert(acts.deep_view() =~= spec_deliver_one(kind, cm).1);
            }
            (true, acts)
        },
        HyperState::HyperStateSearch => {
            if status == HYPERDEX_CLIENT_SUCCESS {
                let result = completion_result(status, message, location, &attrs);
                let acts = vec![Action::StreamItem { id, result }];
                proof {
                    assert(acts.deep_view() =~= spec_deliver_one(kind, cm).1);
                }
                (false, acts)
            } else if status == HYPERDEX_CLIENT_SEARCHDONE {
                let acts = vec![Action::StreamEnd { id, error: None }];
                proof {
                    assert(acts.deep_view() =~= spec_deliver_one(kind, cm).1);
                }
                (true, acts)
            } else {
                let acts = vec![
                    Action::StreamEnd { id, error: Some(HyperError::new(status, message, location)) },
                ];
                proof {
                    assert(acts.deep_view() =~= spec_deliver_one(kind, cm).1);
                }
                (true, acts)
            }
        },
    }
}

/// The backlogged completions carrying `id`, in arrival order.
pub open spec fn spec_backlog_matches(b: Seq<CompletionModel>, id: i64) -> Seq<CompletionModel> {
    b.filter(|c: CompletionModel| c.id == id)
}

/// The backlogged completions not carrying `id`, in arrival order.
pub open spec fn spec_backlog_rest(b: Seq<CompletionModel>, id: i64) -> Seq<CompletionModel> {
    b.filter(|c: CompletionModel| c.id != id)
}

/// No backlogged completion carries `id`.
pub open spec fn backlog_clear(b: Seq<CompletionModel>, id: i64) -> bool {
    spec_backlog_matches(b, id) == Seq::<CompletionModel>::empty()
}

/// Replays matched completions against a fresh continuation, in order,
/// stopping at the first terminal one: whether the continuation is
/// still live, and the deliveries made.
pub open spec fn spec_flush(kind: HyperState, ms: Seq<CompletionModel>) -> (bool, Seq<ActionModel>)
    decreases ms.len(),
{
    if ms.len() == 0 {
        (true, Seq::empty())
    } else {
        let step = spec_deliver_one(kind, ms[0]);
        if step.0 {
            (false, step.1)
        } else {
            let rest = spec_flush(kind, ms.skip(1));
            (rest.0, step.1 + rest.1)
        }
    }
}

/// What registering `id` does: the matched part of the backlog is
/// replayed to the new continuation, the entry joins the table only if
/// no replayed completion was terminal, and the unmatched backlog
/// stays.
pub open spec fn spec_register_step(s: SessionModel, id: i64, kind: HyperState) -> (
    SessionModel,
    Seq<ActionModel>,
) {
    let flush = spec_flush(kind, spec_backlog_matches(s.backlog, id));
    let table1 = if flush.0 {
        s.table.push((id, kind))
    } else {
        s.table
    };
    (
        SessionModel { table: table1, backlog: spec_backlog_rest(s.backlog, id), stopped: s.stopped },
        flush.1,
    )
}

/// What one drain outcome does: timeouts report nothing, a hard error
/// goes to the side channel, a completion for a registered id is
/// delivered (removing the entry when terminal), and a completion for
/// an unregistered id is backlogged, never dropped.
pub open spec fn spec_drain_step(s: SessionModel, d: DrainModel) -> (SessionModel, Seq<ActionModel>) {
    if s.stopped {
        (s, Seq::empty())
    } else {
        match d {
            DrainModel::TimedOut => (s, Seq::empty()),
            DrainModel::NonePending => (s, Seq::empty()),
            DrainModel::HardError(e) => (s, seq![ActionModel::SideError { error: e }]),
            DrainModel::Completed(c) => {
                if table_contains(s.table, c.id) {
                    let step = spec_deliver_one(table_kind(s.table, c.id), c);
                    let table1 = if step.0 {
                        table_remove(s.table, c.id)
                    } else {
                        s.table
                    };
                    (
                        SessionModel { table: table1, backlog: s.backlog, stopped: s.stopped },
                        step.1,
                    )
                } else {
                    (
                        SessionModel {
                            table: s.table,
                            backlog: s.backlog.push(c),
                            stopped: s.stopped,
                        },
                        Seq::empty(),
                    )
                }
            },
        }
    }
}

/// The error delivered to continuations still pending at shutdown.
pub open spec fn cancelled_model() -> ErrorModel {
    ErrorModel {
        status: HYPERDEX_CLIENT_INTERRUPTED,
        message: "operation cancelled at shutdown"@,
        location: Seq::empty(),
    }
}

/// The cancellation delivery one table entry receives at shutdown.
pub open spec fn cancel_action(e: (i64, HyperState)) -> ActionModel {
    match e.1 {
        HyperState::HyperStateOp => ActionModel::Resolve {
            id: e.0,
            outcome: DeliveryModel::Failure(cancelled_model()),
        },
        HyperState::HyperStateSearch => ActionModel::StreamEnd {
            id: e.0,
            error: Some(cancelled_model()),
        },
    }
}

/// What shutdown does: every entry still in the table receives exactly
/// one cancellation, in table order, and the session stops.
pub open spec fn spec_shutdown_step(s: SessionModel) -> (SessionModel, Seq<ActionModel>) {
    if s.stopped {
        (s, Seq::empty())
    } else {
        (
            SessionModel { table: Seq::empty(), backlog: Seq::empty(), stopped: true },
            Seq::new(s.table.len(), |i: int| cancel_action(s.table[i])),
        )
    }
}

/// Appending one completion to a replay: a live replay takes its
/// delivery; a finished replay ignores it.
pub proof fn lemma_flush_snoc(kind: HyperState, ms: Seq<CompletionModel>, c: CompletionModel)
    ensures
        spec_flush(kind, ms).0 ==> spec_flush(kind, ms.push(c)).0 == !spec_deliver_one(kind, c).0,
        spec_flush(kind, ms).0 ==> spec_flush(kind, ms.push(c)).1 == spec_flush(kind, ms).1
            + spec_deliver_one(kind, c).1,
        !spec_flush(kind, ms).0 ==> spec_flush(kind, ms.push(c)).0 == false,
        !spec_flush(kind, ms).0 ==> spec_flush(kind, ms.push(c)).1 == spec_flush(kind, ms).1,
    decreases ms.len(),
{
    let step = spec_deliver_one(kind, c);
    if ms.len() == 0 {
        assert(ms.push(c)[0] == c);
        assert(ms.push(c).skip(1) =~= Seq::<CompletionModel>::empty());
        assert(spec_flush(kind, Seq::<CompletionModel>::empty()).0 == true);
        assert(spec_flush(kind, Seq::<CompletionModel>::empty()).1 == Seq::<ActionModel>::empty());
        if step.0 {
            assert(spec_flush(kind, ms.push(c)).1 =~= spec_flush(kind, ms).1 + step.1);
        } else {
            assert(spec_flush(kind, ms.push(c)).1 =~= step.1 + Seq::<ActionModel>::empty());
            assert(step.1 + Seq::<ActionModel>::empty() =~= spec_flush(kind, ms).1 + step.1);
        }
    } else {
        let head = spec_deliver_one(kind, ms[0]);
        assert(ms.push(c)[0] == ms[0]);
        assert(ms.push(c).skip(1) =~= ms.skip(1).push(c));
        if head.0 {
            assert(spec_flush(kind, ms.push(c)).1 == head.1);
        } else {
            lemma_flush_snoc(kind, ms.skip(1), c);
            if spec_flush(kind, ms).0 {
                assert(head.1 + (spec_flush(kind, ms.skip(1)).1 + step.1) =~= (head.1
                    + spec_flush(kind, ms.skip(1)).1) + step.1);
                assert(spec_flush(kind, ms.push(c)).1 == head.1 + spec_flush(
                    kind,
                    ms.skip(1).push(c),
                ).1);
            }
        }
    }
}

/// Appending one element distributes over a filter.
pub proof fn lemma_filter_snoc<A>(s: Seq<A>, pred: spec_fn(A) -> bool, x: A)
    ensures
        pred(x) ==> s.push(x).filter(pred) == s.filter(pred).push(x),
        !pred(x) ==> s.push(x).filter(pred) == s.filter(pred),
{
    assert(s.push(x).drop_last() =~= s);
    assert(s.push(x).last() == x);
    reveal(Seq::filter);
}

/// What the drain loop sees in one pair of engine return values: a
/// negative id is a timeout, an idle report or a drain-level error,
/// depending on the status; a non-negative id is a completion.
pub open spec fn spec_classify_drain(
    reqid: i64,
    loop_status: u32,
    message: Seq<char>,
    location: Seq<char>,
    attrs: Seq<AttrModel>,
) -> DrainModel {
    if reqid < 0 && loop_status == HYPERDEX_CLIENT_TIMEOUT {
        DrainModel::TimedOut
    } else if reqid < 0 && loop_status == HYPERDEX_CLIENT_NONEPENDING {
        DrainModel::NonePending
    } else if reqid < 0 {
        DrainModel::HardError(ErrorModel { status: loop_status, message, location })
    } else {
        DrainModel::Completed(
            CompletionModel { id: reqid, status: loop_status, message, location, attrs },
        )
    }
}

/// The status one completion resolves under: a drain-level failure
/// overrides the per-operation status word the submission's
/// out-parameter holds.
pub fn effective_status(loop_status: u32, op_status: u32) -> (s: u32)
    ensures
        loop_status == HYPERDEX_CLIENT_SUCCESS ==> s == op_status,
        loop_status != HYPERDEX_CLIENT_SUCCESS ==> s == loop_status,
{
    if loop_status == HYPERDEX_CLIENT_SUCCESS {
        op_status
    } else {
        loop_status
    }
}

/// Classifies one pair of engine return values for
/// [`Session::handle_drain`].
pub fn classify_drain(
    reqid: i64,
    loop_status: u32,
    message: String,
    location: String,
    attrs: Vec<RawAttribute>,
) -> (d: DrainOutcome)
    ensures
        d.deep_view() == spec_classify_drain(reqid, loop_status, message@, location@, attrs.deep_view()),
{
    if reqid < 0 && loop_status == HYPERDEX_CLIENT_TIMEOUT {
        DrainOutcome::TimedOut
    } else if reqid < 0 && loop_status == HYPERDEX_CLIENT_NONEPENDING {
        DrainOutcome::NonePending
    } else if reqid < 0 {
        DrainOutcome::HardError { status: loop_status, message, location }
    } else {
        DrainOutcome::Completed(Completion { id: reqid, status: loop_status, message, location, attrs })
    }
}

/// A session: the pending-operation table, the side list of
/// early-arriving completions, and the shutdown flag.
#[derive(Debug)]
pub struct Session {
    table: Vec<PendingEntry>,
    backlog: Vec<Completion>,
    stopped: bool,
}

impl View for Session {
    type V = SessionModel;

    closed spec fn view(&self) -> SessionModel {
        SessionModel {
            table: self.table.deep_view(),
            backlog: self.backlog.deep_view(),
            stopped: self.stopped,
        }
    }
}

impl Session {
    /// A fresh session: nothing pending, nothing backlogged, running.
    pub fn new() -> (s: Session)
        ensures
            s@ == (SessionModel {
                table: Seq::<(i64, HyperState)>::empty(),
                backlog: Seq::<CompletionModel>::empty(),
                stopped: false,
            }),
            session_inv(s@),
    {
        let s = Session { table: Vec::new(), backlog: Vec::new(), stopped: false };
        proof {
            assert(s@.table =~= Seq::<(i64, HyperState)>::empty());
            assert(s@.backlog =~= Seq::<CompletionModel>::empty());
        }
        s
    }

    /// Whether shutdown has been observed.
    pub fn is_stopped(&self) -> (r: bool)
        ensures
            r == self@.stopped,
    {
        self.stopped
    }

    /// How many operations are pending.
    pub fn pending_count(&self) -> (n: usize)
        ensures
            n == self@.table.len(),
    {
        self.table.len()
    }

    /// The position of the table entry carrying `id`, if any.
    fn find_entry(&self, id: i64) -> (r: Option<usize>)
        ensures
            match r {
                Some(i) => i < self@.table.len() && self@.table[i as int].0 == id,
                None => !table_contains(self@.table, id),
            },
    {
        let mut i: usize = 0;
        while i < self.table.len()
            invariant
                i <= self.table@.len(),
                forall|j: int| 0 <= j < i ==> (#[trigger] self@.table[j]).0 != id,
            decreases self.table@.len() - i,
        {
            if self.table[i].id == id {
                return Some(i);
            }
            i = i + 1;
        }
        None
    }

    /// Whether an operation is registered under `id`.
    pub fn is_pending(&self, id: i64) -> (r: bool)
        ensures
            r == table_contains(self@.table, id),
    {
        match self.find_entry(id) {
            Some(_) => true,
            None => false,
        }
    }

    /// The position of the first set-aside completion whose id is now
    /// registered: the one the drain loop serves, with its payload read
    /// from the submission's out-parameters, before draining the engine
    /// again.
    #[verifier::loop_isolation(false)]
    pub fn first_ready_retry(&self, retries: &Vec<(i64, u32)>) -> (r: Option<usize>)
        ensures
            match r {
                Some(i) => i < retries@.len() && table_contains(
                    self@.table,
                    retries@[i as int].0,
                ) && forall|j: int|
                    0 <= j < i ==> !table_contains(self@.table, (#[trigger] retries@[j]).0),
                None => forall|j: int|
                    0 <= j < retries@.len() ==> !table_contains(
                        self@.table,
                        (#[trigger] retries@[j]).0,
                    ),
            },
    {
        let mut i: usize = 0;
        while i < retries.len()
            invariant
                i <= retries@.len(),
                forall|j: int|
                    0 <= j < i ==> !table_contains(self@.table, (#[trigger] retries@[j]).0),
            decreases retries@.len() - i,
        {
            if self.is_pending(retries[i].0) {
                return Some(i);
            }
            i = i + 1;
        }
        None
    }

    /// Registers the continuation for a freshly issued operation, then
    /// replays any completions for it that the worker had already
    /// drained and set aside: the registration race loses no
    /// completion.
    #[verifier::loop_isolation(false)]
    pub fn register(&mut self, id: i64, kind: HyperState) -> (acts: Vec<Action>)
        requires
            session_inv(old(self)@),
            !old(self)@.stopped,
            !table_contains(old(self)@.table, id),
            id >= 0,
        ensures
            session_inv(final(self)@),
            final(self)@ == spec_register_step(old(self)@, id, kind).0,
            acts.deep_view() == spec_register_step(old(self)@, id, kind).1,
    {
        let ghost s0 = self@;
        let ghost is_match = |c: CompletionModel| c.id == id;
        let ghost no_match = |c: CompletionModel| c.id != id;
        let mut pending: Vec<Completion> = Vec::new();
        core::mem::swap(&mut pending, &mut self.backlog);
        let ghost full_b = pending.deep_view();
        proof {
            assert(full_b == s0.backlog);
        }
        let total: usize = pending.len();
        let mut rest: Vec<Completion> = Vec::new();
        let mut acts: Vec<Action> = Vec::new();
        let mut alive: bool = true;
        let mut done: usize = 0;
        proof {
            assert(full_b.take(0) =~= Seq::<CompletionModel>::empty());
            assert(full_b.skip(0) =~= full_b);
            assert(rest.deep_view() =~= Seq::<CompletionModel>::empty());
            assert(acts.deep_view() =~= Seq::<ActionModel>::empty());
            reveal(Seq::filter);
        }
        while pending.len() > 0
            invariant
                total == full_b.len(),
                done + pending@.len() == total,
                pending.deep_view() == full_b.skip(done as int),
                rest.deep_view() == full_b.take(done as int).filter(no_match),
                alive == spec_flush(kind, full_b.take(done as int).filter(is_match)).0,
                acts.deep_view() == spec_flush(kind, full_b.take(done as int).filter(is_match)).1,
            decreases pending@.len(),
        {
            let ghost taken = full_b.take(done as int);
            let ghost pre_pending = pending@;
            let ghost pre_deep = pending.deep_view();
            let c = pending.remove(0);
            let ghost cm = c.deep_view();
            proof {
                assert(cm == pre_deep[0]);
                assert(cm == full_b.skip(done as int)[0]);
                assert(cm == full_b[done as int]);
                assert forall|j: int| 0 <= j < pending@.len() implies #[trigger] pending
                    .deep_view()[j] == full_b.skip(done as int + 1)[j] by {
                    assert(pending@[j] == pre_pending[j + 1]);
                    assert(pending.deep_view()[j] == pending@[j].deep_view());
                    assert(pre_deep[j + 1] == pre_pending[j + 1].deep_view());
                    assert(pre_deep[j + 1] == full_b.skip(done as int)[j + 1]);
                }
                assert(pending.deep_view() =~= full_b.skip(done as int + 1));
                assert(full_b.take(done as int + 1) =~= taken.push(cm));
                lemma_filter_snoc(taken, is_match, cm);
                lemma_filter_snoc(taken, no_match, cm);
                lemma_flush_snoc(kind, taken.filter(is_match), cm);
            }
            if c.id == id {
                if alive {
                    let (removed, mut delivered) = deliver_one(kind, c);
                    alive = !removed;
                    let ghost pre_acts = acts.deep_view();
                    let ghost delivered_model = delivered.deep_view();
                    acts.append(&mut delivered);
                    proof {
                        assert forall|j: int| 0 <= j < acts@.len() implies #[trigger] acts
                            .deep_view()[j] == (pre_acts + delivered_model)[j] by {
                            if j < pre_acts.len() {
                                assert(acts.deep_view()[j] == acts@[j].deep_view());
                            } else {
                                assert(acts.deep_view()[j] == acts@[j].deep_view());
                                assert(delivered_model[j - pre_acts.len()] == acts@[j].deep_view());
                            }
                        }
                        assert(acts.deep_view() =~= pre_acts + delivered_model);
                        assert(acts.deep_view() =~= pre_acts + spec_deliver_one(kind, cm).1);
                    }
                }
            } else {
                let ghost pre_rest = rest.deep_view();
                rest.push(c);
                proof {
                    assert forall|j: int| 0 <= j < pre_rest.len() implies #[trigger] rest
                        .deep_view()[j] == pre_rest[j] by {}
                    assert(rest.deep_view() =~= pre_rest.push(cm));
                }
            }
            done = done + 1;
        }
        proof {
            assert(full_b.take(full_b.len() as int) =~= full_b);
        }
        self.backlog = rest;
        if alive {
            let ghost pre_table = self@.table;
            self.table.push(PendingEntry { id, state: kind });
            proof {
                assert forall|j: int| 0 <= j < pre_table.len() implies #[trigger] self@.table[j]
                    == pre_table[j] by {}
                assert(self@.table =~= pre_table.push((id, kind)));
            }
        }
        proof {
            let step = spec_register_step(s0, id, kind);
            assert(self@.table == step.0.table);
            assert(self@.backlog == step.0.backlog);
            assert(self@ == step.0);
            // the invariant: unique ids, and no backlogged id registered
            assert forall|i: int, j: int| 0 <= i < j < self@.table.len() implies (
            #[trigger] self@.table[i]).0 != (#[trigger] self@.table[j]).0 by {
                if j == s0.table.len() {
                    assert(self@.table[i] == s0.table[i]);
                }
            }
            assert forall|i: int| 0 <= i < self@.backlog.len() implies !table_contains(
                self@.table,
                (#[trigger] self@.backlog[i]).id,
            ) by {
                let b = self@.backlog[i];
                s0.backlog.lemma_filter_pred(no_match, i);
                s0.backlog.lemma_filter_contains_rev(no_match, b);
                let k = choose|k: int| 0 <= k < s0.backlog.len() && s0.backlog[k] == b;
                assert(!table_contains(s0.table, b.id));
                if table_contains(self@.table, b.id) {
                    let t = table_index_of(self@.table, b.id);
                    assert(0 <= t < self@.table.len() && self@.table[t].0 == b.id);
                    if t < s0.table.len() {
                        assert(s0.table[t].0 == b.id);
                    }
                }
            }
        }
        acts
    }

    /// Routes what one blocking drain call reported: a completion for a
    /// registered id is delivered to its continuation, and one for an
    /// id not yet registered is set aside for [`Session::register`] to
    /// replay, never dropped.
    #[verifier::loop_isolation(false)]
    pub fn handle_drain(&mut self, outcome: DrainOutcome) -> (acts: Vec<Action>)
        requires
            session_inv(old(self)@),
        ensures
            session_inv(final(self)@),
            final(self)@ == spec_drain_step(old(self)@, outcome.deep_view()).0,
            acts.deep_view() == spec_drain_step(old(self)@, outcome.deep_view()).1,
    {
        let ghost s0 = self@;
        if self.stopped {
            let acts: Vec<Action> = Vec::new();
            proof {
                assert(acts.deep_view() =~= Seq::<ActionModel>::empty());
            }
            return acts;
        }
        match outcome {
            DrainOutcome::TimedOut => {
                let acts: Vec<Action> = Vec::new();
                proof {
                    assert(acts.deep_view() =~= Seq::<ActionModel>::empty());
                }
                acts
            },
            DrainOutcome::NonePending => {
                let acts: Vec<Action> = Vec::new();
                proof {
                    assert(acts.deep_view() =~= Seq::<ActionModel>::empty());
                }
                acts
            },
            DrainOutcome::HardError { status, message, location } => {
                let acts = vec![
                    Action::SideError { error: HyperError::new(status, message, location) },
                ];
                proof {
                    assert(acts.deep_view() =~= spec_drain_step(s0, DrainModel::HardError(
                        ErrorModel { status, message: message@, location: location@ },
                    )).1);
                }
                acts
            },
            DrainOutcome::Completed(c) => {
                let ghost cm = c.deep_view();
                match self.find_entry(c.id) {
                    Some(i) => {
                        proof {
                            let j = table_index_of(s0.table, cm.id);
                            assert(table_contains(s0.table, cm.id));
                            assert(0 <= j < s0.table.len() && s0.table[j].0 == cm.id);
                            if j != i {
                                assert(s0.table[i as int].0 == s0.table[j].0);
                            }
                            assert(j == i);
                        }
                        let kind = self.table[i].state;
                        let (removed, acts) = deliver_one(kind, c);
                        if removed {
                            let ghost pre_table = self@.table;
                            self.table.remove(i);
                            proof {
                                assert(self@.table =~= pre_table.remove(i as int));
                                assert forall|a: int, b: int|
                                    0 <= a < b < self@.table.len() implies (
                                #[trigger] self@.table[a]).0 != (#[trigger] self@.table[b]).0 by {
                                    let a0 = if a < i { a } else { a + 1 };
                                    let b0 = if b < i { b } else { b + 1 };
                                    assert(self@.table[a] == pre_table[a0]);
                                    assert(self@.table[b] == pre_table[b0]);
                                }
                                assert forall|k: int|
                                    0 <= k < self@.backlog.len() implies !table_contains(
                                    self@.table,
                                    (#[trigger] self@.backlog[k]).id,
                                ) by {
                                    if table_contains(self@.table, self@.backlog[k].id) {
                                        let t = table_index_of(self@.table, self@.backlog[k].id);
                                        let t0 = if t < i {
                                            t
                                        } else {
                                            t + 1
                                        };
                                        assert(self@.table[t] == pre_table[t0]);
                                        assert(table_contains(s0.table, self@.backlog[k].id));
                                    }
                                }
                            }
                        }
                        acts
                    },
                    None => {
                        let ghost pre_backlog = self@.backlog;
                        self.backlog.push(c);
                        let acts: Vec<Action> = Vec::new();
                        proof {
                            assert forall|j: int| 0 <= j < pre_backlog.len() implies #[trigger] self@
                                .backlog[j] == pre_backlog[j] by {}
                            assert(self@.backlog =~= pre_backlog.push(cm));
                            assert(acts.deep_view() =~= Seq::<ActionModel>::empty());
                        }
                        acts
                    },
                }
            },
        }
    }

    /// Observes shutdown: every continuation still pending receives
    /// exactly one cancellation, in table order, and the session drains
    /// no further.
    #[verifier::loop_isolation(false)]
    pub fn shutdown(&mut self) -> (acts: Vec<Action>)
        requires
            session_inv(old(self)@),
        ensures
            session_inv(final(self)@),
            final(self)@ == spec_shutdown_step(old(self)@).0,
            acts.deep_view() == spec_shutdown_step(old(self)@).1,
    {
        let ghost s0 = self@;
        if self.stopped {
            let acts: Vec<Action> = Vec::new();
            proof {
                assert(acts.deep_view() =~= Seq::<ActionModel>::empty());
            }
            return acts;
        }
        self.stopped = true;
        let mut acts: Vec<Action> = Vec::new();
        let mut i: usize = 0;
        while i < self.table.len()
            invariant
                i <= self.table@.len(),
                self@.table == s0.table,
                acts.deep_view().len() == i as int,
                forall|j: int|
                    0 <= j < i ==> #[trigger] acts.deep_view()[j] == cancel_action(s0.table[j]),
            decreases self.table@.len() - i,
        {
            let e = self.table[i];
            let a = match e.state {
                HyperState::HyperStateOp => Action::Resolve {
                    id: e.id,
                    result: Err(HyperError::cancelled()),
                },
                HyperState::HyperStateSearch => Action::StreamEnd {
                    id: e.id,
                    error: Some(HyperError::cancelled()),
                },
            };
            let ghost pre_acts = acts.deep_view();
            let ghost am = a.deep_view();
            acts.push(a);
            proof {
                assert forall|j: int| 0 <= j < pre_acts.len() implies #[trigger] acts.deep_view()[j]
                    == pre_acts[j] by {}
                assert(acts.deep_view()[i as int] == am);
                assert(s0.table[i as int] == (e.id, e.state));
                assert(am == cancel_action(s0.table[i as int]));
            }
            i = i + 1;
        }
        self.table = Vec::new();
        self.backlog = Vec::new();
        proof {
            assert(self@.table =~= Seq::<(i64, HyperState)>::empty());
            assert(self@.backlog =~= Seq::<CompletionModel>::empty());
            assert(acts.deep_view() =~= Seq::new(
                s0.table.len(),
                |j: int| cancel_action(s0.table[j]),
            ));
        }
        acts
    }
}

} // verus!
