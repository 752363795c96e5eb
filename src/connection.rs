//! Lifecycle of the single printer connection: reuse it while it works, reopen
//! it for another printer, and drop it after any failure.
use vstd::prelude::*;

verus! {

/// What the connection slot holds: nothing, or a handle open to a product id.
#[derive(Debug, Clone, Copy, PartialEq, Eq, Structural)]
pub enum ConnState {
    Closed,
    Open(u16),
}

/// What happened, as reported by the code that owns the device.
#[derive(Debug, Clone, Copy, PartialEq, Eq, Structural)]
pub enum ConnEvent {
    /// A print wants a connection to this product id.
    Acquire(u16),
    /// Opening the device for this product id succeeded.
    Opened(u16),
    /// Opening the device failed.
    OpenFailed,
    /// The operation run on the connection succeeded.
    OperationSucceeded,
    /// The operation run on the connection failed.
    OperationFailed,
    /// The connection is no longer wanted.
    Close,
}

/// What the owner of the device must do next.
#[derive(Debug, Clone, Copy, PartialEq, Eq, Structural)]
pub enum ConnAction {
    /// Nothing to do.
    Idle,
    /// Run the operation on the open handle.
    RunOperation,
    /// Open the device for this product id.
    OpenDevice(u16),
    /// Drop the current handle, then open the device for this product id.
    CloseThenOpen(u16),
    /// Drop the current handle.
    CloseDevice,
    /// Report that no connection could be had.
    ReportFailure,
}

/// The state machine: a handle to the same product is reused; one to another
/// product is dropped before the new one is opened; a failed operation drops
/// the handle so that the next request opens afresh.
pub open spec fn conn_step(s: ConnState, e: ConnEvent) -> (ConnState, ConnAction) {
    match e {
        ConnEvent::Acquire(p) => match s {
            ConnState::Open(q) => if q == p {
                (s, ConnAction::RunOperation)
            } else {
                (ConnState::Closed, ConnAction::CloseThenOpen(p))
            },
            ConnState::Closed => (ConnState::Closed, ConnAction::OpenDevice(p)),
        },
        ConnEvent::Opened(p) => (ConnState::Open(p), ConnAction::RunOperation),
        ConnEvent::OpenFailed => (ConnState::Closed, ConnAction::ReportFailure),
        ConnEvent::OperationSucceeded => (s, ConnAction::Idle),
        ConnEvent::OperationFailed => (
            ConnState::Closed,
            match s {
                ConnState::Open(_) => ConnAction::CloseDevice,
                ConnState::Closed => ConnAction::Idle,
            },
        ),
        ConnEvent::Close => (
            ConnState::Closed,
            match s {
                ConnState::Open(_) => ConnAction::CloseDevice,
                ConnState::Closed => ConnAction::Idle,
            },
        ),
    }
}

/// The connection manager's decisions; the device itself is held by its owner.
#[derive(Debug)]
pub struct ConnectionManager {
    pub state: ConnState,
}

impl ConnectionManager {
    pub fn new() -> (r: ConnectionManager)
        ensures
            r.state == ConnState::Closed,
    {
        ConnectionManager { state: ConnState::Closed }
    }

    /// Takes one event and says what to do next.
    pub fn handle(&mut self, event: ConnEvent) -> (r: ConnAction)
        ensures
            (final(self).state, r) == conn_step(old(self).state, event),
    {
        let (s, a) = match event {
            ConnEvent::Acquire(p) => match self.state {
                ConnState::Open(q) => if q == p {
                    (self.state, ConnAction::RunOperation)
                } else {
                    (ConnState::Closed, ConnAction::CloseThenOpen(p))
                },
                ConnState::Closed => (ConnState::Closed, ConnAction::OpenDevice(p)),
            },
            ConnEvent::Opened(p) => (ConnState::Open(p), ConnAction::RunOperation),
            ConnEvent::OpenFailed => (ConnState::Closed, ConnAction::ReportFailure),
            ConnEvent::OperationSucceeded => (self.state, ConnAction::Idle),
            ConnEvent::OperationFailed | ConnEvent::Close => (
                ConnState::Closed,
                match self.state {
                    ConnState::Open(_) => ConnAction::CloseDevice,
                    ConnState::Closed => ConnAction::Idle,
                },
            ),
        };
        self.state = s;
        a
    }
}

/// The actions for a sequence of events, from state `s`.
pub open spec fn conn_run(s: ConnState, evs: Seq<ConnEvent>) -> Seq<ConnAction>
    decreases evs.len(),
{
    if evs.len() == 0 {
        Seq::empty()
    } else {
        let (s1, a) = conn_step(s, evs[0]);
        seq![a] + conn_run(s1, evs.drop_first())
    }
}

/// How many of the actions open the device.
pub open spec fn open_calls(acts: Seq<ConnAction>) -> nat
    decreases acts.len(),
{
    if acts.len() == 0 {
        0
    } else {
        (match acts[0] {
            ConnAction::OpenDevice(_) | ConnAction::CloseThenOpen(_) => 1nat,
            _ => 0nat,
        }) + open_calls(acts.drop_first())
    }
}

/// Two requests in a row for one product, the first served, open the device
/// at most once: once from a closed slot or another product, never when it is
/// already open to that product.
pub proof fn lemma_same_product_opens_once(s: ConnState, p: u16)
    ensures
        open_calls(
            conn_run(
                s,
                seq![
                    ConnEvent::Acquire(p),
                    ConnEvent::Opened(p),
                    ConnEvent::OperationSucceeded,
                    ConnEvent::Acquire(p),
                ],
            ),
        ) == if s == ConnState::Open(p) {
            0nat
        } else {
            1nat
        },
{
    let evs = seq![
        ConnEvent::Acquire(p),
        ConnEvent::Opened(p),
        ConnEvent::OperationSucceeded,
        ConnEvent::Acquire(p),
    ];
    let e1 = evs.drop_first();
    let e2 = e1.drop_first();
    let e3 = e2.drop_first();
    let e4 = e3.drop_first();
    assert(e1 =~= seq![ConnEvent::Opened(p), ConnEvent::OperationSucceeded, ConnEvent::Acquire(p)]);
    assert(e2 =~= seq![ConnEvent::OperationSucceeded, ConnEvent::Acquire(p)]);
    assert(e3 =~= seq![ConnEvent::Acquire(p)]);
    assert(e4 =~= Seq::<ConnEvent>::empty());
    let (s1, a1) = conn_step(s, ConnEvent::Acquire(p));
    let open = ConnState::Open(p);
    let acts = seq![a1, ConnAction::RunOperation, ConnAction::Idle, ConnAction::RunOperation];
    assert(conn_run(open, e4) =~= Seq::<ConnAction>::empty());
    assert(conn_run(open, e3) =~= seq![ConnAction::RunOperation]);
    assert(conn_run(open, e2) =~= seq![ConnAction::Idle, ConnAction::RunOperation]);
    assert(conn_run(s1, e1) =~= seq![ConnAction::RunOperation, ConnAction::Idle, ConnAction::RunOperation]);
    assert(conn_run(s, evs) =~= acts);
    assert(acts.drop_first() =~= seq![ConnAction::RunOperation, ConnAction::Idle, ConnAction::RunOperation]);
    assert(acts.drop_first().drop_first() =~= seq![ConnAction::Idle, ConnAction::RunOperation]);
    assert(acts.drop_first().drop_first().drop_first() =~= seq![ConnAction::RunOperation]);
    assert(acts.drop_first().drop_first().drop_first().drop_first() =~= Seq::<ConnAction>::empty());
    assert(open_calls(Seq::<ConnAction>::empty()) == 0);
    assert(open_calls(seq![ConnAction::RunOperation]) == 0);
    assert(open_calls(seq![ConnAction::Idle, ConnAction::RunOperation]) == 0);
    assert(open_calls(acts.drop_first()) == 0);
    if s == ConnState::Open(p) {
        assert(a1 == ConnAction::RunOperation);
    } else {
        assert(a1 == ConnAction::OpenDevice(p) || a1 == ConnAction::CloseThenOpen(p));
    }
}

/// A request for another product drops the open handle before opening anew.
pub proof fn lemma_switch_closes_first(q: u16, p: u16)
    requires
        q != p,
    ensures
        conn_step(ConnState::Open(q), ConnEvent::Acquire(p)) == (
            ConnState::Closed,
            ConnAction::CloseThenOpen(p),
        ),
{
}

/// A failed operation drops the handle, and the next request opens the device again.
pub proof fn lemma_failure_forces_reopen(s: ConnState, p: u16)
    ensures
        conn_step(s, ConnEvent::OperationFailed).0 == ConnState::Closed,
        conn_step(conn_step(s, ConnEvent::OperationFailed).0, ConnEvent::Acquire(p)).1
            == ConnAction::OpenDevice(p),
{
}

} // verus!
