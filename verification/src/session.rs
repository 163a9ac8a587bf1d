//! What the server does for one connection: the decisions, without the
//! reading and writing.
//!
//! A session starts in `Greeting`, is `Active` once the client has been sent
//! the canvas, and ends `Terminated`. Whoever drives it hands it one event
//! after the other, together with the shared canvas, and carries out the
//! action that comes back. The canvas is only touched during a step, and the
//! registry of clients never: the two are never needed at the same time.

use vstd::prelude::*;

use crate::canvas::{Canvas, Grid};
use crate::clients::ClientUid;
use crate::network::{Frame, FrameView, Message, MessageView};

verus! {

/// Where a session stands.
#[derive(Debug, Clone, Copy, PartialEq, Eq, Structural)]
pub enum SessionState {
    /// The client has connected and has not been sent the canvas yet.
    Greeting,
    /// The client has the canvas; its edits are applied and passed on.
    Active,
    /// The session is over.
    Terminated,
}

/// Why a session was closed.
#[derive(Debug, Clone, Copy, PartialEq, Eq, Structural)]
pub enum Reason {
    /// The client said `Quit` or closed the connection.
    Left,
    /// The client sent a canvas update, which only the server may send.
    Rejected,
    /// Reading, writing or decoding failed.
    Failed,
    /// An event came that the state of the session does not allow.
    OutOfTurn,
}

/// What happened on the connection.
#[derive(Debug)]
pub enum Event {
    /// The connection has been accepted.
    Connected,
    /// A line has been read and decoded.
    Received(Frame),
    /// Reading, writing or decoding has failed.
    Failed,
}

/// The mathematical value of an event.
pub enum EventView {
    Connected,
    Received(FrameView),
    Failed,
}

impl View for Event {
    type V = EventView;

    open spec fn view(&self) -> EventView {
        match self {
            Event::Connected => EventView::Connected,
            Event::Received(frame) => EventView::Received(frame@),
            Event::Failed => EventView::Failed,
        }
    }
}

/// What is to be done after a step.
#[derive(Debug)]
pub enum Action {
    /// Send the message to the client of this session.
    Greet(Message),
    /// Send the message to every client but the one of this session.
    Forward(Message),
    /// The edit at `(x, y)` lies outside the canvas and was dropped: warn,
    /// and send nothing to anyone.
    Discard { x: usize, y: usize },
    /// Take the client off the registry and end the session.
    Close(Reason),
    /// Nothing.
    Nothing,
}

/// The mathematical value of an action.
pub enum ActionView {
    Greet(MessageView),
    Forward(MessageView),
    Discard { x: usize, y: usize },
    Close(Reason),
    Nothing,
}

impl View for Action {
    type V = ActionView;

    open spec fn view(&self) -> ActionView {
        match self {
            Action::Greet(message) => ActionView::Greet(message@),
            Action::Forward(message) => ActionView::Forward(message@),
            Action::Discard { x, y } => ActionView::Discard { x: *x, y: *y },
            Action::Close(reason) => ActionView::Close(*reason),
            Action::Nothing => ActionView::Nothing,
        }
    }
}

/// Where a step leads.
pub struct Outcome {
    /// The state of the session after the step.
    pub state: SessionState,
    /// The canvas after the step.
    pub canvas: Grid,
    /// What is to be done.
    pub action: ActionView,
}

/// The session is closed for `reason`, and the canvas stays as it is.
pub open spec fn closed(canvas: Grid, reason: Reason) -> Outcome {
    Outcome { state: SessionState::Terminated, canvas, action: ActionView::Close(reason) }
}

/// The step that a session in `state` takes on `event`.
///
/// | state | event | next state | canvas | action |
/// |---|---|---|---|---|
/// | `Greeting` | `Connected` | `Active` | kept | greet with a copy of the canvas |
/// | `Greeting` | `Received` | `Terminated` | kept | close, out of turn |
/// | `Active` | `SetChar` inside the canvas | `Active` | cell set | forward the edit |
/// | `Active` | `SetChar` outside the canvas | `Active` | kept | discard |
/// | `Active` | `Quit` | `Terminated` | kept | close, left |
/// | `Active` | a canvas update, whole or announced | `Terminated` | kept | close, rejected |
/// | `Active` | `Connected` | `Terminated` | kept | close, out of turn |
/// | `Greeting`, `Active` | `Failed` | `Terminated` | kept | close, failed |
/// | `Terminated` | any | `Terminated` | kept | nothing |
pub open spec fn transition(state: SessionState, canvas: Grid, event: EventView) -> Outcome {
    match state {
        SessionState::Greeting => match event {
            EventView::Connected => Outcome {
                state: SessionState::Active,
                canvas,
                action: ActionView::Greet(MessageView::CanvasUpdate { canvas }),
            },
            EventView::Received(_) => closed(canvas, Reason::OutOfTurn),
            EventView::Failed => closed(canvas, Reason::Failed),
        },
        SessionState::Active => match event {
            EventView::Connected => closed(canvas, Reason::OutOfTurn),
            EventView::Received(FrameView::Complete(MessageView::SetChar { x, y, c })) => {
                if canvas.contains(x as int, y as int) {
                    Outcome {
                        state: SessionState::Active,
                        canvas: canvas.set(x as int, y as int, c),
                        action: ActionView::Forward(MessageView::SetChar { x, y, c }),
                    }
                } else {
                    Outcome {
                        state: SessionState::Active,
                        canvas,
                        action: ActionView::Discard { x, y },
                    }
                }
            },
            EventView::Received(FrameView::Complete(MessageView::Quit)) => closed(
                canvas,
                Reason::Left,
            ),
            EventView::Received(FrameView::Complete(MessageView::CanvasUpdate { .. })) => closed(
                canvas,
                Reason::Rejected,
            ),
            EventView::Received(FrameView::Pending { .. }) => closed(canvas, Reason::Rejected),
            EventView::Failed => closed(canvas, Reason::Failed),
        },
        SessionState::Terminated => Outcome {
            state: SessionState::Terminated,
            canvas,
            action: ActionView::Nothing,
        },
    }
}

/// The server's side of one connection.
#[derive(Debug)]
pub struct Session {
    uid: ClientUid,
    state: SessionState,
}

impl Session {
    /// The uid of the client.
    pub closed spec fn spec_uid(&self) -> ClientUid {
        self.uid
    }

    /// Where the session stands.
    pub closed spec fn spec_state(&self) -> SessionState {
        self.state
    }

    /// The session of a client that has just been registered under `uid`.
    pub fn new(uid: ClientUid) -> (session: Session)
        ensures
            session.spec_uid() == uid,
            session.spec_state() == SessionState::Greeting,
    {
        Session { uid, state: SessionState::Greeting }
    }

    /// The uid of the client.
    pub fn uid(&self) -> (uid: ClientUid)
        ensures
            uid == self.spec_uid(),
    {
        self.uid
    }

    /// Where the session stands.
    pub fn state(&self) -> (state: SessionState)
        ensures
            state == self.spec_state(),
    {
        self.state
    }

    /// Takes one step: changes the state and the canvas as `transition`
    /// says, and returns what is to be done.
    pub fn step(&mut self, canvas: &mut Canvas, event: Event) -> (action: Action)
        ensures
            final(self).spec_uid() == old(self).spec_uid(),
            final(self).spec_state() == transition(old(self).spec_state(), old(canvas)@, event@).state,
            final(canvas)@ == transition(old(self).spec_state(), old(canvas)@, event@).canvas,
            action@ == transition(old(self).spec_state(), old(canvas)@, event@).action,
    {
        match self.state {
            SessionState::Greeting => match event {
                Event::Connected => {
                    self.state = SessionState::Active;
                    Action::Greet(Message::CanvasUpdate { c: canvas.clone() })
                },
                Event::Received(_) => {
                    self.state = SessionState::Terminated;
                    Action::Close(Reason::OutOfTurn)
                },
                Event::Failed => {
                    self.state = SessionState::Terminated;
                    Action::Close(Reason::Failed)
                },
            },
            SessionState::Active => match event {
                Event::Connected => {
                    self.state = SessionState::Terminated;
                    Action::Close(Reason::OutOfTurn)
                },
                Event::Received(Frame::Complete(Message::SetChar { x, y, c })) => {
                    if canvas.is_in(x, y) {
                        canvas.set(x, y, c);
                        Action::Forward(Message::SetChar { x, y, c })
                    } else {
                        Action::Discard { x, y }
                    }
                },
                Event::Received(Frame::Complete(Message::Quit)) => {
                    self.state = SessionState::Terminated;
                    Action::Close(Reason::Left)
                },
                Event::Received(Frame::Complete(Message::CanvasUpdate { .. })) => {
                    self.state = SessionState::Terminated;
                    Action::Close(Reason::Rejected)
                },
                Event::Received(Frame::Pending(_)) => {
                    self.state = SessionState::Terminated;
                    Action::Close(Reason::Rejected)
                },
                Event::Failed => {
                    self.state = SessionState::Terminated;
                    Action::Close(Reason::Failed)
                },
            },
            SessionState::Terminated => Action::Nothing,
        }
    }
}

/// Nothing but an edit for a cell of the canvas, taken by an active
/// session, changes the canvas: no failure and no other message of one
/// session shows in what the others see. And a session that has ended stays
/// ended.
pub proof fn lemma_only_edits_change_the_canvas(
    state: SessionState,
    canvas: Grid,
    event: EventView,
)
    requires
        canvas.wf(),
    ensures
        transition(state, canvas, event).canvas.wf(),
        transition(state, canvas, event).canvas.width == canvas.width,
        transition(state, canvas, event).canvas.height == canvas.height,
        transition(state, canvas, event).canvas != canvas ==> state == SessionState::Active && (
        event matches EventView::Received(FrameView::Complete(MessageView::SetChar { x, y, c }))
            && canvas.contains(x as int, y as int)),
        state == SessionState::Terminated ==> transition(state, canvas, event).state
            == SessionState::Terminated,
{
}

/// One character edit as a client sends it.
pub struct Edit {
    pub x: usize,
    pub y: usize,
    pub c: char,
}

impl Edit {
    /// The event of this edit arriving at a session.
    pub open spec fn event(self) -> EventView {
        EventView::Received(
            FrameView::Complete(MessageView::SetChar { x: self.x, y: self.y, c: self.c }),
        )
    }

    /// The edit is for the cell at `(x, y)`.
    pub open spec fn at(self, x: int, y: int) -> bool {
        self.x == x && self.y == y
    }
}

/// No two of the edits are for the same cell.
pub open spec fn distinct_cells(edits: Seq<Edit>) -> bool {
    forall|i: int, j: int|
        0 <= i < j < edits.len() ==> !(#[trigger] edits[i]).at(
            (#[trigger] edits[j]).x as int,
            edits[j].y as int,
        )
}

/// The canvas after active sessions have taken the edits one at a time, in
/// the order of `edits`. Each edit is one step of the session that received
/// it; with the canvas behind a lock that is held for a step, any run of
/// sessions side by side is such a sequence.
pub open spec fn canvas_after(canvas: Grid, edits: Seq<Edit>) -> Grid
    decreases edits.len(),
{
    if edits.len() == 0 {
        canvas
    } else {
        transition(
            SessionState::Active,
            canvas_after(canvas, edits.drop_last()),
            edits.last().event(),
        ).canvas
    }
}

/// Edits change cells and nothing else: the canvas keeps its size, a cell
/// holds what the last edit for it wrote, and a cell for which there is no
/// edit holds what it held before.
pub proof fn lemma_canvas_after(canvas: Grid, edits: Seq<Edit>)
    requires
        canvas.wf(),
    ensures
        canvas_after(canvas, edits).wf(),
        canvas_after(canvas, edits).width == canvas.width,
        canvas_after(canvas, edits).height == canvas.height,
        forall|x: int, y: int| #![trigger canvas_after(canvas, edits).rows[y][x]]
            canvas.contains(x, y) ==> {
                ||| exists|i: int|
                    0 <= i < edits.len() && (#[trigger] edits[i]).at(x, y) && canvas_after(
                        canvas,
                        edits,
                    ).rows[y][x] == edits[i].c
                ||| (forall|i: int| 0 <= i < edits.len() ==> !(#[trigger] edits[i]).at(x, y))
                    && canvas_after(canvas, edits).rows[y][x] == canvas.rows[y][x]
            },
    decreases edits.len(),
{
    if edits.len() > 0 {
        let head = edits.drop_last();
        let last = edits.last();
        let before = canvas_after(canvas, head);
        let after = canvas_after(canvas, edits);
        lemma_canvas_after(canvas, head);
        assert forall|x: int, y: int| #![trigger after.rows[y][x]] canvas.contains(x, y) implies {
            ||| exists|i: int|
                0 <= i < edits.len() && (#[trigger] edits[i]).at(x, y) && after.rows[y][x]
                    == edits[i].c
            ||| (forall|i: int| 0 <= i < edits.len() ==> !(#[trigger] edits[i]).at(x, y))
                && after.rows[y][x] == canvas.rows[y][x]
        } by {
            if last.at(x, y) {
                assert(edits[edits.len() - 1].at(x, y));
            } else {
                assert(after.rows[y][x] == before.rows[y][x]);
                if exists|i: int|
                    0 <= i < head.len() && (#[trigger] head[i]).at(x, y) && before.rows[y][x]
                        == head[i].c {
                    let i = choose|i: int|
                        0 <= i < head.len() && (#[trigger] head[i]).at(x, y) && before.rows[y][x]
                            == head[i].c;
                    assert(edits[i] == head[i]);
                } else {
                    assert forall|i: int| 0 <= i < edits.len() implies !(#[trigger] edits[i]).at(
                        x,
                        y,
                    ) by {
                        if i < head.len() {
                            assert(edits[i] == head[i]);
                        }
                    }
                }
            }
        }
    }
}

/// No update is lost: after edits for cells that are all different, every
/// edit for a cell of the canvas is in the canvas, and the cells for which
/// there was no edit are as they were.
pub proof fn lemma_no_lost_update(canvas: Grid, edits: Seq<Edit>)
    requires
        canvas.wf(),
        distinct_cells(edits),
    ensures
        canvas_after(canvas, edits).wf(),
        canvas_after(canvas, edits).width == canvas.width,
        canvas_after(canvas, edits).height == canvas.height,
        forall|i: int|
            0 <= i < edits.len() && canvas.contains(
                (#[trigger] edits[i]).x as int,
                edits[i].y as int,
            ) ==> canvas_after(canvas, edits).cell(edits[i].x as int, edits[i].y as int)
                == edits[i].c,
        forall|x: int, y: int| #![trigger canvas_after(canvas, edits).rows[y][x]]
            canvas.contains(x, y) && (forall|i: int|
                0 <= i < edits.len() ==> !(#[trigger] edits[i]).at(x, y)) ==> canvas_after(
                canvas,
                edits,
            ).cell(x, y) == canvas.cell(x, y),
{
    lemma_canvas_after(canvas, edits);
    let after = canvas_after(canvas, edits);
    assert forall|i: int|
        0 <= i < edits.len() && canvas.contains(
            (#[trigger] edits[i]).x as int,
            edits[i].y as int,
        ) implies after.cell(edits[i].x as int, edits[i].y as int) == edits[i].c by {
        let x = edits[i].x as int;
        let y = edits[i].y as int;
        assert(edits[i].at(x, y));
        let _ = after.rows[y][x];
        let k = choose|k: int|
            0 <= k < edits.len() && (#[trigger] edits[k]).at(x, y) && after.rows[y][x]
                == edits[k].c;
        if k < i {
            assert(!edits[k].at(edits[i].x as int, edits[i].y as int));
        } else if i < k {
            assert(!edits[i].at(edits[k].x as int, edits[k].y as int));
        }
    }
}

/// The order in which edits for different cells arrive does not show in the
/// canvas: the same edits in any other order leave the same canvas.
pub proof fn lemma_order_does_not_matter(canvas: Grid, edits: Seq<Edit>, reordered: Seq<Edit>)
    requires
        canvas.wf(),
        distinct_cells(edits),
        reordered.to_multiset() == edits.to_multiset(),
    ensures
        canvas_after(canvas, reordered) == canvas_after(canvas, edits),
{
    let a = canvas_after(canvas, edits);
    let b = canvas_after(canvas, reordered);
    edits.to_multiset_ensures();
    reordered.to_multiset_ensures();
    assert forall|e: Edit| edits.contains(e) <==> reordered.contains(e) by {
        assert(edits.contains(e) <==> edits.to_multiset().count(e) > 0);
        assert(reordered.contains(e) <==> reordered.to_multiset().count(e) > 0);
    }
    assert(edits.no_duplicates()) by {
        assert forall|i: int, j: int| 0 <= i < edits.len() && 0 <= j < edits.len() && i != j implies
            edits[i] != edits[j] by {
            if i < j {
                assert(!edits[i].at(edits[j].x as int, edits[j].y as int));
            } else {
                assert(!edits[j].at(edits[i].x as int, edits[i].y as int));
            }
        }
    }
    edits.lemma_multiset_has_no_duplicates();
    reordered.lemma_multiset_has_no_duplicates_conv();
    assert(distinct_cells(reordered)) by {
        assert forall|i: int, j: int| 0 <= i < j < reordered.len() implies !(
        #[trigger] reordered[i]).at((#[trigger] reordered[j]).x as int, reordered[j].y as int) by {
            assert(reordered.contains(reordered[i]));
            assert(reordered.contains(reordered[j]));
            let p = choose|p: int| 0 <= p < edits.len() && edits[p] == reordered[i];
            let q = choose|q: int| 0 <= q < edits.len() && edits[q] == reordered[j];
            if p < q {
                assert(!edits[p].at(edits[q].x as int, edits[q].y as int));
            } else if q < p {
                assert(!edits[q].at(edits[p].x as int, edits[p].y as int));
            }
        }
    }
    lemma_no_lost_update(canvas, edits);
    lemma_no_lost_update(canvas, reordered);
    assert forall|y: int| 0 <= y < canvas.height implies #[trigger] a.rows[y] =~= b.rows[y] by {
        assert forall|x: int| 0 <= x < canvas.width implies a.rows[y][x] == b.rows[y][x] by {
            assert(canvas.contains(x, y));
            if exists|i: int| 0 <= i < edits.len() && (#[trigger] edits[i]).at(x, y) {
                let i = choose|i: int| 0 <= i < edits.len() && (#[trigger] edits[i]).at(x, y);
                assert(edits.contains(edits[i]));
                let k = choose|k: int| 0 <= k < reordered.len() && reordered[k] == edits[i];
                assert(a.cell(edits[i].x as int, edits[i].y as int) == edits[i].c);
                assert(b.cell(reordered[k].x as int, reordered[k].y as int) == reordered[k].c);
            } else {
                assert forall|k: int| 0 <= k < reordered.len() implies !(#[trigger] reordered[k]).at(
                    x,
                    y,
                ) by {
                    assert(reordered.contains(reordered[k]));
                    let p = choose|p: int| 0 <= p < edits.len() && edits[p] == reordered[k];
                    assert(!edits[p].at(x, y));
                }
                assert(a.cell(x, y) == canvas.cell(x, y));
                assert(b.cell(x, y) == canvas.cell(x, y));
            }
        }
    }
    assert(a.rows =~= b.rows);
}

} // verus!
