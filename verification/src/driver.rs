//! The frame driver: what is asked of the engine, and in which order, to get
//! from one rendered frame to the next.
//!
//! The driver never touches the engine. It issues one [`Request`] at a time;
//! the caller performs it on the working handle and hands back the
//! [`Reply`]. A frame commits the queued edits, advances the simulation,
//! and enumerates what shows in the viewport.

use vstd::prelude::*;
use crate::cull::{cull, lemma_visible_exact, spec_visible, touches, ViewExtent};
use crate::edits::{distinct_cells, Edit, EditQueue, Intent};
use crate::lattice::{Coord, Universe, Window};
use crate::lod::Scale;

verus! {

/// Where the driver stands in the cycle of a frame.
#[derive(Clone, Copy, PartialEq, Eq, Structural, Debug)]
pub enum Phase {
    /// Between frames: nothing is asked of the engine.
    Idle,
    /// The queued edits are being committed, one cell after another.
    ApplyEdits,
    /// The simulation is being advanced and its root grown back.
    Step,
    /// The cells that show are being enumerated.
    Rendered,
}

/// What the driver asks the caller to do with the engine.
#[derive(Clone, Copy, PartialEq, Eq, Debug)]
pub enum Request {
    /// Read the cell `at` of the working handle; answer with [`Reply::Cell`].
    Read { at: Coord },
    /// Write `alive` to the cell `at` in a universe of the given depth and
    /// make the handle that comes back the working handle; answer with
    /// [`Reply::Done`].
    Modify { at: Coord, alive: bool, depth: usize },
    /// Advance the working handle by `steps` generations and make the result
    /// the working handle; answer with [`Reply::Done`].
    Advance { steps: usize },
    /// Grow the working handle by one level and make the result the working
    /// handle; answer with [`Reply::Done`].
    Expand,
    /// Enumerate the populated macrocells of the given depth in `window`;
    /// answer with [`Reply::Cells`].
    Enumerate { depth: usize, window: Window },
    /// The frame is complete: paint what [`FrameDriver::visible`] holds.
    Present,
}

/// What the caller reports back after performing a request.
#[derive(PartialEq, Eq, Debug)]
pub enum Reply {
    /// The value of the cell that was read.
    Cell(bool),
    /// The working handle has been replaced.
    Done,
    /// The macrocells that the engine enumerated, each named by the cell at
    /// its centre, in the viewer's coordinates.
    Cells(Vec<Coord>),
}

/// A reply as a mathematical value.
pub enum Answer {
    /// The value of the cell that was read.
    Cell(bool),
    /// The working handle has been replaced.
    Done,
    /// The macrocells that the engine enumerated.
    Cells(Seq<Coord>),
}

impl View for Reply {
    type V = Answer;

    open spec fn view(&self) -> Answer {
        match self {
            Reply::Cell(alive) => Answer::Cell(*alive),
            Reply::Done => Answer::Done,
            Reply::Cells(cells) => Answer::Cells(cells@),
        }
    }
}

/// Why the driver refused a call.
#[derive(Clone, Copy, PartialEq, Eq, Structural, Debug)]
pub enum ProtocolError {
    /// A frame was begun while another was in progress.
    Busy,
    /// The reply does not answer the request that is outstanding.
    Unexpected,
}

/// What a frame shows: the zoom, and the viewport's rectangle on the lattice
/// in two roundings.
#[derive(Clone, Copy, Debug)]
pub struct Viewport {
    /// Pixels per cell.
    pub scale: Scale,
    /// The viewport in the viewer's coordinates, rounded outwards to whole
    /// cells: the box that is asked of the engine.
    pub window: Window,
    /// The viewport in half cells, rounded inwards: what culling tests.
    pub extent: ViewExtent,
}

/// The state of the frame driver, as a mathematical value.
pub struct DriverState {
    /// The universe of the session.
    pub universe: Universe,
    /// Where the driver stands in the frame.
    pub phase: Phase,
    /// The edits of this frame, in the engine's coordinates.
    pub batch: Seq<Edit>,
    /// How many edits of the batch have been committed.
    pub cursor: nat,
    /// While applying edits: whether the cell of the current edit is being
    /// read (otherwise it is being written).
    pub reading: bool,
    /// While writing a cell: the value that is written.
    pub alive: bool,
    /// The generations to advance by.
    pub steps: usize,
    /// While stepping: whether the root is being grown (otherwise the
    /// simulation is being advanced).
    pub expanding: bool,
    /// The depth of the macrocells to enumerate.
    pub depth: usize,
    /// The box to enumerate, if any cell of the universe shows.
    pub window: Option<Window>,
    /// The viewport that culling tests against.
    pub extent: ViewExtent,
    /// The macrocells that show, once the frame is complete, in the viewer's
    /// coordinates.
    pub visible: Seq<Coord>,
}

/// The edits of `pending` that fall inside the universe, in the same order,
/// with their cells in the engine's coordinates.
pub open spec fn spec_batch(universe: Universe, pending: Seq<Edit>) -> Seq<Edit>
    decreases pending.len(),
{
    if pending.len() == 0 {
        Seq::empty()
    } else {
        let front = spec_batch(universe, pending.drop_last());
        match universe.spec_absolute(pending.last().at) {
            Some(at) => front.push(Edit { at, intent: pending.last().intent }),
            None => front,
        }
    }
}

/// The depth that is asked of the engine at the given zoom: the level of
/// detail, but no deeper than the universe itself.
pub open spec fn spec_query_depth(universe: Universe, scale: Scale) -> usize {
    if scale.spec_min_depth() <= universe.spec_depth() {
        scale.spec_min_depth() as usize
    } else {
        universe.spec_depth() as usize
    }
}

impl DriverState {
    /// What holds of every state the driver can be in.
    pub open spec fn wf(self) -> bool {
        &&& self.universe.wf()
        &&& forall|i: int|
            0 <= i < self.batch.len() ==> self.universe.spec_contains(#[trigger] self.batch[i].at)
        &&& self.phase == Phase::ApplyEdits ==> {
            &&& self.cursor < self.batch.len()
            &&& self.reading ==> self.batch[self.cursor as int].intent.spec_reads()
            &&& !self.reading && !self.batch[self.cursor as int].intent.spec_reads()
                ==> self.alive == self.batch[self.cursor as int].intent.spec_resolve(false)
        }
        &&& self.depth <= self.universe.spec_depth()
        &&& self.window matches Some(w) ==> w.wf() && self.universe.spec_contains(w.min)
            && self.universe.spec_contains(w.max)
        &&& self.phase == Phase::Rendered ==> self.window is Some
    }

    /// The state of a driver between frames, before its first.
    pub open spec fn idle(universe: Universe) -> DriverState {
        DriverState {
            universe,
            phase: Phase::Idle,
            batch: Seq::empty(),
            cursor: 0,
            reading: false,
            alive: false,
            steps: 0,
            expanding: false,
            depth: 0,
            window: None,
            extent: ViewExtent { low: (0, 0), high: (0, 0) },
            visible: Seq::empty(),
        }
    }

    /// The state in which the edit at `cursor` is the next to commit, or in
    /// which the simulation is advanced when no edit is left.
    pub open spec fn at_edit(self, cursor: nat) -> DriverState {
        if cursor < self.batch.len() {
            let intent = self.batch[cursor as int].intent;
            DriverState {
                phase: Phase::ApplyEdits,
                cursor,
                reading: intent.spec_reads(),
                alive: intent.spec_resolve(false),
                expanding: false,
                ..self
            }
        } else {
            DriverState {
                phase: Phase::Step,
                cursor,
                reading: false,
                alive: false,
                expanding: false,
                ..self
            }
        }
    }

    /// The state in which the frame begins: the pending edits are taken
    /// over, the ones outside the universe dropped, and the first of the rest
    /// is the next to commit.
    pub open spec fn begin(self, pending: Seq<Edit>, steps: usize, view: Viewport) -> DriverState {
        DriverState {
            universe: self.universe,
            phase: Phase::ApplyEdits,
            batch: spec_batch(self.universe, pending),
            cursor: 0,
            reading: false,
            alive: false,
            steps,
            expanding: false,
            depth: spec_query_depth(self.universe, view.scale),
            window: self.universe.spec_clip(view.window),
            extent: view.extent,
            visible: Seq::empty(),
        }.at_edit(0)
    }

    /// The request that is outstanding in this state.
    pub open spec fn outstanding(self) -> Request {
        match self.phase {
            Phase::Idle => Request::Present,
            Phase::ApplyEdits => if self.reading {
                Request::Read { at: self.batch[self.cursor as int].at }
            } else {
                Request::Modify {
                    at: self.batch[self.cursor as int].at,
                    alive: self.alive,
                    depth: self.universe.spec_depth() as usize,
                }
            },
            Phase::Step => if self.expanding {
                Request::Expand
            } else {
                Request::Advance { steps: self.steps }
            },
            Phase::Rendered => Request::Enumerate { depth: self.depth, window: self.window->0 },
        }
    }

    /// Whether `reply` answers the request that is outstanding.
    pub open spec fn accepts(self, reply: Answer) -> bool {
        match self.phase {
            Phase::Idle => false,
            Phase::ApplyEdits => if self.reading {
                reply is Cell
            } else {
                reply is Done
            },
            Phase::Step => reply is Done,
            Phase::Rendered => reply is Cells,
        }
    }

    /// The state after `reply` has answered the outstanding request.
    pub open spec fn after(self, reply: Answer) -> DriverState {
        match self.phase {
            Phase::Idle => self,
            Phase::ApplyEdits => if self.reading {
                DriverState {
                    reading: false,
                    alive: self.batch[self.cursor as int].intent.spec_resolve(reply->Cell_0),
                    ..self
                }
            } else {
                self.at_edit(self.cursor + 1)
            },
            Phase::Step => if !self.expanding {
                DriverState { expanding: true, ..self }
            } else if self.window is Some {
                DriverState { phase: Phase::Rendered, expanding: false, ..self }
            } else {
                DriverState { phase: Phase::Idle, expanding: false, ..self }
            },
            Phase::Rendered => DriverState {
                phase: Phase::Idle,
                visible: spec_visible(reply->Cells_0, self.depth as nat, self.extent),
                ..self
            },
        }
    }

    /// How many replies the frame still takes.
    pub open spec fn replies_left(self) -> nat {
        let enumerating: nat = if self.window is Some {
            1
        } else {
            0
        };
        match self.phase {
            Phase::Idle => 0,
            Phase::ApplyEdits => self.writes_left() + 2 + enumerating,
            Phase::Step => if self.expanding {
                1 + enumerating
            } else {
                2 + enumerating
            },
            Phase::Rendered => 1,
        }
    }

    /// While applying edits: how many replies the rest of the batch takes,
    /// one for each cell still to read and one for each cell still to write.
    pub open spec fn writes_left(self) -> nat {
        if self.phase == Phase::ApplyEdits && self.cursor < self.batch.len() {
            if !self.reading && self.batch[self.cursor as int].intent.spec_reads() {
                (spec_cost(self.batch, self.cursor) - 1) as nat
            } else {
                spec_cost(self.batch, self.cursor)
            }
        } else {
            0
        }
    }

    /// The place of a phase in the cycle of a frame.
    pub open spec fn rank(phase: Phase) -> nat {
        match phase {
            Phase::ApplyEdits => 0,
            Phase::Step => 1,
            Phase::Rendered => 2,
            Phase::Idle => 3,
        }
    }

    /// The state in which a frame ends, and the live cells the engine then
    /// holds, when the engine starts from `cells` and answers each request
    /// faithfully.
    pub open spec fn frame_run(self, engine: EngineModel, cells: Set<Coord>) -> (
        DriverState,
        Set<Coord>,
    )
        decreases self.replies_left(),
    {
        if self.phase != Phase::Idle && self.wf() {
            let (next, reply) = engine.serve(cells, self.outstanding());
            proof {
                self.lemma_progress(reply);
            }
            self.after(reply).frame_run(engine, next)
        } else {
            (self, cells)
        }
    }

    /// The live cells after the rest of the batch has been committed to an
    /// engine whose working handle holds `cells` and which answers each
    /// request faithfully.
    pub open spec fn commit_run(self, cells: Set<Coord>) -> Set<Coord>
        decreases self.batch.len() - self.cursor, (if self.reading { 1nat } else { 0nat }),
    {
        if self.phase == Phase::ApplyEdits && self.cursor < self.batch.len() {
            let (next, reply) = serve(cells, self.outstanding());
            self.after(reply).commit_run(next)
        } else {
            cells
        }
    }
}

/// How many requests it takes to commit the edits of `batch` from the one at
/// `from` on: a read and a write where the cell is inverted, else a write.
pub open spec fn spec_cost(batch: Seq<Edit>, from: nat) -> nat
    decreases batch.len() - from,
{
    if from < batch.len() {
        spec_cost(batch, from + 1) + if batch[from as int].intent.spec_reads() {
            2nat
        } else {
            1nat
        }
    } else {
        0
    }
}

/// What a faithful engine does with a request of the commit: the live cells
/// of its working handle afterwards, and its reply.
pub open spec fn serve(cells: Set<Coord>, request: Request) -> (Set<Coord>, Answer) {
    match request {
        Request::Read { at } => (cells, Answer::Cell(cells.contains(at))),
        Request::Modify { at, alive, depth } => (write_cell(cells, at, alive), Answer::Done),
        _ => (cells, Answer::Done),
    }
}

/// An engine as a mathematical value: what it makes of the live cells of its
/// working handle when it advances them, and how it enumerates them.
pub struct EngineModel {
    /// The live cells after the given number of generations.
    pub evolve: spec_fn(Set<Coord>, usize) -> Set<Coord>,
    /// The populated macrocells of the given depth in a box, in the order in
    /// which the engine reports them.
    pub enumerate: spec_fn(Set<Coord>, usize, Window) -> Seq<Coord>,
}

impl EngineModel {
    /// What the engine does with a request, if it answers faithfully: the
    /// live cells of its working handle afterwards, and its reply. Growing
    /// the root keeps the live cells.
    pub open spec fn serve(self, cells: Set<Coord>, request: Request) -> (Set<Coord>, Answer) {
        match request {
            Request::Advance { steps } => ((self.evolve)(cells, steps), Answer::Done),
            Request::Enumerate { depth, window } => (
                cells,
                Answer::Cells((self.enumerate)(cells, depth, window)),
            ),
            _ => serve(cells, request),
        }
    }
}

/// The live cells after `alive` has been written to the cell `at`.
pub open spec fn write_cell(cells: Set<Coord>, at: Coord, alive: bool) -> Set<Coord> {
    if alive {
        cells.insert(at)
    } else {
        cells.remove(at)
    }
}

/// The live cells after one edit: its cell holds what its intent makes of the
/// value it held, and no other cell changes.
pub open spec fn apply_edit(cells: Set<Coord>, edit: Edit) -> Set<Coord> {
    write_cell(cells, edit.at, edit.intent.spec_resolve(cells.contains(edit.at)))
}

/// The live cells after the edits of a batch, one after another.
pub open spec fn apply_batch(cells: Set<Coord>, batch: Seq<Edit>) -> Set<Coord>
    decreases batch.len(),
{
    if batch.len() == 0 {
        cells
    } else {
        apply_batch(apply_edit(cells, batch[0]), batch.skip(1))
    }
}

/// The batch of a frame lies inside the universe and keeps the pending edits
/// apart: where no two pending edits name the same cell, no two edits of the
/// batch do.
pub proof fn lemma_batch_in_universe(universe: Universe, pending: Seq<Edit>)
    requires
        universe.wf(),
    ensures
        forall|j: int|
            0 <= j < spec_batch(universe, pending).len() ==> universe.spec_contains(
                #[trigger] spec_batch(universe, pending)[j].at,
            ),
        forall|j: int|
            0 <= j < spec_batch(universe, pending).len() ==> exists|i: int|
                0 <= i < pending.len() && universe.spec_absolute(pending[i].at) == Some(
                    (#[trigger] spec_batch(universe, pending)[j]).at,
                ) && pending[i].intent == spec_batch(universe, pending)[j].intent,
        distinct_cells(pending) ==> distinct_cells(spec_batch(universe, pending)),
    decreases pending.len(),
{
    universe.lemma_extent();
    if pending.len() > 0 {
        let front = pending.drop_last();
        let batch = spec_batch(universe, pending);
        let before = spec_batch(universe, front);
        let last = pending.last();
        lemma_batch_in_universe(universe, front);
        assert forall|j: int| 0 <= j < batch.len() implies exists|i: int|
            0 <= i < pending.len() && universe.spec_absolute(pending[i].at) == Some(
                (#[trigger] batch[j]).at,
            ) && pending[i].intent == batch[j].intent by {
            if j < before.len() {
                assert(batch[j] == before[j]);
                let i = choose|i: int|
                    0 <= i < front.len() && universe.spec_absolute(front[i].at) == Some(
                        before[j].at,
                    ) && front[i].intent == before[j].intent;
                assert(pending[i] == front[i]);
            } else {
                assert(pending[pending.len() - 1] == last);
            }
        }
        if distinct_cells(pending) {
            assert(distinct_cells(front)) by {
                assert forall|a: int, b: int| 0 <= a < b < front.len() implies front[a].at
                    != front[b].at by {
                    assert(pending[a].at != pending[b].at);
                }
            }
            assert forall|a: int, b: int| 0 <= a < b < batch.len() implies batch[a].at
                != batch[b].at by {
                if b == before.len() {
                    let i = choose|i: int|
                        0 <= i < front.len() && universe.spec_absolute(front[i].at) == Some(
                            before[a].at,
                        ) && front[i].intent == before[a].intent;
                    assert(pending[i].at != pending[pending.len() - 1].at);
                } else {
                    assert(before[a].at != before[b].at);
                }
            }
        }
    }
}

/// Every pending edit inside the universe is in the batch, at its cell's
/// coordinate in the engine.
pub proof fn lemma_batch_complete(universe: Universe, pending: Seq<Edit>, i: int)
    requires
        0 <= i < pending.len(),
        universe.spec_absolute(pending[i].at) is Some,
    ensures
        exists|j: int|
            0 <= j < spec_batch(universe, pending).len() && #[trigger] spec_batch(
                universe,
                pending,
            )[j] == (Edit {
                at: universe.spec_absolute(pending[i].at)->0,
                intent: pending[i].intent,
            }),
    decreases pending.len(),
{
    let front = pending.drop_last();
    let batch = spec_batch(universe, pending);
    let before = spec_batch(universe, front);
    let wanted = Edit { at: universe.spec_absolute(pending[i].at)->0, intent: pending[i].intent };
    if i < pending.len() - 1 {
        assert(front[i] == pending[i]);
        lemma_batch_complete(universe, front, i);
        let j = choose|j: int| 0 <= j < before.len() && #[trigger] before[j] == wanted;
        assert(batch[j] == wanted);
    } else {
        assert(batch[before.len() as int] == wanted);
    }
}

/// A batch leaves alone every cell that none of its edits names.
pub proof fn lemma_apply_batch_elsewhere(cells: Set<Coord>, batch: Seq<Edit>, at: Coord)
    requires
        forall|i: int| 0 <= i < batch.len() ==> (#[trigger] batch[i]).at != at,
    ensures
        apply_batch(cells, batch).contains(at) == cells.contains(at),
    decreases batch.len(),
{
    if batch.len() > 0 {
        let rest = batch.skip(1);
        assert(batch[0].at != at);
        assert forall|i: int| 0 <= i < rest.len() implies (#[trigger] rest[i]).at != at by {
            assert(rest[i] == batch[i + 1]);
        }
        lemma_apply_batch_elsewhere(apply_edit(cells, batch[0]), rest, at);
    }
}

/// Each edit of a batch is applied on its own: where no two edits name the
/// same cell, the cell of each edit ends up with what the edit's intent makes
/// of the value the cell held before the batch.
pub proof fn lemma_apply_batch_cell(cells: Set<Coord>, batch: Seq<Edit>, i: int)
    requires
        distinct_cells(batch),
        0 <= i < batch.len(),
    ensures
        apply_batch(cells, batch).contains(batch[i].at) == batch[i].intent.spec_resolve(
            cells.contains(batch[i].at),
        ),
    decreases batch.len(),
{
    let rest = batch.skip(1);
    let next = apply_edit(cells, batch[0]);
    if i == 0 {
        assert forall|k: int| 0 <= k < rest.len() implies (#[trigger] rest[k]).at
            != batch[0].at by {
            assert(rest[k] == batch[k + 1]);
        }
        lemma_apply_batch_elsewhere(next, rest, batch[0].at);
    } else {
        assert(distinct_cells(rest)) by {
            assert forall|a: int, b: int| 0 <= a < b < rest.len() implies rest[a].at
                != rest[b].at by {
                assert(batch[a + 1].at != batch[b + 1].at);
            }
        }
        assert(rest[i - 1] == batch[i]);
        assert(batch[0].at != batch[i].at);
        lemma_apply_batch_cell(next, rest, i - 1);
    }
}

impl DriverState {
    /// A frame begins in a state that is well formed.
    pub proof fn lemma_begin_wf(self, pending: Seq<Edit>, steps: usize, view: Viewport)
        requires
            self.universe.wf(),
        ensures
            self.begin(pending, steps, view).wf(),
            self.begin(pending, steps, view).phase != Phase::Idle,
            self.begin(pending, steps, view).phase != Phase::Rendered,
    {
        lemma_batch_in_universe(self.universe, pending);
        self.universe.lemma_clip_exact(view.window);
    }

    /// What the driver asks is always in order: a cell that is read or
    /// written lies inside the universe and is written at the depth of the
    /// universe; a box that is enumerated is well formed and lies inside the
    /// universe, at a depth no greater than that of the universe.
    pub proof fn lemma_requests_in_universe(self)
        requires
            self.wf(),
        ensures
            match self.outstanding() {
                Request::Read { at } => self.universe.spec_contains(at),
                Request::Modify { at, alive, depth } => self.universe.spec_contains(at) && depth
                    == self.universe.spec_depth(),
                Request::Enumerate { depth, window } => {
                    &&& window.wf()
                    &&& self.universe.spec_contains(window.min)
                    &&& self.universe.spec_contains(window.max)
                    &&& depth <= self.universe.spec_depth()
                },
                _ => true,
            },
    {
    }

    /// Each phase asks its own: cells are read and written only while edits
    /// are applied, the simulation is advanced and its root grown only in the
    /// step, cells are enumerated only once the frame is rendered, and
    /// between frames nothing is asked.
    pub proof fn lemma_request_of_phase(self)
        ensures
            self.phase == Phase::ApplyEdits <==> (self.outstanding() is Read
                || self.outstanding() is Modify),
            self.phase == Phase::Step <==> (self.outstanding() is Advance
                || self.outstanding() is Expand),
            self.phase == Phase::Rendered <==> self.outstanding() is Enumerate,
            self.phase == Phase::Idle <==> self.outstanding() is Present,
    {
    }

    /// A frame runs its course: each reply that is accepted keeps the state
    /// well formed, brings the frame exactly one reply closer to its end, and
    /// never takes it back to an earlier phase. The frame is over when no
    /// reply is left.
    pub proof fn lemma_progress(self, reply: Answer)
        requires
            self.wf(),
            self.accepts(reply),
        ensures
            self.after(reply).wf(),
            self.after(reply).replies_left() + 1 == self.replies_left(),
            Self::rank(self.after(reply).phase) >= Self::rank(self.phase),
            self.after(reply).replies_left() == 0 <==> self.after(reply).phase == Phase::Idle,
    {
        if self.phase == Phase::ApplyEdits {
            reveal_with_fuel(spec_cost, 2);
        }
    }

    /// What a frame shows is exactly what is in view: every macrocell of the
    /// visible set was enumerated by the engine and meets the viewport; every
    /// enumerated macrocell that meets the viewport is in the visible set;
    /// and none that lies wholly outside the viewport is.
    pub proof fn lemma_visible_in_view(self, reply: Answer)
        requires
            self.phase == Phase::Rendered,
            reply is Cells,
        ensures
            forall|j: int|
                0 <= j < self.after(reply).visible.len() ==> {
                    let cell = #[trigger] self.after(reply).visible[j];
                    &&& touches(cell, self.depth as nat, self.extent)
                    &&& reply->Cells_0.contains(cell)
                },
            forall|k: int|
                0 <= k < reply->Cells_0.len() && touches(
                    #[trigger] reply->Cells_0[k],
                    self.depth as nat,
                    self.extent,
                ) ==> self.after(reply).visible.contains(reply->Cells_0[k]),
            forall|cell: Coord|
                !touches(cell, self.depth as nat, self.extent) ==> !(
                #[trigger] self.after(reply).visible.contains(cell)),
    {
        lemma_visible_exact(reply->Cells_0, self.depth as nat, self.extent);
    }

    /// The commit, from any point on: what is still to be written, and the
    /// edits after it, are applied one after another.
    proof fn lemma_commit_run(self, cells: Set<Coord>)
        requires
            self.wf(),
            self.phase == Phase::ApplyEdits,
        ensures
            self.reading ==> self.commit_run(cells) == apply_batch(
                cells,
                self.batch.skip(self.cursor as int),
            ),
            !self.reading ==> self.commit_run(cells) == apply_batch(
                write_cell(cells, self.batch[self.cursor as int].at, self.alive),
                self.batch.skip(self.cursor as int + 1),
            ),
        decreases self.batch.len() - self.cursor, (if self.reading { 1nat } else { 0nat }),
    {
        let cursor = self.cursor as int;
        let (next, reply) = serve(cells, self.outstanding());
        let then = self.after(reply);
        if self.reading {
            let rest = self.batch.skip(cursor);
            assert(rest[0] == self.batch[cursor]);
            assert(rest.skip(1) =~= self.batch.skip(cursor + 1));
            then.lemma_commit_run(next);
        } else if cursor + 1 < self.batch.len() {
            let rest = self.batch.skip(cursor + 1);
            assert(rest[0] == self.batch[cursor + 1]);
            assert(rest.skip(1) =~= self.batch.skip(cursor + 2));
            assert(then.cursor == cursor + 1);
            then.lemma_commit_run(next);
        } else {
            assert(self.batch.skip(cursor + 1) =~= Seq::<Edit>::empty());
            assert(then.commit_run(next) == next);
        }
    }

    /// The commit applies the batch: served faithfully, the requests of the
    /// phase that applies edits leave the engine with the live cells that the
    /// edits of the batch, applied one after another, make of those it had.
    pub proof fn lemma_commit_applies_batch(
        self,
        pending: Seq<Edit>,
        steps: usize,
        view: Viewport,
        cells: Set<Coord>,
    )
        requires
            self.universe.wf(),
        ensures
            self.begin(pending, steps, view).commit_run(cells) == apply_batch(
                cells,
                spec_batch(self.universe, pending),
            ),
    {
        let start = self.begin(pending, steps, view);
        self.lemma_begin_wf(pending, steps, view);
        if start.batch.len() > 0 {
            start.lemma_commit_run(cells);
            assert(start.batch.skip(0) =~= start.batch);
        }
    }

    /// While edits are applied, a frame runs as its commit does, and goes on
    /// from the step with the live cells the commit leaves.
    proof fn lemma_frame_run_commit(self, engine: EngineModel, cells: Set<Coord>)
        requires
            self.wf(),
            self.phase == Phase::ApplyEdits,
        ensures
            self.frame_run(engine, cells) == self.at_edit(self.batch.len()).frame_run(
                engine,
                self.commit_run(cells),
            ),
        decreases self.batch.len() - self.cursor, (if self.reading { 1nat } else { 0nat }),
    {
        let (next, reply) = serve(cells, self.outstanding());
        let then = self.after(reply);
        self.lemma_progress(reply);
        assert(engine.serve(cells, self.outstanding()) == (next, reply));
        assert(self.frame_run(engine, cells) == then.frame_run(engine, next));
        assert(self.commit_run(cells) == then.commit_run(next));
        if then.phase == Phase::ApplyEdits {
            then.lemma_frame_run_commit(engine, next);
            assert(then.at_edit(then.batch.len()) == self.at_edit(self.batch.len()));
        } else {
            assert(then == self.at_edit(self.batch.len()));
            assert(then.commit_run(next) == next);
        }
    }

    /// A frame does its work in order: served faithfully, it leaves the
    /// engine with the live cells that the step makes of what the edits made
    /// of those it had, and it shows what the engine then enumerates in the
    /// box asked, culled to the viewport; where no cell of the universe is in
    /// view it shows nothing. Edits never see the step of their own frame,
    /// and what is shown is never older than the step.
    pub proof fn lemma_frame_run(
        self,
        pending: Seq<Edit>,
        steps: usize,
        view: Viewport,
        engine: EngineModel,
        cells: Set<Coord>,
    )
        requires
            self.universe.wf(),
        ensures
            ({
                let start = self.begin(pending, steps, view);
                let (end, world) = start.frame_run(engine, cells);
                &&& world == (engine.evolve)(
                    apply_batch(cells, spec_batch(self.universe, pending)),
                    steps,
                )
                &&& end.phase == Phase::Idle
                &&& end.visible == match self.universe.spec_clip(view.window) {
                    Some(window) => spec_visible(
                        (engine.enumerate)(world, start.depth, window),
                        start.depth as nat,
                        view.extent,
                    ),
                    None => Seq::empty(),
                }
            }),
    {
        let start = self.begin(pending, steps, view);
        self.lemma_begin_wf(pending, steps, view);
        self.lemma_commit_applies_batch(pending, steps, view, cells);
        let edited = apply_batch(cells, spec_batch(self.universe, pending));
        let stepping = start.at_edit(start.batch.len());
        if start.phase == Phase::ApplyEdits {
            start.lemma_frame_run_commit(engine, cells);
        } else {
            assert(start == stepping);
        }
        assert(start.frame_run(engine, cells) == stepping.frame_run(engine, edited));
        assert(stepping.wf());
        let world = (engine.evolve)(edited, steps);
        let growing = stepping.after(Answer::Done);
        stepping.lemma_progress(Answer::Done);
        assert(stepping.frame_run(engine, edited) == growing.frame_run(engine, world));
        let grown = growing.after(Answer::Done);
        growing.lemma_progress(Answer::Done);
        assert(growing.frame_run(engine, world) == grown.frame_run(engine, world));
        match start.window {
            Some(window) => {
                let reply = Answer::Cells((engine.enumerate)(world, start.depth, window));
                let end = grown.after(reply);
                grown.lemma_progress(reply);
                assert(grown.frame_run(engine, world) == end.frame_run(engine, world));
                assert(end.frame_run(engine, world) == (end, world));
            },
            None => {
                assert(grown.frame_run(engine, world) == (grown, world));
            },
        }
    }

    /// Every edit is committed as it was meant: where no two pending edits
    /// name the same cell, a frame leaves the cell of each pending edit that
    /// lies inside the universe with what the edit's intent makes of the
    /// value the engine held for it. A cell that was set alive is alive, one
    /// that was set dead is dead, and one that was toggled is inverted.
    pub proof fn lemma_commit_resolves(
        self,
        pending: Seq<Edit>,
        steps: usize,
        view: Viewport,
        cells: Set<Coord>,
        i: int,
    )
        requires
            self.universe.wf(),
            distinct_cells(pending),
            0 <= i < pending.len(),
            self.universe.spec_absolute(pending[i].at) is Some,
        ensures
            ({
                let at = self.universe.spec_absolute(pending[i].at)->0;
                let after = self.begin(pending, steps, view).commit_run(cells);
                &&& after.contains(at) == pending[i].intent.spec_resolve(cells.contains(at))
                &&& pending[i].intent is Toggle ==> after.contains(at) == !cells.contains(at)
            }),
    {
        let batch = spec_batch(self.universe, pending);
        self.lemma_commit_applies_batch(pending, steps, view, cells);
        lemma_batch_in_universe(self.universe, pending);
        lemma_batch_complete(self.universe, pending, i);
        let at = self.universe.spec_absolute(pending[i].at)->0;
        let j = choose|j: int|
            0 <= j < batch.len() && #[trigger] batch[j] == (Edit {
                at,
                intent: pending[i].intent,
            });
        lemma_apply_batch_cell(cells, batch, j);
    }

    /// A commit changes no cell but those of its edits: a cell of the engine
    /// that no pending edit names holds after the commit what it held before.
    pub proof fn lemma_commit_elsewhere(
        self,
        pending: Seq<Edit>,
        steps: usize,
        view: Viewport,
        cells: Set<Coord>,
        at: Coord,
    )
        requires
            self.universe.wf(),
            forall|i: int|
                0 <= i < pending.len() ==> self.universe.spec_absolute(
                    (#[trigger] pending[i]).at,
                ) != Some(at),
        ensures
            self.begin(pending, steps, view).commit_run(cells).contains(at) == cells.contains(at),
    {
        let batch = spec_batch(self.universe, pending);
        self.lemma_commit_applies_batch(pending, steps, view, cells);
        lemma_batch_in_universe(self.universe, pending);
        assert forall|j: int| 0 <= j < batch.len() implies (#[trigger] batch[j]).at != at by {
            let i = choose|i: int|
                0 <= i < pending.len() && self.universe.spec_absolute(pending[i].at) == Some(
                    batch[j].at,
                ) && pending[i].intent == batch[j].intent;
            assert(self.universe.spec_absolute(pending[i].at) != Some(at));
        }
        lemma_apply_batch_elsewhere(cells, batch, at);
    }
}

/// The frame driver of a session.
///
/// Between frames it is idle. [`FrameDriver::begin`] starts a frame and
/// gives the first request; each call of [`FrameDriver::advance`] takes the
/// reply to the outstanding request and gives the next, until the request is
/// [`Request::Present`] and the driver is idle again.
pub struct FrameDriver {
    universe: Universe,
    phase: Phase,
    batch: Vec<Edit>,
    cursor: usize,
    reading: bool,
    alive: bool,
    steps: usize,
    expanding: bool,
    depth: usize,
    window: Option<Window>,
    extent: ViewExtent,
    visible: Vec<Coord>,
}

impl View for FrameDriver {
    type V = DriverState;

    closed spec fn view(&self) -> DriverState {
        DriverState {
            universe: self.universe,
            phase: self.phase,
            batch: self.batch@,
            cursor: self.cursor as nat,
            reading: self.reading,
            alive: self.alive,
            steps: self.steps,
            expanding: self.expanding,
            depth: self.depth,
            window: self.window,
            extent: self.extent,
            visible: self.visible@,
        }
    }
}

/// Moves the pending edits to the engine's coordinates and drops those
/// outside the universe.
fn absolute_edits(universe: &Universe, pending: &Vec<Edit>) -> (batch: Vec<Edit>)
    ensures
        batch@ == spec_batch(*universe, pending@),
{
    let mut batch: Vec<Edit> = Vec::new();
    let mut i: usize = 0;
    assert(pending@.take(0) =~= Seq::<Edit>::empty());
    while i < pending.len()
        invariant
            i <= pending@.len(),
            batch@ == spec_batch(*universe, pending@.take(i as int)),
        decreases pending@.len() - i,
    {
        let edit: Edit = pending[i];
        proof {
            let next = pending@.take(i as int + 1);
            assert(next.drop_last() =~= pending@.take(i as int));
            assert(next.last() == edit);
        }
        match universe.to_absolute(edit.at) {
            Some(at) => {
                batch.push(Edit { at, intent: edit.intent });
            },
            None => {},
        }
        i += 1;
    }
    assert(pending@.take(i as int) =~= pending@);
    batch
}

/// The depth that is asked of the engine at the given zoom.
fn query_depth(universe: &Universe, scale: &Scale) -> (depth: usize)
    ensures
        depth == spec_query_depth(*universe, *scale),
        depth <= universe.spec_depth(),
{
    let detail: usize = scale.min_depth();
    let limit: usize = universe.depth();
    if detail <= limit {
        detail
    } else {
        limit
    }
}

impl FrameDriver {
    #[verifier::type_invariant]
    spec fn inv(self) -> bool {
        self@.wf()
    }

    /// The driver of a session in the given universe, idle before its first
    /// frame.
    pub fn new(universe: Universe) -> (driver: FrameDriver)
        ensures
            driver@ == DriverState::idle(universe),
            driver@.wf(),
    {
        proof {
            use_type_invariant(&universe);
        }
        FrameDriver {
            universe,
            phase: Phase::Idle,
            batch: Vec::new(),
            cursor: 0,
            reading: false,
            alive: false,
            steps: 0,
            expanding: false,
            depth: 0,
            window: None,
            extent: ViewExtent { low: (0, 0), high: (0, 0) },
            visible: Vec::new(),
        }
    }

    /// The universe of the session.
    pub fn universe(&self) -> (universe: Universe)
        ensures
            universe == self@.universe,
    {
        self.universe
    }

    /// Where the driver stands in the frame.
    pub fn phase(&self) -> (phase: Phase)
        ensures
            phase == self@.phase,
            self@.wf(),
    {
        proof {
            use_type_invariant(self);
        }
        self.phase
    }

    /// The macrocells that show, in the viewer's coordinates: those of the
    /// last frame that was completed, and none while a frame is in progress
    /// that has not enumerated yet.
    pub fn visible(&self) -> (cells: &Vec<Coord>)
        ensures
            cells@ == self@.visible,
    {
        &self.visible
    }

    /// The depth of the macrocells that [`FrameDriver::visible`] holds.
    pub fn depth(&self) -> (depth: usize)
        ensures
            depth == self@.depth,
    {
        self.depth
    }

    /// The request that is outstanding, and [`Request::Present`] between
    /// frames.
    pub fn outstanding(&self) -> (request: Request)
        ensures
            request == self@.outstanding(),
            self@.wf(),
    {
        proof {
            use_type_invariant(self);
        }
        match self.phase {
            Phase::Idle => Request::Present,
            Phase::ApplyEdits => {
                let edit: Edit = self.batch[self.cursor];
                if self.reading {
                    Request::Read { at: edit.at }
                } else {
                    Request::Modify { at: edit.at, alive: self.alive, depth: self.universe.depth() }
                }
            },
            Phase::Step => {
                if self.expanding {
                    Request::Expand
                } else {
                    Request::Advance { steps: self.steps }
                }
            },
            Phase::Rendered => {
                match self.window {
                    Some(window) => Request::Enumerate { depth: self.depth, window },
                    None => unreached(),
                }
            },
        }
    }

    /// The driver that commits the edit at `cursor` next, or advances the
    /// simulation when no edit is left.
    fn at_edit(self, cursor: usize) -> (driver: FrameDriver)
        requires
            cursor <= self@.batch.len(),
        ensures
            driver@ == self@.at_edit(cursor as nat),
    {
        proof {
            use_type_invariant(&self);
        }
        if cursor < self.batch.len() {
            let intent: Intent = self.batch[cursor].intent;
            FrameDriver {
                phase: Phase::ApplyEdits,
                cursor,
                reading: intent.reads(),
                alive: intent.resolve(false),
                expanding: false,
                ..self
            }
        } else {
            FrameDriver {
                phase: Phase::Step,
                cursor,
                reading: false,
                alive: false,
                expanding: false,
                ..self
            }
        }
    }

    /// The driver after `reply`, if it answers the outstanding request.
    fn step(self, reply: Reply) -> (next: (FrameDriver, bool))
        ensures
            next.1 == self@.accepts(reply@),
            next.0@ == if self@.accepts(reply@) {
                self@.after(reply@)
            } else {
                self@
            },
    {
        proof {
            use_type_invariant(&self);
        }
        match self.phase {
            Phase::Idle => (self, false),
            Phase::ApplyEdits => {
                if self.reading {
                    match reply {
                        Reply::Cell(value) => {
                            let alive: bool = self.batch[self.cursor].intent.resolve(value);
                            (FrameDriver { reading: false, alive, ..self }, true)
                        },
                        _ => (self, false),
                    }
                } else {
                    match reply {
                        Reply::Done => {
                            assert(self.cursor < self.batch.len());
                            let cursor: usize = self.cursor + 1;
                            (self.at_edit(cursor), true)
                        },
                        _ => (self, false),
                    }
                }
            },
            Phase::Step => {
                match reply {
                    Reply::Done => {
                        if !self.expanding {
                            (FrameDriver { expanding: true, ..self }, true)
                        } else if self.window.is_some() {
                            (FrameDriver { phase: Phase::Rendered, expanding: false, ..self }, true)
                        } else {
                            (FrameDriver { phase: Phase::Idle, expanding: false, ..self }, true)
                        }
                    },
                    _ => (self, false),
                }
            },
            Phase::Rendered => {
                match reply {
                    Reply::Cells(cells) => {
                        let visible: Vec<Coord> = cull(&cells, self.depth, &self.extent);
                        (FrameDriver { phase: Phase::Idle, visible, ..self }, true)
                    },
                    _ => (self, false),
                }
            },
        }
    }

    /// Begins a frame: takes over the pending edits, leaving the queue empty,
    /// and gives the first request. The frame advances by `steps`
    /// generations and shows `view`.
    ///
    /// A frame cannot begin while another is in progress: the call is then
    /// refused, and neither the driver nor the queue changes.
    pub fn begin(&mut self, queue: &mut EditQueue, steps: usize, view: Viewport) -> (outcome:
        Result<Request, ProtocolError>)
        ensures
            old(self)@.wf(),
            final(self)@.wf(),
            old(self)@.phase == Phase::Idle ==> {
                &&& final(self)@ == old(self)@.begin(old(queue).sequence(), steps, view)
                &&& outcome == Ok::<Request, ProtocolError>(final(self)@.outstanding())
                &&& final(queue)@ == Map::<Coord, Intent>::empty()
                &&& final(queue).sequence() == Seq::<Edit>::empty()
            },
            old(self)@.phase != Phase::Idle ==> {
                &&& final(self)@ == old(self)@
                &&& outcome == Err::<Request, ProtocolError>(ProtocolError::Busy)
                &&& final(queue)@ == old(queue)@
                &&& final(queue).sequence() == old(queue).sequence()
            },
    {
        proof {
            use_type_invariant(&*self);
        }
        match self.phase {
            Phase::Idle => {},
            _ => {
                return Err(ProtocolError::Busy);
            },
        }
        let universe: Universe = self.universe;
        let pending: Vec<Edit> = queue.drain();
        let batch: Vec<Edit> = absolute_edits(&universe, &pending);
        let depth: usize = query_depth(&universe, &view.scale);
        let window: Option<Window> = universe.query_window(view.window);
        proof {
            self@.lemma_begin_wf(pending@, steps, view);
        }
        let started = if batch.len() > 0 {
            let intent: Intent = batch[0].intent;
            FrameDriver {
                universe,
                phase: Phase::ApplyEdits,
                batch,
                cursor: 0,
                reading: intent.reads(),
                alive: intent.resolve(false),
                steps,
                expanding: false,
                depth,
                window,
                extent: view.extent,
                visible: Vec::new(),
            }
        } else {
            FrameDriver {
                universe,
                phase: Phase::Step,
                batch,
                cursor: 0,
                reading: false,
                alive: false,
                steps,
                expanding: false,
                depth,
                window,
                extent: view.extent,
                visible: Vec::new(),
            }
        };
        let request: Request = started.outstanding();
        *self = started;
        Ok(request)
    }

    /// Takes the reply to the outstanding request and gives the next
    /// request; [`Request::Present`] when the frame is complete.
    ///
    /// A reply that does not answer the outstanding request is refused, and
    /// the driver does not change.
    pub fn advance(&mut self, reply: Reply) -> (outcome: Result<Request, ProtocolError>)
        ensures
            old(self)@.wf(),
            final(self)@.wf(),
            old(self)@.accepts(reply@) ==> {
                &&& final(self)@ == old(self)@.after(reply@)
                &&& outcome == Ok::<Request, ProtocolError>(final(self)@.outstanding())
            },
            !old(self)@.accepts(reply@) ==> {
                &&& final(self)@ == old(self)@
                &&& outcome == Err::<Request, ProtocolError>(ProtocolError::Unexpected)
            },
    {
        proof {
            use_type_invariant(&*self);
        }
        let mut taken: FrameDriver = FrameDriver::new(self.universe);
        std::mem::swap(self, &mut taken);
        let (next, accepted) = taken.step(reply);
        let request: Request = next.outstanding();
        *self = next;
        if accepted {
            Ok(request)
        } else {
            Err(ProtocolError::Unexpected)
        }
    }
}

} // verus!
