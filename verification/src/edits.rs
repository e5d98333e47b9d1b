//! Edits to single cells, queued until the next frame commits them.

use vstd::prelude::*;
use crate::lattice::Coord;

verus! {

/// What an edit does to its cell.
#[derive(Clone, Copy, PartialEq, Eq, Structural, Debug)]
pub enum Intent {
    /// Make the cell alive.
    SetAlive,
    /// Make the cell dead.
    SetDead,
    /// Invert the cell.
    Toggle,
}

impl Intent {
    /// The value an edit with this intent writes to a cell that currently
    /// holds `current`.
    pub open spec fn spec_resolve(self, current: bool) -> bool {
        match self {
            Intent::SetAlive => true,
            Intent::SetDead => false,
            Intent::Toggle => !current,
        }
    }

    /// Whether the cell must be read before this intent can be resolved.
    pub open spec fn spec_reads(self) -> bool {
        self is Toggle
    }

    /// The value an edit with this intent writes to a cell that currently
    /// holds `current`.
    pub fn resolve(self, current: bool) -> (alive: bool)
        ensures
            alive == self.spec_resolve(current),
    {
        match self {
            Intent::SetAlive => true,
            Intent::SetDead => false,
            Intent::Toggle => !current,
        }
    }

    /// Whether the cell must be read before this intent can be resolved.
    pub fn reads(self) -> (reads: bool)
        ensures
            reads == self.spec_reads(),
    {
        match self {
            Intent::Toggle => true,
            _ => false,
        }
    }
}

/// One edit: a cell and what is to be done to it.
#[derive(Clone, Copy, PartialEq, Eq, Debug)]
pub struct Edit {
    pub at: Coord,
    pub intent: Intent,
}

/// No two edits of the sequence name the same cell.
pub open spec fn distinct_cells(edits: Seq<Edit>) -> bool {
    forall|i: int, j: int| 0 <= i < j < edits.len() ==> edits[i].at != edits[j].at
}

/// The edits of a sequence as a mapping from cell to intent; where a cell is
/// named more than once, the last edit counts.
pub open spec fn as_map(edits: Seq<Edit>) -> Map<Coord, Intent>
    decreases edits.len(),
{
    if edits.len() == 0 {
        Map::empty()
    } else {
        as_map(edits.drop_last()).insert(edits.last().at, edits.last().intent)
    }
}

/// The mapping of a sequence holds exactly the cells the sequence names, and
/// it is finite.
pub proof fn lemma_as_map_domain(edits: Seq<Edit>)
    ensures
        as_map(edits).dom().finite(),
        forall|at: Coord|
            as_map(edits).dom().contains(at) <==> exists|i: int|
                0 <= i < edits.len() && #[trigger] edits[i].at == at,
    decreases edits.len(),
{
    if edits.len() > 0 {
        let front = edits.drop_last();
        lemma_as_map_domain(front);
        assert forall|at: Coord|
            as_map(edits).dom().contains(at) <==> exists|i: int|
                0 <= i < edits.len() && #[trigger] edits[i].at == at by {
            if as_map(edits).dom().contains(at) {
                if at == edits.last().at {
                    assert(edits[edits.len() - 1].at == at);
                } else {
                    let i = choose|i: int| 0 <= i < front.len() && #[trigger] front[i].at == at;
                    assert(edits[i].at == at);
                }
            }
            if exists|i: int| 0 <= i < edits.len() && #[trigger] edits[i].at == at {
                let i = choose|i: int| 0 <= i < edits.len() && #[trigger] edits[i].at == at;
                if i < edits.len() - 1 {
                    assert(front[i].at == at);
                }
            }
        }
    }
}

/// Where no cell is named twice, the mapping gives each cell the intent of
/// the one edit that names it, and has as many entries as there are edits.
pub proof fn lemma_as_map_distinct(edits: Seq<Edit>)
    requires
        distinct_cells(edits),
    ensures
        forall|i: int|
            0 <= i < edits.len() ==> as_map(edits).dom().contains(#[trigger] edits[i].at)
                && as_map(edits)[edits[i].at] == edits[i].intent,
        as_map(edits).dom().len() == edits.len(),
    decreases edits.len(),
{
    if edits.len() > 0 {
        let front = edits.drop_last();
        lemma_as_map_distinct(front);
        lemma_as_map_domain(front);
        assert(!as_map(front).dom().contains(edits.last().at)) by {
            if as_map(front).dom().contains(edits.last().at) {
                let i = choose|i: int|
                    0 <= i < front.len() && #[trigger] front[i].at == edits.last().at;
                assert(edits[i].at == edits[edits.len() - 1].at);
            }
        }
        assert forall|i: int| 0 <= i < edits.len() implies as_map(edits).dom().contains(
            #[trigger] edits[i].at,
        ) && as_map(edits)[edits[i].at] == edits[i].intent by {
            if i < edits.len() - 1 {
                assert(front[i].at == edits[i].at);
                assert(edits[i].at != edits[edits.len() - 1].at);
            }
        }
    }
}

/// Whether one of the edits names the cell `at`.
pub open spec fn names(edits: Seq<Edit>, at: Coord) -> bool {
    exists|i: int| 0 <= i < edits.len() && #[trigger] edits[i].at == at
}

/// The pending edits after `edit` has been queued: where an edit already
/// names its cell, that edit is replaced in place; otherwise the new edit
/// goes to the end.
pub open spec fn spec_enqueue(edits: Seq<Edit>, edit: Edit) -> Seq<Edit> {
    if names(edits, edit.at) {
        edits.update(choose|i: int| 0 <= i < edits.len() && #[trigger] edits[i].at == edit.at, edit)
    } else {
        edits.push(edit)
    }
}

/// Last write wins: when a cell is edited twice before a commit, the mapping
/// of pending edits holds one entry for it, with the second intent, and is
/// what it would be had the first edit never been queued.
pub proof fn lemma_later_edit_replaces(
    pending: Map<Coord, Intent>,
    at: Coord,
    first: Intent,
    second: Intent,
)
    ensures
        pending.insert(at, first).insert(at, second) == pending.insert(at, second),
        pending.insert(at, first).insert(at, second).dom() == pending.dom().insert(at),
        pending.insert(at, first).insert(at, second)[at] == second,
{
    assert(pending.insert(at, first).insert(at, second) =~= pending.insert(at, second));
}

/// The edits waiting for the next commit, at most one for each cell.
///
/// A later edit of a cell replaces an earlier one that has not been
/// committed; the order in which cells were first edited is kept but carries
/// no meaning, since each cell is committed on its own.
pub struct EditQueue {
    entries: Vec<Edit>,
}

impl View for EditQueue {
    type V = Map<Coord, Intent>;

    closed spec fn view(&self) -> Map<Coord, Intent> {
        as_map(self.sequence())
    }
}

impl EditQueue {
    #[verifier::type_invariant]
    spec fn inv(self) -> bool {
        distinct_cells(self.entries@)
    }

    /// The pending edits in the order in which their cells were first edited:
    /// the order in which [`EditQueue::drain`] hands them out.
    pub closed spec fn sequence(&self) -> Seq<Edit> {
        self.entries@
    }

    /// An empty queue.
    pub fn new() -> (queue: EditQueue)
        ensures
            queue@ == Map::<Coord, Intent>::empty(),
            queue.sequence() == Seq::<Edit>::empty(),
    {
        EditQueue { entries: Vec::new() }
    }

    /// The position of the edit that names `at`, if there is one.
    fn position(&self, at: Coord) -> (found: Option<usize>)
        ensures
            match found {
                Some(i) => i < self.entries@.len() && self.entries@[i as int].at == at,
                None => forall|i: int| 0 <= i < self.entries@.len() ==> self.entries@[i].at != at,
            },
    {
        let mut i: usize = 0;
        while i < self.entries.len()
            invariant
                i <= self.entries@.len(),
                forall|k: int| 0 <= k < i ==> self.entries@[k].at != at,
            decreases self.entries@.len() - i,
        {
            let entry: Edit = self.entries[i];
            if entry.at.0 == at.0 && entry.at.1 == at.1 {
                return Some(i);
            }
            i += 1;
        }
        None
    }

    /// The number of cells with a pending edit.
    pub fn len(&self) -> (count: usize)
        ensures
            self@.dom().finite(),
            count == self@.dom().len(),
    {
        proof {
            use_type_invariant(self);
            lemma_as_map_domain(self.entries@);
            lemma_as_map_distinct(self.entries@);
        }
        self.entries.len()
    }

    /// Whether no edit is pending.
    pub fn is_empty(&self) -> (empty: bool)
        ensures
            empty == (self@ == Map::<Coord, Intent>::empty()),
    {
        proof {
            use_type_invariant(self);
            lemma_as_map_domain(self.entries@);
            lemma_as_map_distinct(self.entries@);
            if self.entries@.len() == 0 {
                assert(self@ =~= Map::<Coord, Intent>::empty());
            }
        }
        self.entries.len() == 0
    }

    /// The intent pending for the cell `at`, if any.
    pub fn pending(&self, at: Coord) -> (intent: Option<Intent>)
        ensures
            intent == if self@.dom().contains(at) {
                Some(self@[at])
            } else {
                None
            },
    {
        proof {
            use_type_invariant(self);
            lemma_as_map_domain(self.entries@);
            lemma_as_map_distinct(self.entries@);
        }
        match self.position(at) {
            Some(i) => Some(self.entries[i].intent),
            None => None,
        }
    }

    /// Queues `intent` for the cell `at`, replacing what was pending for it.
    pub fn enqueue(&mut self, at: Coord, intent: Intent)
        ensures
            final(self)@ == old(self)@.insert(at, intent),
            final(self).sequence() == spec_enqueue(old(self).sequence(), Edit { at, intent }),
            final(self)@ == as_map(final(self).sequence()),
            distinct_cells(final(self).sequence()),
    {
        proof {
            use_type_invariant(&*self);
        }
        let edit = Edit { at, intent };
        let found = self.position(at);
        let mut entries: Vec<Edit> = Vec::new();
        std::mem::swap(&mut self.entries, &mut entries);
        match found {
            Some(i) => {
                proof {
                    lemma_set_replaces(entries@, i as int, edit);
                    let k = choose|k: int| 0 <= k < entries@.len() && #[trigger] entries@[k].at == at;
                    assert(k == i) by {
                        if k < i {
                            assert(entries@[k].at != entries@[i as int].at);
                        } else if i < k {
                            assert(entries@[i as int].at != entries@[k].at);
                        }
                    }
                }
                entries.set(i, edit);
            },
            None => {
                entries.push(edit);
                assert(entries@.drop_last() =~= old(self).entries@);
            },
        }
        std::mem::swap(&mut self.entries, &mut entries);
    }

    /// Empties the queue and hands out what was pending: every cell once,
    /// with the intent that was last queued for it.
    pub fn drain(&mut self) -> (edits: Vec<Edit>)
        ensures
            final(self)@ == Map::<Coord, Intent>::empty(),
            final(self).sequence() == Seq::<Edit>::empty(),
            edits@ == old(self).sequence(),
            distinct_cells(edits@),
            as_map(edits@) == old(self)@,
            edits@.len() == old(self)@.dom().len(),
    {
        proof {
            use_type_invariant(&*self);
            lemma_as_map_distinct(self.entries@);
        }
        let mut edits: Vec<Edit> = Vec::new();
        std::mem::swap(&mut self.entries, &mut edits);
        edits
    }
}

/// Replacing the edit of a cell in place replaces its entry in the mapping.
proof fn lemma_set_replaces(edits: Seq<Edit>, i: int, edit: Edit)
    requires
        distinct_cells(edits),
        0 <= i < edits.len(),
        edits[i].at == edit.at,
    ensures
        distinct_cells(edits.update(i, edit)),
        as_map(edits.update(i, edit)) == as_map(edits).insert(edit.at, edit.intent),
    decreases edits.len(),
{
    let after = edits.update(i, edit);
    assert(distinct_cells(after)) by {
        assert forall|a: int, b: int| 0 <= a < b < after.len() implies after[a].at != after[b].at by {
            assert(edits[a].at != edits[b].at);
        }
    }
    if i == edits.len() - 1 {
        assert(after.drop_last() =~= edits.drop_last());
        assert(as_map(after) =~= as_map(edits).insert(edit.at, edit.intent));
    } else {
        assert(after.drop_last() =~= edits.drop_last().update(i, edit));
        assert(after.last() == edits.last());
        lemma_set_replaces(edits.drop_last(), i, edit);
        assert(edits[i].at != edits[edits.len() - 1].at);
        assert(as_map(after) =~= as_map(edits).insert(edit.at, edit.intent));
    }
}

} // verus!
