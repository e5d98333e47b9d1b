//! The lattice of cells, the bounded universe a session addresses, and the
//! boxes of cells that are asked of the engine.

use vstd::prelude::*;
use vstd::arithmetic::power2::*;
use vstd::bits::*;

verus! {

/// A cell of the lattice, as a column and a row.
pub type Coord = (i64, i64);

/// The deepest universe a session may address: its side is two to this power.
pub const MAX_DEPTH: usize = 62;

/// Two to the power `k`.
pub(crate) fn power_of_two(k: usize) -> (p: u64)
    requires
        k < 64,
    ensures
        p == pow2(k as nat),
{
    proof {
        lemma_u64_pow2_no_overflow(k as nat);
        lemma_u64_shl_is_mul(1u64, k as u64);
    }
    1u64 << (k as u64)
}

/// Powers of two grow with their exponent.
pub proof fn lemma_pow2_monotone(a: nat, b: nat)
    requires
        a <= b,
    ensures
        pow2(a) <= pow2(b),
{
    if a < b {
        lemma_pow2_strictly_increases(a, b);
    }
}

/// A closed box of cells: every cell whose column and row lie between those
/// of `min` and `max`, both included.
#[derive(Clone, Copy, PartialEq, Eq, Debug)]
pub struct Window {
    pub min: Coord,
    pub max: Coord,
}

impl Window {
    /// A box is well formed when its corners are in order on both axes, so
    /// that it holds at least one cell.
    pub open spec fn wf(self) -> bool {
        self.min.0 <= self.max.0 && self.min.1 <= self.max.1
    }

    /// Whether the cell at column `x` and row `y` lies in the box.
    pub open spec fn holds(self, x: int, y: int) -> bool {
        self.min.0 <= x <= self.max.0 && self.min.1 <= y <= self.max.1
    }

    /// Whether the box holds the cell `at`.
    pub fn contains(&self, at: Coord) -> (inside: bool)
        ensures
            inside == self.holds(at.0 as int, at.1 as int),
    {
        self.min.0 <= at.0 && at.0 <= self.max.0 && self.min.1 <= at.1 && at.1 <= self.max.1
    }
}

/// The square of cells that a session addresses.
///
/// Its side is `2^depth` cells. The viewer's coordinates are centred on the
/// middle of the square; the engine's run from zero at one corner. The
/// distance between the two origins, the bias, is half the side on each axis.
/// It is fixed when the session starts: a universe is never resized.
#[derive(Clone, Copy, Debug)]
pub struct Universe {
    depth: usize,
}

impl Universe {
    /// What holds of every universe a program holds.
    #[verifier::type_invariant]
    pub open spec fn inv(self) -> bool {
        self.wf()
    }

    /// The depth of the universe: its side is two to this power.
    pub closed spec fn spec_depth(self) -> nat {
        self.depth as nat
    }

    /// Every universe that a session holds is between one and [`MAX_DEPTH`]
    /// levels deep.
    pub open spec fn wf(self) -> bool {
        1 <= self.spec_depth() <= MAX_DEPTH
    }

    /// The bias: half the side of the universe.
    pub open spec fn spec_bias(self) -> int {
        pow2((self.spec_depth() - 1) as nat) as int
    }

    /// The side of the universe, in cells.
    pub open spec fn spec_side(self) -> int {
        pow2(self.spec_depth()) as int
    }

    /// Whether the engine's coordinate `at` names a cell of the universe.
    pub open spec fn spec_contains(self, at: Coord) -> bool {
        0 <= at.0 < self.spec_side() && 0 <= at.1 < self.spec_side()
    }

    /// The engine's coordinate of the viewer's cell `at`: `at` moved by the
    /// bias on both axes, where that is a cell of the universe.
    pub open spec fn spec_absolute(self, at: Coord) -> Option<Coord> {
        let bias = self.spec_bias();
        if -bias <= at.0 < bias && -bias <= at.1 < bias {
            Some(((at.0 + bias) as i64, (at.1 + bias) as i64))
        } else {
            None
        }
    }

    /// Whether the cell with the engine's coordinate `at` falls in `view`, a
    /// box in the viewer's coordinates.
    pub open spec fn spec_in_view(self, view: Window, at: Coord) -> bool {
        view.holds(at.0 - self.spec_bias(), at.1 - self.spec_bias())
    }

    /// The part of the universe that shows in `view`, a box in the viewer's
    /// coordinates: `view` moved by the bias and cut to the universe, as a
    /// box in the engine's coordinates, or `None` when nothing is left.
    pub open spec fn spec_clip(self, view: Window) -> Option<Window> {
        let bias = self.spec_bias();
        let last = self.spec_side() - 1;
        let left = if view.min.0 + bias < 0 { 0 } else { view.min.0 + bias };
        let top = if view.min.1 + bias < 0 { 0 } else { view.min.1 + bias };
        let right = if view.max.0 + bias > last { last } else { view.max.0 + bias };
        let bottom = if view.max.1 + bias > last { last } else { view.max.1 + bias };
        if left <= right && top <= bottom {
            Some(Window { min: (left as i64, top as i64), max: (right as i64, bottom as i64) })
        } else {
            None
        }
    }

    /// Where a pattern of `cells` cells in rows of `width` is inserted: its
    /// middle goes to the middle of the universe, if it has a width and is no
    /// wider or taller than the universe.
    pub open spec fn spec_placement(self, cells: nat, width: nat) -> Option<Coord> {
        if 1 <= width <= self.spec_side() && cells / width <= self.spec_side() {
            Some(
                (
                    (self.spec_bias() - width / 2) as i64,
                    (self.spec_bias() - (cells / width) / 2) as i64,
                ),
            )
        } else {
            None
        }
    }

    /// The side of a universe is twice its bias, and both fit a coordinate.
    pub proof fn lemma_extent(self)
        requires
            self.wf(),
        ensures
            1 <= self.spec_bias(),
            self.spec_side() == 2 * self.spec_bias(),
            self.spec_side() <= 0x4000_0000_0000_0000,
    {
        lemma_pow2_unfold(self.spec_depth());
        lemma_pow2_pos((self.spec_depth() - 1) as nat);
        lemma_pow2_monotone(self.spec_depth(), 62);
        lemma2_to64_rest();
    }

    /// Clipping is exact: the box it gives is well formed, lies inside the
    /// universe, and holds just those cells of the universe that fall in the
    /// view; it gives none only when no cell of the universe falls in the view.
    pub proof fn lemma_clip_exact(self, view: Window)
        requires
            self.wf(),
        ensures
            match self.spec_clip(view) {
                Some(w) => {
                    &&& w.wf()
                    &&& self.spec_contains(w.min)
                    &&& self.spec_contains(w.max)
                    &&& forall|at: Coord| #[trigger]
                        self.spec_contains(at) ==> (w.holds(at.0 as int, at.1 as int)
                            <==> self.spec_in_view(view, at))
                },
                None => forall|at: Coord| #[trigger]
                    self.spec_contains(at) ==> !self.spec_in_view(view, at),
            },
    {
        self.lemma_extent();
    }

    /// The universe of the given depth, if a session may address one so deep.
    pub fn new(depth: usize) -> (universe: Option<Universe>)
        ensures
            universe is Some <==> 1 <= depth <= MAX_DEPTH,
            universe matches Some(u) ==> u.wf() && u.spec_depth() == depth,
    {
        if 1 <= depth && depth <= MAX_DEPTH {
            Some(Universe { depth })
        } else {
            None
        }
    }

    /// The depth of the universe.
    pub fn depth(&self) -> (depth: usize)
        ensures
            depth == self.spec_depth(),
            self.wf(),
    {
        proof {
            use_type_invariant(self);
        }
        self.depth
    }

    /// The bias: half the side of the universe.
    pub fn bias(&self) -> (bias: i64)
        ensures
            bias == self.spec_bias(),
            self.wf(),
    {
        proof {
            use_type_invariant(self);
            self.lemma_extent();
        }
        power_of_two(self.depth - 1) as i64
    }

    /// The side of the universe, in cells.
    pub fn side(&self) -> (side: i64)
        ensures
            side == self.spec_side(),
            self.wf(),
    {
        proof {
            use_type_invariant(self);
            self.lemma_extent();
        }
        power_of_two(self.depth) as i64
    }

    /// Whether the engine's coordinate `at` names a cell of the universe.
    pub fn contains(&self, at: Coord) -> (inside: bool)
        ensures
            inside == self.spec_contains(at),
    {
        let side: i64 = self.side();
        0 <= at.0 && at.0 < side && 0 <= at.1 && at.1 < side
    }

    /// The engine's coordinate of the viewer's cell `at`, or `None` when the
    /// cell lies outside the universe.
    pub fn to_absolute(&self, at: Coord) -> (abs: Option<Coord>)
        ensures
            abs == self.spec_absolute(at),
            abs matches Some(a) ==> self.spec_contains(a),
    {
        let bias: i64 = self.bias();
        proof {
            self.lemma_extent();
        }
        if -bias <= at.0 && at.0 < bias && -bias <= at.1 && at.1 < bias {
            Some((at.0 + bias, at.1 + bias))
        } else {
            None
        }
    }

    /// The part of the universe that shows in `view`, a box in the viewer's
    /// coordinates, as a box in the engine's coordinates; `None` when no cell
    /// of the universe shows.
    ///
    /// The box that comes back never reaches outside the universe and is
    /// never malformed, so it can be handed to the engine as it is.
    pub fn query_window(&self, view: Window) -> (window: Option<Window>)
        ensures
            window == self.spec_clip(view),
            match window {
                Some(w) => {
                    &&& w.wf()
                    &&& self.spec_contains(w.min)
                    &&& self.spec_contains(w.max)
                    &&& forall|at: Coord| #[trigger]
                        self.spec_contains(at) ==> (w.holds(at.0 as int, at.1 as int)
                            <==> self.spec_in_view(view, at))
                },
                None => forall|at: Coord| #[trigger]
                    self.spec_contains(at) ==> !self.spec_in_view(view, at),
            },
    {
        let bias: i128 = self.bias() as i128;
        let last: i128 = self.side() as i128 - 1;
        proof {
            self.lemma_extent();
        }
        let left: i128 = clamp_low(view.min.0 as i128 + bias);
        let top: i128 = clamp_low(view.min.1 as i128 + bias);
        let right: i128 = clamp_high(view.max.0 as i128 + bias, last);
        let bottom: i128 = clamp_high(view.max.1 as i128 + bias, last);
        if left <= right && top <= bottom {
            Some(Window { min: (left as i64, top as i64), max: (right as i64, bottom as i64) })
        } else {
            None
        }
    }

    /// Where to insert a pattern of `cells` cells, laid out in rows of
    /// `width`, so that its middle is the middle of the universe: the
    /// engine's coordinate of its first cell. `None` when the pattern has no
    /// width or does not fit the universe.
    pub fn place_pattern(&self, cells: usize, width: usize) -> (top_left: Option<Coord>)
        ensures
            top_left == self.spec_placement(cells as nat, width as nat),
            top_left matches Some(corner) ==> {
                &&& 0 <= corner.0
                &&& corner.0 + width <= self.spec_side()
                &&& 0 <= corner.1
                &&& corner.1 + cells / width <= self.spec_side()
            },
    {
        let bias: i64 = self.bias();
        let side: u64 = self.side() as u64;
        proof {
            self.lemma_extent();
        }
        if width == 0 || width as u64 > side {
            return None;
        }
        let height: usize = cells / width;
        if height as u64 > side {
            return None;
        }
        Some((bias - (width / 2) as i64, bias - (height / 2) as i64))
    }
}

/// `v`, or zero if `v` is negative.
fn clamp_low(v: i128) -> (r: i128)
    ensures
        r == if v < 0 { 0 } else { v },
{
    if v < 0 {
        0
    } else {
        v
    }
}

/// `v`, or `last` if `v` is beyond it.
fn clamp_high(v: i128, last: i128) -> (r: i128)
    ensures
        r == if v > last { last } else { v },
{
    if v > last {
        last
    } else {
        v
    }
}

} // verus!
