//! Culling: which of the macrocells that the engine reports show in the
//! viewport.

use vstd::prelude::*;
use vstd::arithmetic::power2::*;
use crate::lattice::{lemma_pow2_monotone, power_of_two, Coord};

verus! {

/// The viewport's rectangle on the lattice, in half cells.
///
/// For a viewport that spans the cells from `min` to `max` on an axis, both
/// of them any real numbers, `low` holds twice `min` rounded up and `high`
/// twice `max` rounded down. The edges of a macrocell are whole numbers of
/// half cells, so they compare with `low` and `high` exactly as they compare
/// with twice the viewport's own edges, and nothing is lost by the rounding.
/// Where the viewport is narrower than half a cell, `low` may come out above
/// `high`; the comparisons still hold.
#[derive(Clone, Copy, PartialEq, Eq, Debug)]
pub struct ViewExtent {
    pub low: Coord,
    pub high: Coord,
}

/// Whether the macrocell of the given depth that is centred on `cell` meets
/// the viewport: the closed square of side `2^depth` around the cell and the
/// viewport's rectangle have a point in common.
pub open spec fn touches(cell: Coord, depth: nat, extent: ViewExtent) -> bool {
    let edge = pow2(depth) as int;
    &&& extent.low.0 <= 2 * cell.0 + edge
    &&& 2 * cell.0 - edge <= extent.high.0
    &&& extent.low.1 <= 2 * cell.1 + edge
    &&& 2 * cell.1 - edge <= extent.high.1
}

/// The test that culling applies to each cell.
pub open spec fn shows(depth: nat, extent: ViewExtent) -> spec_fn(Coord) -> bool {
    |cell: Coord| touches(cell, depth, extent)
}

/// The macrocells among `cells` that meet the viewport, in the order given.
pub open spec fn spec_visible(cells: Seq<Coord>, depth: nat, extent: ViewExtent) -> Seq<Coord> {
    cells.filter(shows(depth, extent))
}

/// Culling is exact: every macrocell it keeps meets the viewport, it keeps
/// every reported macrocell that does, and it keeps nothing else. A kept
/// macrocell reaches beyond the viewport by less than its own edge.
pub proof fn lemma_visible_exact(cells: Seq<Coord>, depth: nat, extent: ViewExtent)
    ensures
        forall|i: int|
            0 <= i < spec_visible(cells, depth, extent).len() ==> {
                let cell = #[trigger] spec_visible(cells, depth, extent)[i];
                &&& cells.contains(cell)
                &&& touches(cell, depth, extent)
                &&& 2 * cell.0 - pow2(depth) >= extent.low.0 - 2 * pow2(depth)
                &&& 2 * cell.0 + pow2(depth) <= extent.high.0 + 2 * pow2(depth)
                &&& 2 * cell.1 - pow2(depth) >= extent.low.1 - 2 * pow2(depth)
                &&& 2 * cell.1 + pow2(depth) <= extent.high.1 + 2 * pow2(depth)
            },
        forall|i: int|
            0 <= i < cells.len() && touches(#[trigger] cells[i], depth, extent)
                ==> spec_visible(cells, depth, extent).contains(cells[i]),
        forall|cell: Coord|
            !touches(cell, depth, extent) ==> !(#[trigger] spec_visible(
                cells,
                depth,
                extent,
            ).contains(cell)),
        spec_visible(cells, depth, extent).len() <= cells.len(),
{
    let pred = shows(depth, extent);
    let kept = cells.filter(pred);
    broadcast use
        Seq::lemma_filter_len,
        Seq::lemma_filter_pred,
        Seq::lemma_filter_contains,
        Seq::lemma_filter_contains_rev,
    ;
    assert forall|i: int| 0 <= i < kept.len() implies cells.contains(#[trigger] kept[i])
        && touches(kept[i], depth, extent) by {
        assert(pred(kept[i]));
        assert(kept.contains(kept[i]));
    }
    assert forall|i: int| 0 <= i < cells.len() && touches(
        #[trigger] cells[i],
        depth,
        extent,
    ) implies kept.contains(cells[i]) by {
        assert(pred(cells[i]));
    }
    assert forall|cell: Coord| !touches(cell, depth, extent) implies !(#[trigger] kept.contains(
        cell,
    )) by {
        if kept.contains(cell) {
            let i = choose|i: int| 0 <= i < kept.len() && kept[i] == cell;
            assert(pred(kept[i]));
        }
    }
}

/// The edge of a macrocell of the given depth, in cells.
fn edge_of(depth: usize) -> (edge: i128)
    requires
        depth <= 64,
    ensures
        edge == pow2(depth as nat),
{
    if depth < 64 {
        power_of_two(depth) as i128
    } else {
        proof {
            lemma_pow2_unfold(64);
        }
        2 * (power_of_two(63) as i128)
    }
}

/// Whether the macrocell of the given depth that is centred on `cell` meets
/// the viewport.
pub fn intersects(cell: Coord, depth: usize, extent: &ViewExtent) -> (hit: bool)
    ensures
        hit == touches(cell, depth as nat, *extent),
{
    if depth > 64 {
        proof {
            lemma_pow2_monotone(65, depth as nat);
            lemma_pow2_unfold(65);
            lemma2_to64_rest();
        }
        return true;
    }
    let edge: i128 = edge_of(depth);
    proof {
        lemma_pow2_monotone(depth as nat, 64);
        lemma2_to64_rest();
    }
    let x: i128 = 2 * (cell.0 as i128);
    let y: i128 = 2 * (cell.1 as i128);
    extent.low.0 as i128 <= x + edge && x - edge <= extent.high.0 as i128 && extent.low.1 as i128
        <= y + edge && y - edge <= extent.high.1 as i128
}

/// Keeps the macrocells among `cells` that meet the viewport, in the order
/// given.
pub fn cull(cells: &Vec<Coord>, depth: usize, extent: &ViewExtent) -> (visible: Vec<Coord>)
    ensures
        visible@ == spec_visible(cells@, depth as nat, *extent),
{
    let mut visible: Vec<Coord> = Vec::new();
    let mut i: usize = 0;
    proof {
        reveal(Seq::filter);
        assert(cells@.take(0) =~= Seq::<Coord>::empty());
    }
    while i < cells.len()
        invariant
            i <= cells@.len(),
            visible@ == cells@.take(i as int).filter(shows(depth as nat, *extent)),
        decreases cells@.len() - i,
    {
        let cell: Coord = cells[i];
        let hit: bool = intersects(cell, depth, extent);
        proof {
            reveal(Seq::filter);
            let next = cells@.take(i as int + 1);
            assert(next.drop_last() =~= cells@.take(i as int));
            assert(next.last() == cell);
            assert(shows(depth as nat, *extent)(cell) == hit);
        }
        if hit {
            visible.push(cell);
        }
        i += 1;
    }
    assert(cells@.take(i as int) =~= cells@);
    visible
}

} // verus!
