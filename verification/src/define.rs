//! The grid model: tiles, the puzzle state, and its mathematical view.
use vstd::prelude::*;

verus! {

/// A special marker occupying a grid cell; a cell may also be empty.
///
/// `Wall` blocks entry outright. `Trap` decays to a `Wall` when the player
/// leaves it. `Loose` blocks entry but erodes when the player ends a step
/// adjacent to it. `Sticky` halts a slide on arrival but is never altered.
#[derive(Clone, Copy, PartialEq, Eq, Structural, Hash, Debug)]
pub enum Block {
    Wall,
    Trap,
    Loose,
    Sticky,
}

/// A rectangular board: rows of cells, each cell holding at most one tile.
pub type Grid = Vec<Vec<Option<Block>>>;

/// A zero-based (row, column) pair identifying a cell.
pub type Position = (usize, usize);

/// The full searchable configuration: grid contents plus player and target.
#[derive(Debug)]
pub struct FttMap {
    pub map: Grid,
    pub player: Position,
    pub target: Position,
}

/// The mathematical model of a puzzle state, used by every contract.
pub ghost struct MapModel {
    pub grid: Seq<Seq<Option<Block>>>,
    pub player: (int, int),
    pub target: (int, int),
}

/// The abstraction of a concrete grid: a sequence of rows of cells.
pub open spec fn grid_view(g: Grid) -> Seq<Seq<Option<Block>>> {
    Seq::new(g@.len(), |i: int| g@[i]@)
}

impl View for FttMap {
    type V = MapModel;

    open spec fn view(&self) -> MapModel {
        MapModel {
            grid: grid_view(self.map),
            player: (self.player.0 as int, self.player.1 as int),
            target: (self.target.0 as int, self.target.1 as int),
        }
    }
}

/// Every row has the same length as the first one.
pub open spec fn rect(g: Seq<Seq<Option<Block>>>) -> bool {
    forall|i: int| 0 <= i < g.len() ==> (#[trigger] g[i]).len() == g[0].len()
}

/// `p` denotes a cell of the grid.
pub open spec fn in_bounds(g: Seq<Seq<Option<Block>>>, p: (int, int)) -> bool {
    0 <= p.0 < g.len() && 0 <= p.1 < g[0].len()
}

/// `p` denotes a cell strictly inside the border ring.
pub open spec fn interior(g: Seq<Seq<Option<Block>>>, p: (int, int)) -> bool {
    1 <= p.0 < g.len() - 1 && 1 <= p.1 < g[0].len() - 1
}

/// `p` lies on the outermost ring of the grid.
pub open spec fn on_border(g: Seq<Seq<Option<Block>>>, p: (int, int)) -> bool {
    p.0 == 0 || p.0 == g.len() - 1 || p.1 == 0 || p.1 == g[0].len() - 1
}

/// The contents of the cell at `p`.
pub open spec fn cell(g: Seq<Seq<Option<Block>>>, p: (int, int)) -> Option<Block> {
    g[p.0][p.1]
}

/// The grid with the cell at `p` replaced by `v`.
pub open spec fn put(
    g: Seq<Seq<Option<Block>>>,
    p: (int, int),
    v: Option<Block>,
) -> Seq<Seq<Option<Block>>> {
    g.update(p.0, g[p.0].update(p.1, v))
}

/// The whole outermost ring consists of `Wall` tiles.
pub open spec fn bordered(g: Seq<Seq<Option<Block>>>) -> bool {
    forall|p: (int, int)|
        in_bounds(g, p) && on_border(g, p) ==> #[trigger] cell(g, p) == Some(Block::Wall)
}

/// The precondition the engine assumes of every state it is handed:
/// a rectangular grid of at least 3 rows and 3 columns, a full `Wall`
/// border, and player and target on interior cells.
pub open spec fn wf(m: MapModel) -> bool {
    &&& m.grid.len() >= 3
    &&& m.grid[0].len() >= 3
    &&& rect(m.grid)
    &&& bordered(m.grid)
    &&& interior(m.grid, m.player)
    &&& interior(m.grid, m.target)
}

/// How a single cell may change under the engine: it stays as it is,
/// a `Trap` decays to a `Wall`, or a `Loose` tile is removed.
pub open spec fn decayed(before: Option<Block>, after: Option<Block>) -> bool {
    ||| after == before
    ||| (before == Some(Block::Trap) && after == Some(Block::Wall))
    ||| (before == Some(Block::Loose) && after is None)
}

impl FttMap {
    /// Assemble a puzzle state from its parts.
    pub fn new(map: Grid, player: Position, target: Position) -> (r: Self)
        ensures
            r@.grid == grid_view(map),
            r@.player == (player.0 as int, player.1 as int),
            r@.target == (target.0 as int, target.1 as int),
    {
        Self { map, player, target }
    }
}

/// Read the cell at `p`.
pub fn grid_get(g: &Grid, p: Position) -> (r: Option<Block>)
    requires
        rect(grid_view(*g)),
        in_bounds(grid_view(*g), (p.0 as int, p.1 as int)),
    ensures
        r == cell(grid_view(*g), (p.0 as int, p.1 as int)),
{
    g[p.0][p.1]
}

/// Replace the cell at `p` by `v`.
pub fn grid_put(g: &mut Grid, p: Position, v: Option<Block>)
    requires
        rect(grid_view(*old(g))),
        in_bounds(grid_view(*old(g)), (p.0 as int, p.1 as int)),
    ensures
        grid_view(*final(g)) == put(grid_view(*old(g)), (p.0 as int, p.1 as int), v),
{
    proof {
        assert(grid_view(*g)[p.0 as int] == g@[p.0 as int]@);
    }
    g[p.0][p.1] = v;
    proof {
        assert(grid_view(*g) =~~= put(grid_view(*old(g)), (p.0 as int, p.1 as int), v));
    }
}

/// Structural copy of a grid.
pub fn clone_grid(g: &Grid) -> (r: Grid)
    ensures
        grid_view(r) == grid_view(*g),
{
    let mut out: Grid = Vec::new();
    let mut i: usize = 0;
    while i < g.len()
        invariant
            i <= g@.len(),
            out@.len() == i,
            forall|k: int| 0 <= k < i ==> (#[trigger] out@[k])@ == g@[k]@,
        decreases g@.len() - i,
    {
        let row = &g[i];
        let mut new_row: Vec<Option<Block>> = Vec::new();
        let mut j: usize = 0;
        while j < row.len()
            invariant
                j <= row@.len(),
                new_row@.len() == j,
                forall|k: int| 0 <= k < j ==> new_row@[k] == row@[k],
            decreases row@.len() - j,
        {
            new_row.push(row[j]);
            j = j + 1;
        }
        proof {
            assert(new_row@ =~= row@);
        }
        out.push(new_row);
        i = i + 1;
    }
    proof {
        assert(grid_view(out) =~~= grid_view(*g));
    }
    out
}

/// Structural copy of a puzzle state.
pub fn clone_state(s: &FttMap) -> (r: FttMap)
    ensures
        r@ == s@,
{
    FttMap { map: clone_grid(&s.map), player: s.player, target: s.target }
}

/// Compare two positions.
pub fn pos_eq(a: Position, b: Position) -> (r: bool)
    ensures
        r == (((a.0 as int, a.1 as int)) == ((b.0 as int, b.1 as int))),
{
    a.0 == b.0 && a.1 == b.1
}

/// Compare two cells.
pub fn cell_eq(a: Option<Block>, b: Option<Block>) -> (r: bool)
    ensures
        r == (a == b),
{
    match (a, b) {
        (None, None) => true,
        (Some(x), Some(y)) => x == y,
        _ => false,
    }
}

/// Compare two grids cell by cell.
pub fn grid_eq(a: &Grid, b: &Grid) -> (r: bool)
    ensures
        r == (grid_view(*a) == grid_view(*b)),
{
    if a.len() != b.len() {
        proof {
            assert(grid_view(*a).len() != grid_view(*b).len());
        }
        return false;
    }
    let mut i: usize = 0;
    while i < a.len()
        invariant
            i <= a@.len(),
            a@.len() == b@.len(),
            forall|k: int| 0 <= k < i ==> (#[trigger] a@[k])@ == b@[k]@,
        decreases a@.len() - i,
    {
        let ra = &a[i];
        let rb = &b[i];
        if ra.len() != rb.len() {
            proof {
                assert(grid_view(*a)[i as int].len() != grid_view(*b)[i as int].len());
            }
            return false;
        }
        let mut j: usize = 0;
        while j < ra.len()
            invariant
                j <= ra@.len(),
                ra@.len() == rb@.len(),
                ra@ == a@[i as int]@,
                rb@ == b@[i as int]@,
                i < a@.len(),
                a@.len() == b@.len(),
                forall|k: int| 0 <= k < j ==> ra@[k] == rb@[k],
        decreases ra@.len() - j,
        {
            if !cell_eq(ra[j], rb[j]) {
                proof {
                    assert(grid_view(*a)[i as int][j as int] != grid_view(*b)[i as int][j as int]);
                }
                return false;
            }
            j = j + 1;
        }
        proof {
            assert(a@[i as int]@ =~= b@[i as int]@);
        }
        i = i + 1;
    }
    proof {
        assert(grid_view(*a) =~~= grid_view(*b));
    }
    true
}

/// Compare two puzzle states structurally, as the visited-set deduplication
/// requires: full grid contents plus both coordinates.
pub fn state_eq(a: &FttMap, b: &FttMap) -> (r: bool)
    ensures
        r == (a@ == b@),
{
    let r = pos_eq(a.player, b.player) && pos_eq(a.target, b.target) && grid_eq(&a.map, &b.map);
    r
}

} // verus!
