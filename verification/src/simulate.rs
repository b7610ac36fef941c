//! The simulation engine: one directional slide over a puzzle state.
use vstd::prelude::*;

use crate::define::Block;
use crate::define::FttMap;
use crate::define::MapModel;
use crate::define::Position;
use crate::define::bordered;
use crate::define::cell;
use crate::define::decayed;
use crate::define::grid_get;
use crate::define::grid_put;
use crate::define::grid_view;
use crate::define::in_bounds;
use crate::define::interior;
use crate::define::on_border;
use crate::define::pos_eq;
use crate::define::put;
use crate::define::rect;
use crate::define::wf;
use crate::define::Grid;
use crate::error::Error;
use crate::error::param_msg;

verus! {

/// The four-way movement alphabet, in the enumeration order the search
/// engine uses as its deterministic tie-break.
#[derive(Clone, Copy, PartialEq, Eq, Structural, Debug)]
pub enum Direction {
    Up,
    Down,
    Left,
    Right,
}

impl Direction {
    /// The unit coordinate delta of this direction, as (row delta, column delta).
    pub open spec fn delta(self) -> (int, int) {
        match self {
            Direction::Up => (-1, 0),
            Direction::Down => (1, 0),
            Direction::Left => (0, -1),
            Direction::Right => (0, 1),
        }
    }

    /// Parse a single-character token: 'w' is Up, 's' is Down, 'a' is Left,
    /// 'd' is Right; any other character is rejected.
    pub fn try_from(value: char) -> (r: Result<Direction, Error>)
        ensures
            value == 'w' ==> r == Ok::<Direction, Error>(Direction::Up),
            value == 's' ==> r == Ok::<Direction, Error>(Direction::Down),
            value == 'a' ==> r == Ok::<Direction, Error>(Direction::Left),
            value == 'd' ==> r == Ok::<Direction, Error>(Direction::Right),
            !(value == 'w' || value == 's' || value == 'a' || value == 'd') ==> (r matches Err(
                Error::Param(msg),
            ) && msg@ == param_msg(value)),
    {
        match value {
            'w' => Ok(Direction::Up),
            's' => Ok(Direction::Down),
            'a' => Ok(Direction::Left),
            'd' => Ok(Direction::Right),
            _ => Err(Error::Param(crate::error::format_param_msg(value))),
        }
    }
}

/// The cell one step from `p` in direction `dir`.
pub open spec fn spec_next(p: (int, int), dir: Direction) -> (int, int) {
    (p.0 + dir.delta().0, p.1 + dir.delta().1)
}

/// A hard obstacle prevents entry outright: a `Wall` or a `Loose` tile.
pub open spec fn is_hard(b: Option<Block>) -> bool {
    b == Some(Block::Wall) || b == Some(Block::Loose)
}

/// Remove the tile at `p` if it is a `Loose` one.
pub open spec fn erode1(g: Seq<Seq<Option<Block>>>, p: (int, int)) -> Seq<Seq<Option<Block>>> {
    if in_bounds(g, p) && cell(g, p) == Some(Block::Loose) {
        put(g, p, None)
    } else {
        g
    }
}

/// Remove every `Loose` tile adjacent to `q`, inspecting the four
/// neighbours in enumeration order.
pub open spec fn erode_around(g: Seq<Seq<Option<Block>>>, q: (int, int)) -> Seq<
    Seq<Option<Block>>,
> {
    erode1(
        erode1(
            erode1(erode1(g, spec_next(q, Direction::Up)), spec_next(q, Direction::Down)),
            spec_next(q, Direction::Left),
        ),
        spec_next(q, Direction::Right),
    )
}

/// One iteration of the slide loop: the player enters `cur`, tile side
/// effects fire, and the iteration reports the next candidate cell and
/// whether the slide halts (target reached, sticky tile, or a hard
/// obstacle ahead after erosion).
pub open spec fn slide_step(m: MapModel, cur: (int, int), dir: Direction) -> (
    MapModel,
    (int, int),
    bool,
) {
    let prev = m.player;
    let sticky = cell(m.grid, cur) == Some(Block::Sticky);
    let nxt = spec_next(cur, dir);
    let g1 = if cell(m.grid, prev) == Some(Block::Trap) {
        put(m.grid, prev, Some(Block::Wall))
    } else {
        m.grid
    };
    let g2 = erode_around(g1, cur);
    let blocked = is_hard(cell(g2, nxt));
    let m2 = MapModel { grid: g2, player: cur, target: m.target };
    (m2, nxt, cur == m.target || sticky || blocked)
}

/// The facts that hold at every iteration of a slide: a well-formed
/// bordered grid, the player inside it, and `cur` the interior cell the
/// player is about to enter, one step from the player.
pub open spec fn slide_inv(m: MapModel, cur: (int, int), dir: Direction) -> bool {
    &&& m.grid.len() >= 3
    &&& m.grid[0].len() >= 3
    &&& rect(m.grid)
    &&& bordered(m.grid)
    &&& interior(m.grid, m.player)
    &&& interior(m.grid, cur)
    &&& cur == spec_next(m.player, dir)
}

/// How many cells remain between `p` and the far edge of the grid in
/// direction `dir`; the slide's termination measure.
pub open spec fn edge_dist(g: Seq<Seq<Option<Block>>>, p: (int, int), dir: Direction) -> int {
    match dir {
        Direction::Up => p.0,
        Direction::Down => g.len() - 1 - p.0,
        Direction::Left => p.1,
        Direction::Right => g[0].len() - 1 - p.1,
    }
}

/// The state at the end of a slide that is about to enter `cur`.
pub open spec fn slide(m: MapModel, cur: (int, int), dir: Direction) -> MapModel
    decreases edge_dist(m.grid, cur, dir)
        when slide_inv(m, cur, dir)
        via slide_decreases
{
    let s = slide_step(m, cur, dir);
    if s.2 {
        s.0
    } else {
        slide(s.0, s.1, dir)
    }
}

#[via_fn]
proof fn slide_decreases(m: MapModel, cur: (int, int), dir: Direction) {
    lemma_step(m, cur, dir);
}

/// What one legal move does: nothing if the first cell in `dir` holds a
/// hard obstacle, otherwise the slide from that cell; the flag reports
/// whether the move was legal.
pub open spec fn spec_simulate(m: MapModel, dir: Direction) -> (MapModel, bool) {
    let first = spec_next(m.player, dir);
    if is_hard(cell(m.grid, first)) {
        (m, false)
    } else {
        (slide(m, first, dir), true)
    }
}

/// `to` lies on the ray that starts at `from` and runs along `dir`.
pub open spec fn advanced(from: (int, int), to: (int, int), dir: Direction) -> bool {
    match dir {
        Direction::Up => to.1 == from.1 && to.0 <= from.0,
        Direction::Down => to.1 == from.1 && to.0 >= from.0,
        Direction::Left => to.0 == from.0 && to.1 <= from.1,
        Direction::Right => to.0 == from.0 && to.1 >= from.1,
    }
}

proof fn lemma_put_cells(g: Seq<Seq<Option<Block>>>, p: (int, int), v: Option<Block>)
    requires
        rect(g),
        in_bounds(g, p),
    ensures
        put(g, p, v).len() == g.len(),
        put(g, p, v)[0].len() == g[0].len(),
        rect(put(g, p, v)),
        forall|q: (int, int)| in_bounds(g, q) && q != p ==> #[trigger] cell(put(g, p, v), q) == cell(
            g,
            q,
        ),
        cell(put(g, p, v), p) == v,
{
    let g2 = put(g, p, v);
    assert forall|i: int| 0 <= i < g2.len() implies (#[trigger] g2[i]).len() == g2[0].len() by {
        assert(g[i].len() == g[0].len());
    }
    assert forall|q: (int, int)| in_bounds(g, q) && q != p implies #[trigger] cell(g2, q) == cell(
        g,
        q,
    ) by {
        if q.0 == p.0 {
            assert(g2[q.0] == g[p.0].update(p.1, v));
            assert(q.1 != p.1);
        }
    }
}

proof fn lemma_erode1_cells(g: Seq<Seq<Option<Block>>>, p: (int, int))
    requires
        rect(g),
        g.len() >= 1,
    ensures
        erode1(g, p).len() == g.len(),
        erode1(g, p)[0].len() == g[0].len(),
        rect(erode1(g, p)),
        forall|q: (int, int)| in_bounds(g, q) && q != p ==> #[trigger] cell(erode1(g, p), q) == cell(
            g,
            q,
        ),
        forall|q: (int, int)| in_bounds(g, q) ==> decayed(cell(g, q), #[trigger] cell(erode1(g, p), q)),
{
    if in_bounds(g, p) && cell(g, p) == Some(Block::Loose) {
        lemma_put_cells(g, p, None);
    }
}

proof fn lemma_erode_around_cells(g: Seq<Seq<Option<Block>>>, q0: (int, int))
    requires
        rect(g),
        g.len() >= 3,
        g[0].len() >= 3,
        interior(g, q0),
    ensures
        erode_around(g, q0).len() == g.len(),
        erode_around(g, q0)[0].len() == g[0].len(),
        rect(erode_around(g, q0)),
        cell(erode_around(g, q0), q0) == cell(g, q0),
        forall|q: (int, int)| in_bounds(g, q) ==> decayed(
            cell(g, q),
            #[trigger] cell(erode_around(g, q0), q),
        ),
{
    let pu = spec_next(q0, Direction::Up);
    let pd = spec_next(q0, Direction::Down);
    let pl = spec_next(q0, Direction::Left);
    let pr = spec_next(q0, Direction::Right);
    let ga = erode1(g, pu);
    let gb = erode1(ga, pd);
    let gc = erode1(gb, pl);
    let gd = erode1(gc, pr);
    lemma_erode1_cells(g, pu);
    lemma_erode1_cells(ga, pd);
    lemma_erode1_cells(gb, pl);
    lemma_erode1_cells(gc, pr);
    assert forall|q: (int, int)| in_bounds(g, q) implies decayed(
        cell(g, q),
        #[trigger] cell(gd, q),
    ) by {
        assert(decayed(cell(g, q), cell(ga, q)));
        assert(decayed(cell(ga, q), cell(gb, q)));
        assert(decayed(cell(gb, q), cell(gc, q)));
        assert(decayed(cell(gc, q), cell(gd, q)));
    }
    assert(cell(gd, q0) == cell(g, q0));
}

/// Everything one iteration of the slide preserves or changes: the grid
/// keeps its shape and border, every cell only decays, the entered cell
/// itself is untouched, and while the slide goes on the invariant carries
/// to the next cell with the termination measure shrinking by one.
pub proof fn lemma_step(m: MapModel, cur: (int, int), dir: Direction)
    requires
        slide_inv(m, cur, dir),
    ensures
        ({
            let s = slide_step(m, cur, dir);
            &&& s.0.grid.len() == m.grid.len()
            &&& s.0.grid[0].len() == m.grid[0].len()
            &&& rect(s.0.grid)
            &&& bordered(s.0.grid)
            &&& s.0.player == cur
            &&& s.0.target == m.target
            &&& s.1 == spec_next(cur, dir)
            &&& forall|q: (int, int)| in_bounds(m.grid, q) ==> decayed(
                cell(m.grid, q),
                #[trigger] cell(s.0.grid, q),
            )
            &&& cell(s.0.grid, cur) == cell(m.grid, cur)
            &&& edge_dist(m.grid, cur, dir) >= 1
            &&& (!s.2 ==> slide_inv(s.0, s.1, dir) && !is_hard(cell(s.0.grid, s.1)) && edge_dist(
                s.0.grid,
                s.1,
                dir,
            ) == edge_dist(m.grid, cur, dir) - 1)
        }),
{
    let prev = m.player;
    let g1 = if cell(m.grid, prev) == Some(Block::Trap) {
        put(m.grid, prev, Some(Block::Wall))
    } else {
        m.grid
    };
    if cell(m.grid, prev) == Some(Block::Trap) {
        lemma_put_cells(m.grid, prev, Some(Block::Wall));
    }
    assert(cur != prev);
    lemma_erode_around_cells(g1, cur);
    let s = slide_step(m, cur, dir);
    let g2 = s.0.grid;
    assert forall|q: (int, int)| in_bounds(m.grid, q) implies decayed(
        cell(m.grid, q),
        #[trigger] cell(g2, q),
    ) by {
        assert(decayed(cell(m.grid, q), cell(g1, q)));
        assert(decayed(cell(g1, q), cell(g2, q)));
    }
    assert(bordered(g2)) by {
        assert forall|p: (int, int)| in_bounds(g2, p) && on_border(g2, p) implies #[trigger] cell(
            g2,
            p,
        ) == Some(Block::Wall) by {
            assert(in_bounds(m.grid, p) && on_border(m.grid, p));
            assert(cell(m.grid, p) == Some(Block::Wall));
            assert(decayed(cell(m.grid, p), cell(g2, p)));
        }
    }
    assert(cell(g2, cur) == cell(m.grid, cur));
    if !s.2 {
        let nxt = s.1;
        assert(in_bounds(m.grid, nxt));
        assert(cell(g2, nxt) != Some(Block::Wall));
        assert(!on_border(g2, nxt));
        assert(interior(g2, nxt));
    }
}

/// Everything a whole slide guarantees, by induction over its iterations:
/// shape, border and target are preserved, every cell only decays, the
/// player ends on an interior cell that holds no hard obstacle, and the
/// player only ever advances along `dir` from the entered cell.
pub proof fn lemma_slide(m: MapModel, cur: (int, int), dir: Direction)
    requires
        slide_inv(m, cur, dir),
        !is_hard(cell(m.grid, cur)),
    ensures
        ({
            let r = slide(m, cur, dir);
            &&& r.grid.len() == m.grid.len()
            &&& r.grid[0].len() == m.grid[0].len()
            &&& rect(r.grid)
            &&& bordered(r.grid)
            &&& r.target == m.target
            &&& interior(r.grid, r.player)
            &&& !is_hard(cell(r.grid, r.player))
            &&& advanced(cur, r.player, dir)
            &&& forall|q: (int, int)| in_bounds(m.grid, q) ==> decayed(
                cell(m.grid, q),
                #[trigger] cell(r.grid, q),
            )
        }),
    decreases edge_dist(m.grid, cur, dir),
{
    lemma_step(m, cur, dir);
    let s = slide_step(m, cur, dir);
    if !s.2 {
        lemma_slide(s.0, s.1, dir);
        let r = slide(m, cur, dir);
        assert forall|q: (int, int)| in_bounds(m.grid, q) implies decayed(
            cell(m.grid, q),
            #[trigger] cell(r.grid, q),
        ) by {
            assert(decayed(cell(m.grid, q), cell(s.0.grid, q)));
            assert(in_bounds(s.0.grid, q));
            assert(decayed(cell(s.0.grid, q), cell(r.grid, q)));
        }
    }
}

/// Everything a whole move guarantees, legal or not; the single lemma the
/// executable engine and its callers lean on.
pub proof fn lemma_simulate_props(m: MapModel, dir: Direction)
    requires
        wf(m),
    ensures
        ({
            let r = spec_simulate(m, dir);
            &&& wf(r.0)
            &&& r.0.target == m.target
            &&& r.0.grid.len() == m.grid.len()
            &&& r.0.grid[0].len() == m.grid[0].len()
            &&& (!r.1 ==> r.0 == m)
            &&& (r.1 ==> r.0.player != m.player)
            &&& (r.1 ==> !is_hard(cell(r.0.grid, r.0.player)))
            &&& forall|q: (int, int)| in_bounds(m.grid, q) ==> decayed(
                cell(m.grid, q),
                #[trigger] cell(r.0.grid, q),
            )
        }),
{
    let first = spec_next(m.player, dir);
    if !is_hard(cell(m.grid, first)) {
        assert(in_bounds(m.grid, first));
        assert(cell(m.grid, first) != Some(Block::Wall));
        assert(!on_border(m.grid, first));
        assert(interior(m.grid, first));
        assert(slide_inv(m, first, dir));
        lemma_slide(m, first, dir);
    } else {
        let r = spec_simulate(m, dir);
        assert forall|q: (int, int)| in_bounds(m.grid, q) implies decayed(
            cell(m.grid, q),
            #[trigger] cell(r.0.grid, q),
        ) by {}
    }
}

/// Determinism: the state and the direction alone determine a move's
/// outcome, so repeated moves from identical states agree.
pub proof fn lemma_simulate_deterministic(m1: MapModel, m2: MapModel, dir: Direction)
    requires
        m1 == m2,
    ensures
        spec_simulate(m1, dir) == spec_simulate(m2, dir),
{
}

/// Obstacle exclusion: a legal move never leaves the player on a `Wall`
/// or on a `Loose` tile.
pub proof fn lemma_obstacle_exclusion(m: MapModel, dir: Direction)
    requires
        wf(m),
        spec_simulate(m, dir).1,
    ensures
        !is_hard(cell(spec_simulate(m, dir).0.grid, spec_simulate(m, dir).0.player)),
{
    lemma_simulate_props(m, dir);
}

/// Monotonic decay: a move only ever decays cells, so a cell already
/// turned to `Wall` never reverts and an emptied cell never refills.
pub proof fn lemma_monotonic_decay(m: MapModel, dir: Direction, p: (int, int))
    requires
        wf(m),
        in_bounds(m.grid, p),
    ensures
        decayed(cell(m.grid, p), cell(spec_simulate(m, dir).0.grid, p)),
        cell(m.grid, p) == Some(Block::Wall) ==> cell(spec_simulate(m, dir).0.grid, p) == Some(
            Block::Wall,
        ),
        cell(m.grid, p) is None ==> cell(spec_simulate(m, dir).0.grid, p) is None,
{
    lemma_simulate_props(m, dir);
}

/// The cell one step from `pos`, on concrete coordinates.
fn next(pos: Position, dir: Direction) -> (r: Position)
    requires
        pos.0 >= 1,
        pos.1 >= 1,
        pos.0 < usize::MAX,
        pos.1 < usize::MAX,
    ensures
        (r.0 as int, r.1 as int) == spec_next((pos.0 as int, pos.1 as int), dir),
{
    match dir {
        Direction::Up => (pos.0 - 1, pos.1),
        Direction::Down => (pos.0 + 1, pos.1),
        Direction::Left => (pos.0, pos.1 - 1),
        Direction::Right => (pos.0, pos.1 + 1),
    }
}

/// Does this cell hold a hard obstacle?
fn hard_block(b: Option<Block>) -> (r: bool)
    ensures
        r == is_hard(b),
{
    match b {
        Some(Block::Wall) => true,
        Some(Block::Loose) => true,
        _ => false,
    }
}

/// Remove the tile at `p` if it is a `Loose` one.
fn erode_one(g: &mut Grid, p: Position)
    requires
        rect(grid_view(*old(g))),
        in_bounds(grid_view(*old(g)), (p.0 as int, p.1 as int)),
    ensures
        grid_view(*final(g)) == erode1(grid_view(*old(g)), (p.0 as int, p.1 as int)),
{
    let c = grid_get(g, p);
    let is_loose = match c {
        Some(Block::Loose) => true,
        _ => false,
    };
    if is_loose {
        grid_put(g, p, None);
    }
}

/// Remove every `Loose` tile adjacent to `q`.
fn erode_neighbors(g: &mut Grid, q: Position)
    requires
        rect(grid_view(*old(g))),
        grid_view(*old(g)).len() >= 3,
        grid_view(*old(g))[0].len() >= 3,
        interior(grid_view(*old(g)), (q.0 as int, q.1 as int)),
    ensures
        grid_view(*final(g)) == erode_around(grid_view(*old(g)), (q.0 as int, q.1 as int)),
{
    let ghost g0 = grid_view(*g);
    let ghost qi = (q.0 as int, q.1 as int);
    proof {
        assert(g.len() == g@.len());
        assert(g@[0].len() == g@[0]@.len());
        assert(grid_view(*g)[0] == g@[0]@);
        lemma_erode1_cells(g0, spec_next(qi, Direction::Up));
    }
    let p = next(q, Direction::Up);
    erode_one(g, p);
    proof {
        lemma_erode1_cells(grid_view(*g), spec_next(qi, Direction::Down));
    }
    let p = next(q, Direction::Down);
    erode_one(g, p);
    proof {
        lemma_erode1_cells(grid_view(*g), spec_next(qi, Direction::Left));
    }
    let p = next(q, Direction::Left);
    erode_one(g, p);
    proof {
        lemma_erode1_cells(grid_view(*g), spec_next(qi, Direction::Right));
    }
    let p = next(q, Direction::Right);
    erode_one(g, p);
}

/// Attempt one slide of the player in `dir`, mutating `ftt` in place.
///
/// Returns `false` and leaves the state unchanged when the move is
/// illegal (the first cell in `dir` holds a hard obstacle); otherwise
/// mutates the state to the unique result of the slide and returns
/// `true`, in which case the player has moved.
pub fn simulate(ftt: &mut FttMap, dir: Direction) -> (legal: bool)
    requires
        wf(old(ftt)@),
    ensures
        legal == spec_simulate(old(ftt)@, dir).1,
        final(ftt)@ == spec_simulate(old(ftt)@, dir).0,
        wf(final(ftt)@),
        final(ftt)@.target == old(ftt)@.target,
        !legal ==> final(ftt)@ == old(ftt)@,
        legal ==> final(ftt)@.player != old(ftt)@.player,
        legal ==> !is_hard(cell(final(ftt)@.grid, final(ftt)@.player)),
        forall|q: (int, int)| in_bounds(old(ftt)@.grid, q) ==> decayed(
            cell(old(ftt)@.grid, q),
            #[trigger] cell(final(ftt)@.grid, q),
        ),
{
    proof {
        lemma_simulate_props(ftt@, dir);
        assert(ftt.map.len() == ftt.map@.len());
        assert(ftt.map@[0].len() == ftt.map@[0]@.len());
        assert(grid_view(ftt.map)[0] == ftt.map@[0]@);
    }
    let ghost m0 = ftt@;
    let first = next(ftt.player, dir);
    let c0 = grid_get(&ftt.map, first);
    if hard_block(c0) {
        return false;
    }
    proof {
        assert(!on_border(m0.grid, (first.0 as int, first.1 as int)));
        assert(slide_inv(m0, (first.0 as int, first.1 as int), dir));
    }
    let mut cur = first;
    let mut go = true;
    while go
        invariant
            m0 == old(ftt)@,
            wf(m0),
            m0.grid.len() <= usize::MAX,
            m0.grid[0].len() <= usize::MAX,
            ftt@.grid.len() == m0.grid.len(),
            ftt@.grid[0].len() == m0.grid[0].len(),
            spec_simulate(m0, dir).1,
            ftt@.target == m0.target,
            go ==> slide_inv(ftt@, (cur.0 as int, cur.1 as int), dir),
            go ==> !is_hard(cell(ftt@.grid, (cur.0 as int, cur.1 as int))),
            go ==> slide(ftt@, (cur.0 as int, cur.1 as int), dir) == spec_simulate(m0, dir).0,
            !go ==> ftt@ == spec_simulate(m0, dir).0,
        decreases (if go {
            edge_dist(ftt@.grid, (cur.0 as int, cur.1 as int), dir) + 1
        } else {
            0
        }),
    {
        let ghost m_it = ftt@;
        let ghost cur_i = (cur.0 as int, cur.1 as int);
        proof {
            lemma_step(m_it, cur_i, dir);
        }
        let prev = ftt.player;
        ftt.player = cur;
        let pc = grid_get(&ftt.map, cur);
        let sticky = match pc {
            Some(Block::Sticky) => true,
            _ => false,
        };
        let nxt = next(cur, dir);
        let prev_c = grid_get(&ftt.map, prev);
        let is_trap = match prev_c {
            Some(Block::Trap) => true,
            _ => false,
        };
        if is_trap {
            grid_put(&mut ftt.map, prev, Some(Block::Wall));
        }
        erode_neighbors(&mut ftt.map, cur);
        let nc = grid_get(&ftt.map, nxt);
        let blocked = hard_block(nc);
        let reached = pos_eq(ftt.player, ftt.target);
        proof {
            let s = slide_step(m_it, cur_i, dir);
            assert(ftt@.grid == s.0.grid);
            assert(ftt@ == s.0);
            assert((reached || sticky || blocked) == s.2);
        }
        if reached || sticky || blocked {
            go = false;
        } else {
            cur = nxt;
        }
    }
    true
}

} // verus!
