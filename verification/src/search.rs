//! The search engine: breadth-first exploration over puzzle states.
use vstd::prelude::*;

use crate::define::FttMap;
use crate::define::MapModel;
use crate::define::clone_state;
use crate::define::pos_eq;
use crate::define::state_eq;
use crate::define::wf;
use crate::simulate::Direction;
use crate::simulate::simulate;
use crate::simulate::spec_simulate;

verus! {

/// The state `path` leads to from `m`, move by move, or nothing if some
/// move along the way is illegal.
pub open spec fn apply_path(m: MapModel, path: Seq<Direction>) -> Option<MapModel>
    decreases path.len(),
{
    if path.len() == 0 {
        Some(m)
    } else {
        let s = spec_simulate(m, path[0]);
        if s.1 {
            apply_path(s.0, path.subrange(1, path.len() as int))
        } else {
            None
        }
    }
}

/// `path` solves the puzzle from `m`: every move is legal and the player
/// ends on the target.
pub open spec fn is_solution(m: MapModel, path: Seq<Direction>) -> bool {
    match apply_path(m, path) {
        Some(f) => f.player == f.target,
        None => false,
    }
}

/// Some path of at most `k` moves solves the puzzle from `m`.
pub open spec fn solvable_within(m: MapModel, k: int) -> bool {
    exists|p: Seq<Direction>| p.len() <= k && #[trigger] is_solution(m, p)
}

/// The four directions in their fixed enumeration order.
pub open spec fn dir_order() -> Seq<Direction> {
    seq![Direction::Up, Direction::Down, Direction::Left, Direction::Right]
}

/// `x` is the model of one of the states stored in `vs`.
pub open spec fn holds_state(vs: Seq<FttMap>, x: MapModel) -> bool {
    exists|i: int| 0 <= i < vs.len() && (#[trigger] vs[i])@ == x
}

/// `x` is the state of some queue entry with index at least `lo`.
pub open spec fn holds_level(lv: Seq<(FttMap, Vec<Direction>)>, lo: int, x: MapModel) -> bool {
    exists|i: int| lo <= i < lv.len() && (#[trigger] lv[i]).0@ == x
}

/// Every legal move from `x` whose direction index is below `j` leads to
/// a state stored in `vs`.
pub open spec fn succ_done_upto(vs: Seq<FttMap>, x: MapModel, j: int) -> bool {
    forall|d: int|
        0 <= d < j ==> ((#[trigger] spec_simulate(x, dir_order()[d])).1 ==> holds_state(
            vs,
            spec_simulate(x, dir_order()[d]).0,
        ))
}

/// Appending one move to a path applies that move to the path's result.
pub proof fn lemma_apply_path_push(m: MapModel, path: Seq<Direction>, d: Direction)
    ensures
        apply_path(m, path.push(d)) == (match apply_path(m, path) {
            Some(f) => (if spec_simulate(f, d).1 {
                Some(spec_simulate(f, d).0)
            } else {
                None::<MapModel>
            }),
            None => None::<MapModel>,
        }),
    decreases path.len(),
{
    let ext = path.push(d);
    if path.len() == 0 {
        assert(ext[0] == d);
        assert(ext.subrange(1, ext.len() as int) =~= Seq::<Direction>::empty());
        assert(apply_path(m, path) == Some(m));
        let s = spec_simulate(m, d);
        if s.1 {
            assert(apply_path(s.0, ext.subrange(1, ext.len() as int)) == Some(s.0));
        }
    } else {
        let s = spec_simulate(m, path[0]);
        let tail = path.subrange(1, path.len() as int);
        assert(ext[0] == path[0]);
        assert(ext.subrange(1, ext.len() as int) =~= tail.push(d));
        if s.1 {
            lemma_apply_path_push(s.0, tail, d);
            assert(apply_path(m, ext) == apply_path(s.0, tail.push(d)));
            assert(apply_path(m, path) == apply_path(s.0, tail));
        } else {
            assert(apply_path(m, ext) == None::<MapModel>);
            assert(apply_path(m, path) == None::<MapModel>);
        }
    }
}

/// Every direction occurs in the enumeration order.
proof fn lemma_dir_covered(dir: Direction)
    ensures
        exists|d: int| 0 <= d < 4 && #[trigger] dir_order()[d] == dir,
{
    match dir {
        Direction::Up => assert(dir_order()[0] == dir),
        Direction::Down => assert(dir_order()[1] == dir),
        Direction::Left => assert(dir_order()[2] == dir),
        Direction::Right => assert(dir_order()[3] == dir),
    }
}

/// A stored state stays stored when one more is pushed.
proof fn lemma_holds_mono(vs: Seq<FttMap>, e: FttMap, x: MapModel)
    requires
        holds_state(vs, x),
    ensures
        holds_state(vs.push(e), x),
{
    let i = choose|i: int| 0 <= i < vs.len() && (#[trigger] vs[i])@ == x;
    assert(vs.push(e)[i]@ == x);
}

/// A state stored in a prefix is stored in the whole.
proof fn lemma_holds_prefix(small: Seq<FttMap>, big: Seq<FttMap>, x: MapModel)
    requires
        small.len() <= big.len(),
        forall|k: int| 0 <= k < small.len() ==> big[k] == small[k],
        holds_state(small, x),
    ensures
        holds_state(big, x),
{
    let i = choose|i: int| 0 <= i < small.len() && (#[trigger] small[i])@ == x;
    assert(big[i]@ == x);
}

/// Processed successors stay stored when one more state is pushed.
proof fn lemma_succ_mono(vs: Seq<FttMap>, e: FttMap, x: MapModel, j: int)
    requires
        succ_done_upto(vs, x, j),
    ensures
        succ_done_upto(vs.push(e), x, j),
{
    assert forall|d: int|
        0 <= d < j && (#[trigger] spec_simulate(x, dir_order()[d])).1 implies holds_state(
        vs.push(e),
        spec_simulate(x, dir_order()[d]).0,
    ) by {
        lemma_holds_mono(vs, e, spec_simulate(x, dir_order()[d]).0);
    }
}

/// From a stored state of a successor-closed store, every path leads to
/// a stored state.
proof fn lemma_closed_reach(vs: Seq<FttMap>, x: MapModel, p: Seq<Direction>)
    requires
        holds_state(vs, x),
        forall|k: int| 0 <= k < vs.len() ==> succ_done_upto(vs, (#[trigger] vs[k])@, 4),
        apply_path(x, p) is Some,
    ensures
        (apply_path(x, p) matches Some(y) ==> holds_state(vs, y)),
    decreases p.len(),
{
    if p.len() > 0 {
        let s = spec_simulate(x, p[0]);
        assert(s.1);
        lemma_dir_covered(p[0]);
        let d = choose|d: int| 0 <= d < 4 && #[trigger] dir_order()[d] == p[0];
        let k = choose|k: int| 0 <= k < vs.len() && (#[trigger] vs[k])@ == x;
        assert(succ_done_upto(vs, x, 4));
        assert(spec_simulate(x, dir_order()[d]).1);
        assert(holds_state(vs, s.0));
        lemma_closed_reach(vs, s.0, p.subrange(1, p.len() as int));
    }
}

/// The four directions in their fixed enumeration order.
fn dir_at(j: usize) -> (r: Direction)
    requires
        j < 4,
    ensures
        r == dir_order()[j as int],
{
    if j == 0 {
        Direction::Up
    } else if j == 1 {
        Direction::Down
    } else if j == 2 {
        Direction::Left
    } else {
        Direction::Right
    }
}

/// Structural copy of a path.
fn clone_dirs(v: &Vec<Direction>) -> (r: Vec<Direction>)
    ensures
        r@ == v@,
{
    let mut out: Vec<Direction> = Vec::new();
    let mut i: usize = 0;
    while i < v.len()
        invariant
            i <= v@.len(),
            out@.len() == i,
            forall|k: int| 0 <= k < i ==> out@[k] == v@[k],
        decreases v@.len() - i,
    {
        out.push(v[i]);
        i = i + 1;
    }
    proof {
        assert(out@ =~= v@);
    }
    out
}

/// Is some state of `v` structurally equal to `s`?
fn contains_state(v: &Vec<FttMap>, s: &FttMap) -> (r: bool)
    ensures
        r == holds_state(v@, s@),
{
    let mut i: usize = 0;
    while i < v.len()
        invariant
            i <= v@.len(),
            forall|k: int| 0 <= k < i ==> (#[trigger] v@[k])@ != s@,
        decreases v@.len() - i,
    {
        if state_eq(&v[i], s) {
            proof {
                assert(v@[i as int]@ == s@);
            }
            return true;
        }
        i = i + 1;
    }
    false
}

/// Breadth-first search for one of the shortest solutions, restricted to
/// at most `max_steps` moves.
///
/// A returned path is a solution of at most `max_steps` moves, and no
/// solution of any length is shorter; when nothing is returned, no path
/// of at most `max_steps` moves solves the puzzle. States are expanded
/// in first-in-first-out order, each distinct state at most once, with
/// the four directions tried in enumeration order; an already-solved
/// state yields the empty path.
pub fn search(ftt: FttMap, max_steps: usize) -> (r: Option<Vec<Direction>>)
    requires
        wf(ftt@),
    ensures
        (r matches Some(path) ==> path@.len() <= max_steps && is_solution(ftt@, path@)),
        (r matches Some(path) ==> forall|p: Seq<Direction>|
            #[trigger] is_solution(ftt@, p) ==> p.len() >= path@.len()),
        r is None ==> !solvable_within(ftt@, max_steps as int),
        ftt@.player == ftt@.target ==> (r matches Some(path) && path@.len() == 0),
{
    let ghost m0 = ftt@;
    if pos_eq(ftt.player, ftt.target) {
        let empty: Vec<Direction> = Vec::new();
        return Some(empty);
    }
    let mut visited: Vec<FttMap> = Vec::new();
    visited.push(clone_state(&ftt));
    let mut level: Vec<(FttMap, Vec<Direction>)> = Vec::new();
    let start_path: Vec<Direction> = Vec::new();
    level.push((ftt, start_path));
    let mut depth: usize = 0;
    proof {
        assert(visited@[0]@ == m0);
        assert(level@[0].0@ == m0);
        assert forall|p: Seq<Direction>| p.len() <= 0 implies ((#[trigger] apply_path(m0, p))
            matches Some(x) ==> holds_state(visited@, x)) by {
            assert(apply_path(m0, p) == Some(m0));
        }
    }
    while depth < max_steps
        invariant
            wf(m0),
            m0 == ftt@,
            m0.player != m0.target,
            depth <= max_steps,
            forall|k: int| 0 <= k < level@.len() ==> {
                let e = #[trigger] level@[k];
                &&& wf(e.0@)
                &&& apply_path(m0, e.1@) == Some(e.0@)
                &&& e.1@.len() == depth
            },
            forall|p: Seq<Direction>| p.len() <= depth ==> ((#[trigger] apply_path(m0, p))
                matches Some(x) ==> holds_state(visited@, x)),
            forall|k: int| 0 <= k < visited@.len() ==> (#[trigger] visited@[k])@.player
                != visited@[k]@.target,
            forall|k: int| 0 <= k < visited@.len() ==> (holds_level(
                level@,
                0,
                (#[trigger] visited@[k])@,
            ) || succ_done_upto(visited@, visited@[k]@, 4)),
        decreases max_steps - depth,
    {
        let ghost vis0 = visited@;
        let mut next_level: Vec<(FttMap, Vec<Direction>)> = Vec::new();
        let mut i: usize = 0;
        while i < level.len()
            invariant
                wf(m0),
                m0 == ftt@,
                m0.player != m0.target,
                depth < max_steps,
                i <= level@.len(),
                forall|k: int| 0 <= k < level@.len() ==> {
                    let e = #[trigger] level@[k];
                    &&& wf(e.0@)
                    &&& apply_path(m0, e.1@) == Some(e.0@)
                    &&& e.1@.len() == depth
                },
                forall|k: int| 0 <= k < next_level@.len() ==> {
                    let e = #[trigger] next_level@[k];
                    &&& wf(e.0@)
                    &&& apply_path(m0, e.1@) == Some(e.0@)
                    &&& e.1@.len() == depth + 1
                },
                forall|p: Seq<Direction>| p.len() <= depth ==> ((#[trigger] apply_path(m0, p))
                    matches Some(x) ==> holds_state(vis0, x)),
                vis0.len() <= visited@.len(),
                forall|k: int| 0 <= k < vis0.len() ==> visited@[k] == vis0[k],
                forall|k: int| 0 <= k < visited@.len() ==> (#[trigger] visited@[k])@.player
                    != visited@[k]@.target,
                forall|k: int| 0 <= k < visited@.len() ==> (holds_level(
                    level@,
                    i as int,
                    (#[trigger] visited@[k])@,
                ) || holds_level(next_level@, 0, visited@[k]@) || succ_done_upto(
                    visited@,
                    visited@[k]@,
                    4,
                )),
                forall|k: int| 0 <= k < next_level@.len() ==> !holds_state(
                    vis0,
                    (#[trigger] next_level@[k]).0@,
                ),
            decreases level@.len() - i,
        {
            proof {
                assert forall|k: int| 0 <= k < visited@.len() implies (holds_level(
                    level@,
                    i as int + 1,
                    (#[trigger] visited@[k])@,
                ) || holds_level(next_level@, 0, visited@[k]@) || succ_done_upto(
                    visited@,
                    visited@[k]@,
                    4,
                ) || (visited@[k]@ == level@[i as int].0@ && succ_done_upto(
                    visited@,
                    visited@[k]@,
                    0,
                ))) by {
                    let x = visited@[k]@;
                    if holds_level(level@, i as int, x) {
                        let w = choose|w: int|
                            i <= w < level@.len() && (#[trigger] level@[w]).0@ == x;
                        if w == i {
                            assert(x == level@[i as int].0@);
                        } else {
                            assert(holds_level(level@, i as int + 1, x));
                        }
                    }
                }
            }
            let mut j: usize = 0;
            while j < 4
                invariant
                    wf(m0),
                    m0 == ftt@,
                    m0.player != m0.target,
                    depth < max_steps,
                    j <= 4,
                    i < level@.len(),
                    forall|k: int| 0 <= k < level@.len() ==> {
                        let e = #[trigger] level@[k];
                        &&& wf(e.0@)
                        &&& apply_path(m0, e.1@) == Some(e.0@)
                        &&& e.1@.len() == depth
                    },
                    forall|k: int| 0 <= k < next_level@.len() ==> {
                        let e = #[trigger] next_level@[k];
                        &&& wf(e.0@)
                        &&& apply_path(m0, e.1@) == Some(e.0@)
                        &&& e.1@.len() == depth + 1
                    },
                    forall|p: Seq<Direction>| p.len() <= depth ==> ((#[trigger] apply_path(m0, p))
                        matches Some(x) ==> holds_state(vis0, x)),
                    vis0.len() <= visited@.len(),
                    forall|k: int| 0 <= k < vis0.len() ==> visited@[k] == vis0[k],
                    forall|k: int| 0 <= k < visited@.len() ==> (#[trigger] visited@[k])@.player
                        != visited@[k]@.target,
                    forall|k: int| 0 <= k < visited@.len() ==> (holds_level(
                        level@,
                        i as int + 1,
                        (#[trigger] visited@[k])@,
                    ) || holds_level(next_level@, 0, visited@[k]@) || succ_done_upto(
                        visited@,
                        visited@[k]@,
                        4,
                    ) || (visited@[k]@ == level@[i as int].0@ && succ_done_upto(
                        visited@,
                        visited@[k]@,
                        j as int,
                    ))),
                    forall|k: int| 0 <= k < next_level@.len() ==> !holds_state(
                        vis0,
                        (#[trigger] next_level@[k]).0@,
                    ),
                decreases 4 - j,
            {
                let ghost x_i = level@[i as int].0@;
                let dir = dir_at(j);
                let entry = &level[i];
                let mut child = clone_state(&entry.0);
                let legal = simulate(&mut child, dir);
                if legal {
                    let mut ext = clone_dirs(&entry.1);
                    ext.push(dir);
                    proof {
                        lemma_apply_path_push(m0, level@[i as int].1@, dir);
                        assert(ext@ =~= level@[i as int].1@.push(dir));
                        assert(apply_path(m0, ext@) == Some(child@));
                    }
                    if pos_eq(child.player, child.target) {
                        proof {
                            assert(is_solution(m0, ext@));
                            assert forall|p: Seq<Direction>| #[trigger] is_solution(
                                m0,
                                p,
                            ) implies p.len() >= depth + 1 by {
                                if p.len() <= depth {
                                    assert(apply_path(m0, p) is Some);
                                    let f = choose|f: MapModel| apply_path(m0, p) == Some(f);
                                    assert(holds_state(vis0, f));
                                    let kk = choose|kk: int|
                                        0 <= kk < vis0.len() && (#[trigger] vis0[kk])@ == f;
                                    assert(visited@[kk]@ == f);
                                    assert(f.player != f.target);
                                    assert(!is_solution(m0, p));
                                }
                            }
                        }
                        return Some(ext);
                    }
                    let dup = contains_state(&visited, &child);
                    if !dup {
                        let cs = clone_state(&child);
                        let ghost vis_old = visited@;
                        let ghost nl_old = next_level@;
                        visited.push(cs);
                        next_level.push((child, ext));
                        proof {
                            let ghost cm = spec_simulate(x_i, dir_order()[j as int]).0;
                            assert(visited@[vis_old.len() as int]@ == cm);
                            assert(next_level@[nl_old.len() as int].0@ == cm);
                            assert forall|k: int| 0 <= k < visited@.len() implies (holds_level(
                                level@,
                                i as int + 1,
                                (#[trigger] visited@[k])@,
                            ) || holds_level(next_level@, 0, visited@[k]@) || succ_done_upto(
                                visited@,
                                visited@[k]@,
                                4,
                            ) || (visited@[k]@ == level@[i as int].0@ && succ_done_upto(
                                visited@,
                                visited@[k]@,
                                j as int,
                            ))) by {
                                let x = visited@[k]@;
                                if k < vis_old.len() {
                                    assert(vis_old[k]@ == x);
                                    if holds_level(nl_old, 0, x) {
                                        let w = choose|w: int|
                                            0 <= w < nl_old.len() && (#[trigger] nl_old[w]).0@
                                                == x;
                                        assert(next_level@[w].0@ == x);
                                        assert(holds_level(next_level@, 0, x));
                                    } else if succ_done_upto(vis_old, x, 4) {
                                        lemma_succ_mono(vis_old, cs, x, 4);
                                    } else if x == level@[i as int].0@ && succ_done_upto(
                                        vis_old,
                                        x,
                                        j as int,
                                    ) {
                                        lemma_succ_mono(vis_old, cs, x, j as int);
                                    }
                                } else {
                                    assert(x == cm);
                                    assert(holds_level(next_level@, 0, x));
                                }
                            }
                            assert forall|k: int| 0 <= k < next_level@.len() implies !holds_state(
                                vis0,
                                (#[trigger] next_level@[k]).0@,
                            ) by {
                                if k == nl_old.len() {
                                    if holds_state(vis0, cm) {
                                        lemma_holds_prefix(vis0, vis_old, cm);
                                    }
                                } else {
                                    assert(nl_old[k].0@ == next_level@[k].0@);
                                }
                            }
                        }
                    }
                }
                proof {
                    assert forall|k: int| 0 <= k < visited@.len() implies (holds_level(
                        level@,
                        i as int + 1,
                        (#[trigger] visited@[k])@,
                    ) || holds_level(next_level@, 0, visited@[k]@) || succ_done_upto(
                        visited@,
                        visited@[k]@,
                        4,
                    ) || (visited@[k]@ == level@[i as int].0@ && succ_done_upto(
                        visited@,
                        visited@[k]@,
                        j as int + 1,
                    ))) by {
                        let x = visited@[k]@;
                        if x == level@[i as int].0@ && succ_done_upto(visited@, x, j as int) {
                            assert forall|d: int|
                                0 <= d < j as int + 1 && (#[trigger] spec_simulate(
                                    x,
                                    dir_order()[d],
                                )).1 implies holds_state(
                                visited@,
                                spec_simulate(x, dir_order()[d]).0,
                            ) by {
                                if d == j as int {
                                    assert(spec_simulate(x_i, dir_order()[d]).1);
                                    assert(holds_state(
                                        visited@,
                                        spec_simulate(x_i, dir_order()[d]).0,
                                    ));
                                }
                            }
                        }
                    }
                }
                j = j + 1;
            }
            proof {
                assert forall|k: int| 0 <= k < visited@.len() implies (holds_level(
                    level@,
                    i as int + 1,
                    (#[trigger] visited@[k])@,
                ) || holds_level(next_level@, 0, visited@[k]@) || succ_done_upto(
                    visited@,
                    visited@[k]@,
                    4,
                )) by {
                    let x = visited@[k]@;
                    if x == level@[i as int].0@ && succ_done_upto(visited@, x, 4) {
                        assert(succ_done_upto(visited@, x, 4));
                    }
                }
            }
            i = i + 1;
        }
        proof {
            assert forall|k: int| 0 <= k < visited@.len() implies (holds_level(
                next_level@,
                0,
                (#[trigger] visited@[k])@,
            ) || succ_done_upto(visited@, visited@[k]@, 4)) by {
                let x = visited@[k]@;
                if holds_level(level@, i as int, x) {
                    let w = choose|w: int| i <= w < level@.len() && (#[trigger] level@[w]).0@ == x;
                    assert(false);
                }
            }
            assert forall|p: Seq<Direction>| p.len() <= depth + 1 implies ((
            #[trigger] apply_path(m0, p)) matches Some(x) ==> holds_state(visited@, x)) by {
                let o = apply_path(m0, p);
                if o is Some {
                    let x = choose|x: MapModel| o == Some(x);
                    if p.len() <= depth {
                        assert(holds_state(vis0, x));
                        lemma_holds_prefix(vis0, visited@, x);
                    } else {
                        let q = p.drop_last();
                        let dlast = p.last();
                        assert(p =~= q.push(dlast));
                        lemma_apply_path_push(m0, q, dlast);
                        let oq = apply_path(m0, q);
                        assert(oq is Some);
                        let y = choose|y: MapModel| oq == Some(y);
                        assert(holds_state(vis0, y));
                        lemma_holds_prefix(vis0, visited@, y);
                        let ky = choose|ky: int|
                            0 <= ky < visited@.len() && (#[trigger] visited@[ky])@ == y;
                        if holds_level(next_level@, 0, y) {
                            let w = choose|w: int|
                                0 <= w < next_level@.len() && (#[trigger] next_level@[w]).0@ == y;
                            assert(!holds_state(vis0, y));
                            assert(false);
                        }
                        assert(succ_done_upto(visited@, y, 4));
                        lemma_dir_covered(dlast);
                        let d = choose|d: int| 0 <= d < 4 && #[trigger] dir_order()[d] == dlast;
                        assert(spec_simulate(y, dir_order()[d]).1);
                        assert(holds_state(visited@, spec_simulate(y, dir_order()[d]).0));
                        assert(spec_simulate(y, dlast).0 == x);
                    }
                }
            }
        }
        level = next_level;
        depth = depth + 1;
        if level.is_empty() {
            proof {
                assert forall|k: int| 0 <= k < visited@.len() implies succ_done_upto(
                    visited@,
                    (#[trigger] visited@[k])@,
                    4,
                ) by {
                    let x = visited@[k]@;
                    if holds_level(level@, 0, x) {
                        let w = choose|w: int|
                            0 <= w < level@.len() && (#[trigger] level@[w]).0@ == x;
                        assert(false);
                    }
                }
                assert(apply_path(m0, Seq::<Direction>::empty()) == Some(m0));
                assert(holds_state(visited@, m0));
                assert forall|p: Seq<Direction>| #[trigger] is_solution(m0, p) implies false by {
                    assert(apply_path(m0, p) is Some);
                    lemma_closed_reach(visited@, m0, p);
                    let f = choose|f: MapModel| apply_path(m0, p) == Some(f);
                    assert(holds_state(visited@, f));
                    let kk = choose|kk: int|
                        0 <= kk < visited@.len() && (#[trigger] visited@[kk])@ == f;
                    assert(f.player != f.target);
                }
                assert(!solvable_within(m0, max_steps as int));
            }
            return None;
        }
    }
    proof {
        assert forall|p: Seq<Direction>|
            p.len() <= max_steps && #[trigger] is_solution(m0, p) implies false by {
            assert(apply_path(m0, p) is Some);
            let f = choose|f: MapModel| apply_path(m0, p) == Some(f);
            assert(holds_state(visited@, f));
            let kk = choose|kk: int| 0 <= kk < visited@.len() && (#[trigger] visited@[kk])@ == f;
            assert(f.player != f.target);
        }
        assert(!solvable_within(m0, max_steps as int));
    }
    None
}

} // verus!
