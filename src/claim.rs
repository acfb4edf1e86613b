use vstd::prelude::*;
use crate::components::{Player, PlayerId, Tile};
use crate::events::{PlayerDeathEvent, PlayerDeathReason};
use crate::grid::{before, flat, lemma_area, lemma_flat, Grid};
use crate::resources::CompleteTrail;

verus! {

/// An unowned tile inside the grid.
pub open spec fn is_empty(g: Grid, x: int, y: int) -> bool {
    g.in_bounds(x, y) && g.cell(x, y).owner.is_none()
}

pub open spec fn on_edge(g: Grid, x: int, y: int) -> bool {
    g.in_bounds(x, y) && (x == 0 || y == 0 || x == g.w() - 1 || y == g.h() - 1)
}

/// Two cells that share a side.
pub open spec fn adjacent(a: (int, int), b: (int, int)) -> bool {
    (a.0 == b.0 && (a.1 - b.1 == 1 || b.1 - a.1 == 1)) || (a.1 == b.1 && (a.0 - b.0 == 1 || b.0 - a.0
        == 1))
}

/// A walk through empty cells, one side at a time, that starts on the grid's edge.
pub open spec fn open_path(g: Grid, path: Seq<(int, int)>) -> bool {
    &&& path.len() >= 1
    &&& on_edge(g, path[0].0, path[0].1)
    &&& forall|i: int| 0 <= i < path.len() ==> is_empty(g, #[trigger] path[i].0, path[i].1)
    &&& forall|i: int| 0 <= i < path.len() - 1 ==> adjacent(#[trigger] path[i], path[i + 1])
}

/// An empty cell that some walk of empty cells reaches from the edge.
pub open spec fn outside(g: Grid, x: int, y: int) -> bool {
    exists|path: Seq<(int, int)>| open_path(g, path) && path.last() == (x, y)
}

/// An empty cell cut off from the edge by owned or trail cells.
pub open spec fn enclosed(g: Grid, x: int, y: int) -> bool {
    is_empty(g, x, y) && !outside(g, x, y)
}

pub open spec fn enclosed_set(g: Grid) -> Set<(int, int)> {
    Set::new(|c: (int, int)| enclosed(g, c.0, c.1))
}

/// Marks of the flood fill, one per tile in row-major order.
pub open spec fn marked(g: Grid, seen: Seq<bool>, x: int, y: int) -> bool {
    seen[flat(g.w(), x, y)]
}

/// Every empty neighbour of (x, y) is marked.
pub open spec fn closed_at(g: Grid, seen: Seq<bool>, x: int, y: int) -> bool {
    forall|a: int, b: int|
        is_empty(g, a, b) && adjacent((x, y), (a, b)) ==> #[trigger] marked(g, seen, a, b)
}

pub open spec fn marked_set(seen: Seq<bool>) -> Set<int> {
    Set::new(|i: int| 0 <= i < seen.len() && seen[i])
}

proof fn lemma_marked_set_len(seen: Seq<bool>)
    ensures
        marked_set(seen).finite(),
        marked_set(seen).len() <= seen.len(),
{
    let r = Set::new(|i: int| 0 <= i < seen.len());
    assert(r =~= vstd::set_lib::set_int_range(0, seen.len() as int));
    vstd::set_lib::lemma_int_range(0, seen.len() as int);
    assert(marked_set(seen).subset_of(r));
    vstd::set_lib::lemma_len_subset(marked_set(seen), r);
}

/// Every walk of empty cells from the edge ends on a marked cell, when the
/// marks cover the empty edge cells and are closed under empty neighbours.
proof fn lemma_paths_marked(g: Grid, seen: Seq<bool>, path: Seq<(int, int)>)
    requires
        g.wf(),
        open_path(g, path),
        forall|x: int, y: int| #[trigger] on_edge(g, x, y) && is_empty(g, x, y) ==> marked(g, seen, x, y),
        forall|x: int, y: int|
            g.in_bounds(x, y) && marked(g, seen, x, y) ==> #[trigger] closed_at(g, seen, x, y),
    ensures
        marked(g, seen, path.last().0, path.last().1),
    decreases path.len(),
{
    if path.len() > 1 {
        let prev = path.drop_last();
        assert(open_path(g, prev)) by {
            assert forall|i: int| 0 <= i < prev.len() implies is_empty(g, #[trigger] prev[i].0, prev[i].1) by {
                assert(prev[i] == path[i]);
            }
            assert forall|i: int| 0 <= i < prev.len() - 1 implies adjacent(#[trigger] prev[i], prev[i + 1]) by {
                assert(prev[i] == path[i]);
                assert(prev[i + 1] == path[i + 1]);
            }
        }
        lemma_paths_marked(g, seen, prev);
        let c = prev.last();
        let d = path.last();
        assert(adjacent(path[path.len() - 2], path[path.len() - 1]));
        assert(closed_at(g, seen, c.0, c.1));
        assert(is_empty(g, d.0, d.1));
    } else {
        assert(path.last() == path[0]);
    }
}

/// Marks (x, y) and pushes it when it is empty and not yet marked.
fn visit(g: &Grid, seen: &mut Vec<bool>, stack: &mut Vec<(usize, usize)>, x: usize, y: usize, Ghost(src): Ghost<(int, int)>)
    requires
        g.wf(),
        g.in_bounds(x as int, y as int),
        old(seen)@.len() == g.w() * g.h(),
        on_edge(*g, x as int, y as int) || (adjacent(src, (x as int, y as int)) && outside(*g, src.0, src.1)),
        forall|a: int, b: int|
            g.in_bounds(a, b) && #[trigger] marked(*g, old(seen)@, a, b) ==> is_empty(*g, a, b) && outside(*g, a, b),
        forall|k: int|
            0 <= k < old(stack)@.len() ==> g.in_bounds((#[trigger] old(stack)@[k]).0 as int, old(stack)@[k].1 as int)
                && marked(*g, old(seen)@, old(stack)@[k].0 as int, old(stack)@[k].1 as int),
    ensures
        final(seen)@.len() == old(seen)@.len(),
        forall|a: int, b: int|
            g.in_bounds(a, b) && #[trigger] marked(*g, final(seen)@, a, b) ==> is_empty(*g, a, b) && outside(*g, a, b),
        forall|k: int|
            0 <= k < final(stack)@.len() ==> g.in_bounds((#[trigger] final(stack)@[k]).0 as int, final(stack)@[k].1 as int)
                && marked(*g, final(seen)@, final(stack)@[k].0 as int, final(stack)@[k].1 as int),
        forall|a: int, b: int| g.in_bounds(a, b) && marked(*g, old(seen)@, a, b) ==> #[trigger] marked(*g, final(seen)@, a, b),
        is_empty(*g, x as int, y as int) ==> marked(*g, final(seen)@, x as int, y as int),
        final(stack)@.len() == old(stack)@.len() || final(stack)@.len() == old(stack)@.len() + 1,
        forall|k: int| 0 <= k < old(stack)@.len() ==> final(stack)@[k] == old(stack)@[k],
        final(stack)@.len() == old(stack)@.len() + 1 ==> final(stack)@.last() == (x, y),
        final(stack)@.len() == old(stack)@.len() ==> final(seen)@ == old(seen)@,
        final(stack)@.len() == old(stack)@.len() + 1 ==> marked_set(final(seen)@) == marked_set(old(seen)@).insert(flat(g.w(), x as int, y as int))
            && !marked_set(old(seen)@).contains(flat(g.w(), x as int, y as int)),
{
    proof {
        lemma_flat(g.w(), g.h(), x as int, y as int);
        lemma_area(g.w(), g.h());
    }
    let i = y * (g.width() as usize) + x;
    let t = g.get(x, y);
    if !seen[i] && t.owner.is_none() {
        seen.set(i, true);
        stack.push((x, y));
        proof {
            let path = if on_edge(*g, x as int, y as int) {
                Seq::<(int, int)>::empty()
            } else {
                choose|path: Seq<(int, int)>| open_path(*g, path) && path.last() == src
            };
            let p2 = path.push((x as int, y as int));
            assert(open_path(*g, p2)) by {
                assert forall|k: int| 0 <= k < p2.len() implies is_empty(*g, #[trigger] p2[k].0, p2[k].1) by {
                    if k < path.len() {
                        assert(p2[k] == path[k]);
                    }
                }
                assert forall|k: int| 0 <= k < p2.len() - 1 implies adjacent(#[trigger] p2[k], p2[k + 1]) by {
                    assert(p2[k] == path[k]);
                    assert(path.len() > 0);
                    if k + 1 < path.len() {
                        assert(p2[k + 1] == path[k + 1]);
                    }
                }
            }
            assert(p2.last() == (x as int, y as int));
            assert forall|a: int, b: int|
                g.in_bounds(a, b) && #[trigger] marked(*g, final(seen)@, a, b) implies is_empty(*g, a, b) && outside(*g, a, b) by {
                lemma_flat(g.w(), g.h(), a, b);
                if a != x || b != y {
                    assert(flat(g.w(), a, b) != flat(g.w(), x as int, y as int));
                    assert(marked(*g, old(seen)@, a, b));
                } else {
                    assert(open_path(*g, p2) && p2.last() == (a, b));
                }
            }
            assert forall|a: int, b: int| g.in_bounds(a, b) && marked(*g, old(seen)@, a, b) implies #[trigger] marked(*g, final(seen)@, a, b) by {
                lemma_flat(g.w(), g.h(), a, b);
            }
            assert forall|k: int| 0 <= k < final(stack)@.len() implies g.in_bounds((#[trigger] final(stack)@[k]).0 as int, final(stack)@[k].1 as int)
                && marked(*g, final(seen)@, final(stack)@[k].0 as int, final(stack)@[k].1 as int) by {
                if k < old(stack)@.len() {
                    let c = old(stack)@[k];
                    lemma_flat(g.w(), g.h(), c.0 as int, c.1 as int);
                }
            }
            assert(marked_set(final(seen)@) =~= marked_set(old(seen)@).insert(i as int));
        }
    }
}

/// The neighbour of `c` in direction `d`: right, left, up, down.
pub open spec fn nb(c: (int, int), d: int) -> (int, int) {
    if d == 0 {
        (c.0 + 1, c.1)
    } else if d == 1 {
        (c.0 - 1, c.1)
    } else if d == 2 {
        (c.0, c.1 + 1)
    } else {
        (c.0, c.1 - 1)
    }
}

/// Marks, by flood fill from the grid's edge, every empty tile that a walk of
/// empty tiles reaches from the edge; the others stay unmarked.
pub fn flood_outside(g: &Grid) -> (seen: Vec<bool>)
    requires
        g.wf(),
    ensures
        seen@.len() == g.w() * g.h(),
        forall|x: int, y: int|
            g.in_bounds(x, y) ==> (#[trigger] marked(*g, seen@, x, y) <==> is_empty(*g, x, y) && outside(*g, x, y)),
{
    let w = g.width() as usize;
    let h = g.height() as usize;
    proof {
        lemma_area(g.w(), g.h());
    }
    let n = w * h;
    let mut seen: Vec<bool> = Vec::new();
    while seen.len() < n
        invariant
            n == g.w() * g.h(),
            seen@.len() <= n,
            forall|i: int| 0 <= i < seen@.len() ==> !#[trigger] seen@[i],
        decreases n - seen.len(),
    {
        seen.push(false);
    }
    let mut stack: Vec<(usize, usize)> = Vec::new();
    assert forall|a: int, b: int| g.in_bounds(a, b) implies !#[trigger] marked(*g, seen@, a, b) by {
        lemma_flat(g.w(), g.h(), a, b);
    }
    let mut y: usize = 0;
    while y < h
        invariant
            g.wf(),
            w == g.w(),
            h == g.h(),
            y <= h,
            seen@.len() == g.w() * g.h(),
            forall|a: int, b: int|
                g.in_bounds(a, b) && #[trigger] marked(*g, seen@, a, b) ==> is_empty(*g, a, b) && outside(*g, a, b),
            forall|k: int|
                0 <= k < stack@.len() ==> g.in_bounds((#[trigger] stack@[k]).0 as int, stack@[k].1 as int)
                    && marked(*g, seen@, stack@[k].0 as int, stack@[k].1 as int),
            forall|a: int, b: int|
                #[trigger] on_edge(*g, a, b) && is_empty(*g, a, b) && b < y ==> marked(*g, seen@, a, b),
            forall|a: int, b: int|
                g.in_bounds(a, b) && #[trigger] marked(*g, seen@, a, b) ==> stack@.contains((a as usize, b as usize)),
        decreases h - y,
    {
        let mut x: usize = 0;
        while x < w
            invariant
                g.wf(),
                w == g.w(),
                h == g.h(),
                y < h,
                x <= w,
                seen@.len() == g.w() * g.h(),
                forall|a: int, b: int|
                    g.in_bounds(a, b) && #[trigger] marked(*g, seen@, a, b) ==> is_empty(*g, a, b) && outside(*g, a, b),
                forall|k: int|
                    0 <= k < stack@.len() ==> g.in_bounds((#[trigger] stack@[k]).0 as int, stack@[k].1 as int)
                        && marked(*g, seen@, stack@[k].0 as int, stack@[k].1 as int),
                forall|a: int, b: int|
                    #[trigger] on_edge(*g, a, b) && is_empty(*g, a, b) && (b < y || (b == y && a < x)) ==> marked(*g, seen@, a, b),
                forall|a: int, b: int|
                    g.in_bounds(a, b) && #[trigger] marked(*g, seen@, a, b) ==> stack@.contains((a as usize, b as usize)),
            decreases w - x,
        {
            if x == 0 || y == 0 || x + 1 == w || y + 1 == h {
                let ghost s0 = seen@;
                let ghost st0 = stack@;
                visit(g, &mut seen, &mut stack, x, y, Ghost((x as int, y as int)));
                proof {
                    assert forall|a: int, b: int|
                        g.in_bounds(a, b) && #[trigger] marked(*g, seen@, a, b) implies stack@.contains((a as usize, b as usize)) by {
                        if stack@.len() == st0.len() {
                            assert(marked(*g, s0, a, b));
                            let k = choose|k: int| 0 <= k < st0.len() && st0[k] == (a as usize, b as usize);
                            assert(stack@[k] == st0[k]);
                        } else {
                            assert(marked_set(seen@).contains(flat(g.w(), a, b))) by {
                                lemma_flat(g.w(), g.h(), a, b);
                            }
                            lemma_flat(g.w(), g.h(), a, b);
                            lemma_flat(g.w(), g.h(), x as int, y as int);
                            if a == x && b == y {
                                assert(stack@[stack@.len() - 1] == (a as usize, b as usize));
                            } else {
                                assert(marked(*g, s0, a, b));
                                let k = choose|k: int| 0 <= k < st0.len() && st0[k] == (a as usize, b as usize);
                                assert(stack@[k] == st0[k]);
                            }
                        }
                    }
                }
            }
            x = x + 1;
        }
        y = y + 1;
    }
    assert forall|a: int, b: int|
        g.in_bounds(a, b) && marked(*g, seen@, a, b) && !stack@.contains((a as usize, b as usize)) implies
        #[trigger] closed_at(*g, seen@, a, b) by {
    }
    assert forall|a: int, b: int| #[trigger] on_edge(*g, a, b) && is_empty(*g, a, b) implies marked(*g, seen@, a, b) by {
    }
    while stack.len() > 0
        invariant
            g.wf(),
            w == g.w(),
            h == g.h(),
            seen@.len() == g.w() * g.h(),
            forall|a: int, b: int|
                g.in_bounds(a, b) && #[trigger] marked(*g, seen@, a, b) ==> is_empty(*g, a, b) && outside(*g, a, b),
            forall|k: int|
                0 <= k < stack@.len() ==> g.in_bounds((#[trigger] stack@[k]).0 as int, stack@[k].1 as int)
                    && marked(*g, seen@, stack@[k].0 as int, stack@[k].1 as int),
            forall|a: int, b: int| #[trigger] on_edge(*g, a, b) && is_empty(*g, a, b) ==> marked(*g, seen@, a, b),
            forall|a: int, b: int|
                g.in_bounds(a, b) && marked(*g, seen@, a, b) && !stack@.contains((a as usize, b as usize)) ==>
                #[trigger] closed_at(*g, seen@, a, b),
        decreases g.w() * g.h() - marked_set(seen@).len(), stack@.len(),
    {
        let ghost old_seen = seen@;
        let ghost old_stack = stack@;
        proof {
            lemma_marked_set_len(seen@);
        }
        let (x, y) = stack.pop().unwrap();
        let ghost c = (x as int, y as int);
        let ghost s0 = seen@;
        let ghost st0 = stack@;
        proof {
            assert(old_stack == st0.push((x, y)));
            assert(old_stack[old_stack.len() - 1] == (x, y));
            assert(marked(*g, s0, x as int, y as int));
        }
        let mut d: usize = 0;
        while d < 4
            invariant
                g.wf(),
                w == g.w(),
                h == g.h(),
                d <= 4,
                g.in_bounds(x as int, y as int),
                c == (x as int, y as int),
                outside(*g, x as int, y as int),
                seen@.len() == g.w() * g.h(),
                s0.len() == g.w() * g.h(),
                forall|a: int, b: int|
                    g.in_bounds(a, b) && #[trigger] marked(*g, seen@, a, b) ==> is_empty(*g, a, b) && outside(*g, a, b),
                forall|k: int|
                    0 <= k < stack@.len() ==> g.in_bounds((#[trigger] stack@[k]).0 as int, stack@[k].1 as int)
                        && marked(*g, seen@, stack@[k].0 as int, stack@[k].1 as int),
                forall|a: int, b: int| g.in_bounds(a, b) && marked(*g, s0, a, b) ==> #[trigger] marked(*g, seen@, a, b),
                forall|a: int, b: int|
                    g.in_bounds(a, b) && #[trigger] marked(*g, seen@, a, b) && !marked(*g, s0, a, b)
                        ==> stack@.contains((a as usize, b as usize)),
                stack@.len() >= st0.len(),
                forall|k: int| 0 <= k < st0.len() ==> #[trigger] stack@[k] == st0[k],
                marked_set(seen@).finite(),
                marked_set(s0).finite(),
                marked_set(seen@).len() == marked_set(s0).len() + (stack@.len() - st0.len()),
                forall|e: int|
                    0 <= e < d && is_empty(*g, nb(c, e).0, nb(c, e).1) ==> #[trigger] marked(*g, seen@, nb(c, e).0, nb(c, e).1),
            decreases 4 - d,
        {
            let ghost s1 = seen@;
            let ghost st1 = stack@;
            let (ok, nx, ny) = if d == 0 {
                (x + 1 < w, x + 1, y)
            } else if d == 1 {
                (x > 0, if x > 0 { x - 1 } else { 0 }, y)
            } else if d == 2 {
                (y + 1 < h, x, y + 1)
            } else {
                (y > 0, x, if y > 0 { y - 1 } else { 0 })
            };
            proof {
                assert(ok <==> g.in_bounds(nb(c, d as int).0, nb(c, d as int).1));
                assert(ok ==> (nx as int, ny as int) == nb(c, d as int));
            }
            if ok {
                visit(g, &mut seen, &mut stack, nx, ny, Ghost(c));
                proof {
                    if stack@.len() != st1.len() {
                        lemma_marked_set_len(s1);
                    }
                    assert forall|a: int, b: int|
                        g.in_bounds(a, b) && #[trigger] marked(*g, seen@, a, b) && !marked(*g, s0, a, b)
                            implies stack@.contains((a as usize, b as usize)) by {
                        lemma_flat(g.w(), g.h(), a, b);
                        if marked(*g, s1, a, b) {
                            let k = choose|k: int| 0 <= k < st1.len() && st1[k] == (a as usize, b as usize);
                            assert(stack@[k] == st1[k]);
                        } else {
                            assert(marked_set(seen@).contains(flat(g.w(), a, b)));
                            lemma_flat(g.w(), g.h(), nx as int, ny as int);
                            assert(a == nx && b == ny);
                            assert(stack@[stack@.len() - 1] == (a as usize, b as usize));
                        }
                    }
                    assert forall|k: int| 0 <= k < st0.len() implies #[trigger] stack@[k] == st0[k] by {
                        assert(stack@[k] == st1[k]);
                    }
                }
            }
            d = d + 1;
        }
        proof {
            assert(closed_at(*g, seen@, x as int, y as int)) by {
                assert forall|a: int, b: int| is_empty(*g, a, b) && adjacent((x as int, y as int), (a, b))
                    implies #[trigger] marked(*g, seen@, a, b) by {
                    if a == x + 1 {
                        assert(nb(c, 0) == (a, b));
                    } else if a == x - 1 {
                        assert(nb(c, 1) == (a, b));
                    } else if b == y + 1 {
                        assert(nb(c, 2) == (a, b));
                    } else {
                        assert(nb(c, 3) == (a, b));
                    }
                }
            }
            assert forall|a: int, b: int|
                g.in_bounds(a, b) && marked(*g, seen@, a, b) && !stack@.contains((a as usize, b as usize)) implies
                #[trigger] closed_at(*g, seen@, a, b) by {
                if a == x && b == y {
                } else {
                    assert(marked(*g, s0, a, b));
                    assert(!st0.contains((a as usize, b as usize))) by {
                        if st0.contains((a as usize, b as usize)) {
                            let k = choose|k: int| 0 <= k < st0.len() && st0[k] == (a as usize, b as usize);
                            assert(stack@[k] == st0[k]);
                        }
                    }
                    assert(!old_stack.contains((a as usize, b as usize))) by {
                        if old_stack.contains((a as usize, b as usize)) {
                            let k = choose|k: int| 0 <= k < old_stack.len() && old_stack[k] == (a as usize, b as usize);
                            if k < st0.len() {
                                assert(st0[k] == old_stack[k]);
                            }
                        }
                    }
                    assert(closed_at(*g, old_seen, a, b));
                    assert forall|a2: int, b2: int| is_empty(*g, a2, b2) && adjacent((a, b), (a2, b2))
                        implies #[trigger] marked(*g, seen@, a2, b2) by {
                        assert(marked(*g, old_seen, a2, b2));
                    }
                }
            }
            if stack@.len() > st0.len() {
                assert(marked_set(seen@).len() > marked_set(old_seen).len());
            }
            lemma_marked_set_len(seen@);
        }
    }
    proof {
        assert forall|x: int, y: int|
            g.in_bounds(x, y) implies (#[trigger] marked(*g, seen@, x, y) <==> is_empty(*g, x, y) && outside(*g, x, y)) by {
            if is_empty(*g, x, y) && outside(*g, x, y) {
                let path = choose|path: Seq<(int, int)>| open_path(*g, path) && path.last() == (x, y);
                assert forall|a: int, b: int|
                    g.in_bounds(a, b) && marked(*g, seen@, a, b) implies #[trigger] closed_at(*g, seen@, a, b) by {
                    assert(!stack@.contains((a as usize, b as usize)));
                }
                lemma_paths_marked(*g, seen@, path);
            }
        }
    }
    seen
}

/// The tiles that the flood fill leaves unmarked among the empty ones are
/// exactly the enclosed tiles, the ones a claim takes.
pub proof fn lemma_unmarked_are_enclosed(g: Grid, seen: Seq<bool>)
    requires
        g.wf(),
        forall|x: int, y: int|
            g.in_bounds(x, y) ==> (#[trigger] marked(g, seen, x, y) <==> is_empty(g, x, y) && outside(g, x, y)),
    ensures
        forall|x: int, y: int|
            g.in_bounds(x, y) ==> (#[trigger] enclosed(g, x, y) <==> is_empty(g, x, y) && !marked(g, seen, x, y)),
        enclosed_set(g) == Set::new(|c: (int, int)| g.in_bounds(c.0, c.1) && is_empty(g, c.0, c.1) && !marked(g, seen, c.0, c.1)),
{
    assert(enclosed_set(g) =~= Set::new(
        |c: (int, int)| g.in_bounds(c.0, c.1) && is_empty(g, c.0, c.1) && !marked(g, seen, c.0, c.1),
    ));
}

/// Tile (x, y) after `p` claims on grid `g`: enclosed tiles and all of `p`'s
/// own tiles become `p`'s settled territory; every other tile is kept.
pub open spec fn claimed_tile(g: Grid, p: PlayerId, x: int, y: int) -> Tile {
    if enclosed(g, x, y) || g.cell(x, y).owner == Some(p) {
        Tile { x: x as i32, y: y as i32, owner: Some(p), is_trail: false }
    } else {
        g.cell(x, y)
    }
}

/// `now` is `was` with the score alone changed.
pub open spec fn same_but_score(was: Player, now: Player) -> bool {
    &&& now.speed == was.speed
    &&& now.direction == was.direction
    &&& now.buffered_direction == was.buffered_direction
    &&& now.is_drawing_trail == was.is_drawing_trail
    &&& now.last_tile_pos == was.last_tile_pos
    &&& now.is_moving_to_next_tile == was.is_moving_to_next_tile
}

/// What consuming claim slot `req0` for player `id` does, from `g0`, `p0`
/// to `g2`, `req2`, `p2`, reporting death `r`.
pub open spec fn claim_post(
    g0: Grid,
    req0: CompleteTrail,
    id: PlayerId,
    p0: Player,
    g2: Grid,
    req2: CompleteTrail,
    p2: Player,
    r: Option<PlayerDeathEvent>,
) -> bool {
    &&& g2.wf()
    &&& g2.same_shape(g0)
    &&& !req0.pending() ==> {
        &&& g2 == g0
        &&& req2 == req0
        &&& p2 == p0
        &&& r is None
    }
    &&& req0.pending() ==> req2 == CompleteTrail::empty_spec()
    &&& req0.pending() && req0.entry_point is None ==> {
        &&& g2 == g0
        &&& p2 == p0
        &&& r == Some(PlayerDeathEvent { player_entity: id, reason: PlayerDeathReason::CrossedTrail })
    }
    &&& req0.pending() && req0.entry_point is Some ==> {
        &&& r is None
        &&& forall|x: int, y: int|
            g0.in_bounds(x, y) ==> #[trigger] g2.cell(x, y) == claimed_tile(g0, id, x, y)
        &&& forall|x: int, y: int|
            g0.in_bounds(x, y) && g0.cell(x, y).owner == Some(id) ==> {
                &&& #[trigger] g2.cell(x, y).owner == Some(id)
                &&& !g2.cell(x, y).is_trail
            }
        &&& forall|x: int, y: int|
            g0.in_bounds(x, y) && g0.cell(x, y).owner != Some(id) && g0.cell(x, y).owner
                is Some ==> #[trigger] g2.cell(x, y) == g0.cell(x, y)
        &&& enclosed_set(g0).finite()
        &&& p2.score == p0.score + enclosed_set(g0).len()
        &&& same_but_score(p0, p2)
    }
}

/// Consumes a pending claim request of player `id`. Without an entry point
/// the loop closed on itself away from territory, and the player dies
/// instead. Otherwise the player's trail becomes territory, every empty tile
/// that the flood fill from the edge cannot reach is claimed, and the score
/// grows by the number of tiles claimed that way.
pub fn claim_territory_system(grid: &mut Grid, request: &mut CompleteTrail, id: PlayerId, player: &mut Player) -> (r:
    Option<PlayerDeathEvent>)
    requires
        old(grid).wf(),
        old(request).pending() ==> old(request).player == Some(id),
        old(request).pending() && old(request).entry_point is Some ==> old(player).score + old(grid).w() * old(
            grid,
        ).h() <= u32::MAX,
    ensures
        claim_post(*old(grid), *old(request), id, *old(player), *final(grid), *final(request), *final(player), r),

{
    if !request.is_pending() {
        return None;
    }
    let entry = request.entry_point;
    *request = CompleteTrail::empty();
    if entry.is_none() {
        return Some(PlayerDeathEvent { player_entity: id, reason: PlayerDeathReason::CrossedTrail });
    }
    let ghost g0 = *grid;
    let seen = flood_outside(grid);
    let w = grid.width() as usize;
    let h = grid.height() as usize;
    proof {
        lemma_area(g0.w(), g0.h());
    }
    let mut count: u32 = 0;
    let ghost mut claimed: Set<(int, int)> = Set::empty();
    let mut y: usize = 0;
    while y < h
        invariant
            g0.wf(),
            grid.wf(),
            grid.same_shape(g0),
            w == g0.w(),
            h == g0.h(),
            w * h <= 16777216,
            y <= h,
            seen@.len() == g0.w() * g0.h(),
            forall|a: int, b: int|
                g0.in_bounds(a, b) ==> (#[trigger] marked(g0, seen@, a, b) <==> is_empty(g0, a, b) && outside(g0, a, b)),
            forall|a: int, b: int|
                g0.in_bounds(a, b) ==> #[trigger] grid.cell(a, b) == if before(a, b, 0, y as int) {
                    claimed_tile(g0, id, a, b)
                } else {
                    g0.cell(a, b)
                },
            claimed.finite(),
            claimed.len() == count,
            count <= y * w,
            claimed == Set::new(|c: (int, int)| enclosed(g0, c.0, c.1) && before(c.0, c.1, 0, y as int)),
        decreases h - y,
    {
        let mut x: usize = 0;
        while x < w
            invariant
                g0.wf(),
                grid.wf(),
                grid.same_shape(g0),
                w == g0.w(),
                h == g0.h(),
                w * h <= 16777216,
                y < h,
                x <= w,
                seen@.len() == g0.w() * g0.h(),
                forall|a: int, b: int|
                    g0.in_bounds(a, b) ==> (#[trigger] marked(g0, seen@, a, b) <==> is_empty(g0, a, b) && outside(g0, a, b)),
                forall|a: int, b: int|
                    g0.in_bounds(a, b) ==> #[trigger] grid.cell(a, b) == if before(a, b, x as int, y as int) {
                        claimed_tile(g0, id, a, b)
                    } else {
                        g0.cell(a, b)
                    },
                claimed.finite(),
                claimed.len() == count,
                count <= y * w + x,
                claimed == Set::new(|c: (int, int)| enclosed(g0, c.0, c.1) && before(c.0, c.1, x as int, y as int)),
            decreases w - x,
        {
            proof {
                lemma_flat(g0.w(), g0.h(), x as int, y as int);
                assert(y * w + x < w * h);
            }
            let t = grid.get(x, y);
            let i = y * w + x;
            let ghost old_claimed = claimed;
            let ghost gx = *grid;
            assert(t == g0.cell(x as int, y as int));
            let claim_here = match t.owner {
                Some(o) => {
                    if o == id && t.is_trail {
                        grid.put(x, y, Tile { x: t.x, y: t.y, owner: Some(id), is_trail: false });
                    }
                    false
                },
                None => !seen[i],
            };
            if claim_here {
                grid.put(x, y, Tile { x: t.x, y: t.y, owner: Some(id), is_trail: false });
                count = count + 1;
                proof {
                    claimed = claimed.insert((x as int, y as int));
                }
            }
            proof {
                assert(seen@[i as int] == marked(g0, seen@, x as int, y as int));
                assert(claim_here <==> enclosed(g0, x as int, y as int));
                assert forall|a: int, b: int|
                    g0.in_bounds(a, b) implies #[trigger] grid.cell(a, b) == if before(a, b, x + 1, y as int) {
                        claimed_tile(g0, id, a, b)
                    } else {
                        g0.cell(a, b)
                    } by {
                    assert(gx.cell(a, b) == if before(a, b, x as int, y as int) {
                        claimed_tile(g0, id, a, b)
                    } else {
                        g0.cell(a, b)
                    });
                }
                assert(claimed =~= Set::new(|c: (int, int)| enclosed(g0, c.0, c.1) && before(c.0, c.1, x + 1, y as int)));
            }
            x = x + 1;
        }
        proof {
            assert((y + 1) * w == y * w + w) by (nonlinear_arith);
            assert(claimed =~= Set::new(|c: (int, int)| enclosed(g0, c.0, c.1) && before(c.0, c.1, 0, y + 1)));
            assert forall|a: int, b: int|
                g0.in_bounds(a, b) implies #[trigger] grid.cell(a, b) == if before(a, b, 0, y + 1) {
                    claimed_tile(g0, id, a, b)
                } else {
                    g0.cell(a, b)
                } by {
                assert(grid.cell(a, b) == if before(a, b, w as int, y as int) {
                    claimed_tile(g0, id, a, b)
                } else {
                    g0.cell(a, b)
                });
            }
        }
        y = y + 1;
    }
    proof {
        assert(claimed =~= enclosed_set(g0));
        assert(h * w == w * h) by (nonlinear_arith);
    }
    player.score = player.score + count;
    None
}

} // verus!
