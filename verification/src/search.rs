//! The grid search: a depth-first traversal over adjacent cells, guided
//! by the dictionary's prefix tree. A word is found exactly when a path
//! of pairwise-distinct, consecutively adjacent cells spells the path
//! under which the dictionary stores it.

use crate::dict::Dict;
use crate::grid::{adjacent, cell_index, Grid, HEIGHT, WIDTH};
use vstd::hash_set::StringHashSet;
use vstd::prelude::*;

verus! {

/// The letters a run of cells spells on the grid.
pub open spec fn letters_of(g: Seq<char>, cells: Seq<(usize, usize)>) -> Seq<char> {
    Seq::new(cells.len(), |i: int| g[cell_index(cells[i].0 as int, cells[i].1 as int)])
}

/// A run of pairwise-distinct, in-bounds cells, each adjacent to the
/// next.
pub open spec fn path_ok(cells: Seq<(usize, usize)>) -> bool {
    &&& forall|i: int| 0 <= i < cells.len()
        ==> (#[trigger] cells[i]).0 < WIDTH && cells[i].1 < HEIGHT
    &&& forall|i: int, j: int| 0 <= i < j < cells.len() ==> cells[i] != cells[j]
    &&& forall|i: int|
        #![trigger cells[i]]
        0 <= i < cells.len() - 1 ==> adjacent(
            cells[i].0 as int,
            cells[i].1 as int,
            cells[i + 1].0 as int,
            cells[i + 1].1 as int,
        )
}

/// Whether the search must find the word: some non-empty path of cells
/// spells exactly the tree path under which the dictionary stores it.
pub open spec fn found_word(g: Seq<char>, d: Map<Seq<char>, Seq<char>>, w: Seq<char>) -> bool {
    exists|cells: Seq<(usize, usize)>|
        #![trigger letters_of(g, cells)]
        {
            &&& path_ok(cells)
            &&& cells.len() > 0
            &&& d.dom().contains(letters_of(g, cells))
            &&& d[letters_of(g, cells)] == w
        }
}

/// An extension: further cells, in bounds, pairwise distinct, avoiding
/// the visited ones, chained by adjacency from the current cell.
pub open spec fn ext_ok(vis: Seq<(usize, usize)>, cur: (usize, usize), ext: Seq<(usize, usize)>) -> bool {
    &&& forall|i: int| 0 <= i < ext.len() ==> (#[trigger] ext[i]).0 < WIDTH && ext[i].1 < HEIGHT
    &&& forall|i: int, j: int| 0 <= i < j < ext.len() ==> ext[i] != ext[j]
    &&& forall|i: int| 0 <= i < ext.len() ==> !vis.contains(#[trigger] ext[i])
    &&& (ext.len() > 0 ==> adjacent(cur.0 as int, cur.1 as int, ext[0].0 as int, ext[0].1 as int))
    &&& forall|i: int|
        #![trigger ext[i]]
        0 <= i < ext.len() - 1 ==> adjacent(
            ext[i].0 as int,
            ext[i].1 as int,
            ext[i + 1].0 as int,
            ext[i + 1].1 as int,
        )
}

/// A word reachable from the current traversal state: some extension of
/// the path reaches the tree node that stores it.
pub open spec fn ext_word(
    g: Seq<char>,
    d: Map<Seq<char>, Seq<char>>,
    q: Seq<char>,
    vis: Seq<(usize, usize)>,
    cur: (usize, usize),
    w: Seq<char>,
) -> bool {
    exists|ext: Seq<(usize, usize)>|
        #![trigger letters_of(g, ext)]
        {
            &&& ext_ok(vis, cur, ext)
            &&& d.dom().contains(q + letters_of(g, ext))
            &&& d[q + letters_of(g, ext)] == w
        }
}

/// `ext_word` through a fixed first step.
pub open spec fn ext_word_via(
    g: Seq<char>,
    d: Map<Seq<char>, Seq<char>>,
    q: Seq<char>,
    vis: Seq<(usize, usize)>,
    cur: (usize, usize),
    first: (usize, usize),
    w: Seq<char>,
) -> bool {
    exists|ext: Seq<(usize, usize)>|
        #![trigger letters_of(g, ext)]
        {
            &&& ext_ok(vis, cur, ext)
            &&& ext.len() > 0
            &&& ext[0] == first
            &&& d.dom().contains(q + letters_of(g, ext))
            &&& d[q + letters_of(g, ext)] == w
        }
}

/// Distinct in-bounds cells never outnumber the grid's cells; in
/// particular, no path is longer than `WIDTH * HEIGHT`.
pub proof fn lemma_cells_bound(cells: Seq<(usize, usize)>)
    requires
        forall|i: int, j: int| 0 <= i < j < cells.len() ==> cells[i] != cells[j],
        forall|i: int| 0 <= i < cells.len()
            ==> (#[trigger] cells[i]).0 < WIDTH && cells[i].1 < HEIGHT,
    ensures
        cells.len() <= WIDTH * HEIGHT,
{
    let idxs = Seq::new(
        cells.len(),
        |i: int| cell_index(cells[i].0 as int, cells[i].1 as int),
    );
    assert forall|i: int, j: int|
        0 <= i < idxs.len() && 0 <= j < idxs.len() && i != j implies idxs[i] != idxs[j] by {
        if idxs[i] == idxs[j] {
            vstd::arithmetic::div_mod::lemma_fundamental_div_mod_converse(
                idxs[i],
                WIDTH as int,
                cells[i].1 as int,
                cells[i].0 as int,
            );
            vstd::arithmetic::div_mod::lemma_fundamental_div_mod_converse(
                idxs[j],
                WIDTH as int,
                cells[j].1 as int,
                cells[j].0 as int,
            );
            assert(cells[i] == cells[j]);
        }
    }
    assert(idxs.no_duplicates());
    idxs.unique_seq_to_set();
    let range = vstd::set_lib::set_int_range(0, (WIDTH * HEIGHT) as int);
    assert(idxs.to_set().subset_of(range)) by {
        assert forall|v: int| idxs.to_set().contains(v) implies range.contains(v) by {
            let i = choose|i: int| 0 <= i < idxs.len() && idxs[i] == v;
        }
    }
    vstd::set_lib::lemma_int_range(0, (WIDTH * HEIGHT) as int);
    vstd::set_lib::lemma_len_subset(idxs.to_set(), range);
}

/// An extension either ends at the current node or goes through one
/// adjacent, unvisited, in-bounds first step.
proof fn lemma_ext_split(
    g: Seq<char>,
    d: Map<Seq<char>, Seq<char>>,
    q: Seq<char>,
    vis: Seq<(usize, usize)>,
    cur: (usize, usize),
)
    ensures
        forall|w: Seq<char>| #[trigger] ext_word(g, d, q, vis, cur, w) <==> ((d.dom().contains(q)
            && d[q] == w) || exists|first: (usize, usize)|
            {
                &&& first.0 < WIDTH
                &&& first.1 < HEIGHT
                &&& !vis.contains(first)
                &&& adjacent(cur.0 as int, cur.1 as int, first.0 as int, first.1 as int)
                &&& ext_word_via(g, d, q, vis, cur, first, w)
            }),
{
    assert forall|w: Seq<char>| #[trigger] ext_word(g, d, q, vis, cur, w) implies ((
    d.dom().contains(q) && d[q] == w) || exists|first: (usize, usize)|
        {
            &&& first.0 < WIDTH
            &&& first.1 < HEIGHT
            &&& !vis.contains(first)
            &&& adjacent(cur.0 as int, cur.1 as int, first.0 as int, first.1 as int)
            &&& ext_word_via(g, d, q, vis, cur, first, w)
        }) by {
        let ext = choose|ext: Seq<(usize, usize)>|
            #![trigger letters_of(g, ext)]
            {
                &&& ext_ok(vis, cur, ext)
                &&& d.dom().contains(q + letters_of(g, ext))
                &&& d[q + letters_of(g, ext)] == w
            };
        if ext.len() == 0 {
            assert(q + letters_of(g, ext) =~= q);
        } else {
            let first = ext[0];
            assert(first.0 < WIDTH && first.1 < HEIGHT && !vis.contains(first) && adjacent(
                cur.0 as int,
                cur.1 as int,
                first.0 as int,
                first.1 as int,
            ) && ext_word_via(g, d, q, vis, cur, first, w));
        }
    }
    assert forall|w: Seq<char>| ((d.dom().contains(q) && d[q] == w) || exists|first: (usize, usize)|
        {
            &&& first.0 < WIDTH
            &&& first.1 < HEIGHT
            &&& !vis.contains(first)
            &&& adjacent(cur.0 as int, cur.1 as int, first.0 as int, first.1 as int)
            &&& ext_word_via(g, d, q, vis, cur, first, w)
        }) implies #[trigger] ext_word(g, d, q, vis, cur, w) by {
        if d.dom().contains(q) && d[q] == w {
            let ext = Seq::<(usize, usize)>::empty();
            assert(q + letters_of(g, ext) =~= q);
            assert(ext_ok(vis, cur, ext) && d.dom().contains(q + letters_of(g, ext)) && d[q
                + letters_of(g, ext)] == w);
        }
    }
}

/// Extending through a first step is reaching that cell's node and
/// extending from there.
proof fn lemma_ext_step(
    g: Seq<char>,
    d: Map<Seq<char>, Seq<char>>,
    q: Seq<char>,
    vis: Seq<(usize, usize)>,
    cur: (usize, usize),
    first: (usize, usize),
)
    requires
        !vis.contains(first),
        adjacent(cur.0 as int, cur.1 as int, first.0 as int, first.1 as int),
        first.0 < WIDTH,
        first.1 < HEIGHT,
    ensures
        forall|w: Seq<char>| #[trigger] ext_word_via(g, d, q, vis, cur, first, w) <==> ext_word(
            g,
            d,
            q.push(g[cell_index(first.0 as int, first.1 as int)]),
            vis.push(first),
            first,
            w,
        ),
{
    let c = g[cell_index(first.0 as int, first.1 as int)];
    assert forall|w: Seq<char>| #[trigger] ext_word_via(g, d, q, vis, cur, first, w) implies
        ext_word(g, d, q.push(c), vis.push(first), first, w) by {
        let ext = choose|ext: Seq<(usize, usize)>|
            #![trigger letters_of(g, ext)]
            {
                &&& ext_ok(vis, cur, ext)
                &&& ext.len() > 0
                &&& ext[0] == first
                &&& d.dom().contains(q + letters_of(g, ext))
                &&& d[q + letters_of(g, ext)] == w
            };
        let rest = ext.skip(1);
        assert(ext_ok(vis.push(first), first, rest)) by {
            assert forall|i: int| 0 <= i < rest.len() implies !vis.push(first).contains(
                #[trigger] rest[i],
            ) by {
                assert(rest[i] == ext[i + 1]);
                assert(ext[i + 1] != ext[0]);
                if vis.push(first).contains(rest[i]) {
                    let j = choose|j: int|
                        0 <= j < vis.push(first).len() && vis.push(first)[j] == rest[i];
                    if j < vis.len() {
                        assert(vis.contains(rest[i]));
                    }
                }
            }
            assert(forall|i: int| 0 <= i < rest.len() ==> #[trigger] rest[i] == ext[i + 1]);
        }
        assert(q.push(c) + letters_of(g, rest) =~= q + letters_of(g, ext));
        assert(d.dom().contains(q.push(c) + letters_of(g, rest)) && d[q.push(c) + letters_of(
            g,
            rest,
        )] == w);
    }
    assert forall|w: Seq<char>| ext_word(g, d, q.push(c), vis.push(first), first, w) implies
        #[trigger] ext_word_via(g, d, q, vis, cur, first, w) by {
        let rest = choose|rest: Seq<(usize, usize)>|
            #![trigger letters_of(g, rest)]
            {
                &&& ext_ok(vis.push(first), first, rest)
                &&& d.dom().contains(q.push(c) + letters_of(g, rest))
                &&& d[q.push(c) + letters_of(g, rest)] == w
            };
        let ext = seq![first] + rest;
        assert(ext_ok(vis, cur, ext)) by {
            assert(ext[0] == first);
            assert(forall|i: int| 0 <= i < rest.len() ==> #[trigger] ext[i + 1] == rest[i]);
            assert forall|i: int, j: int| 0 <= i < j < ext.len() implies ext[i] != ext[j] by {
                if i == 0 {
                    assert(!vis.push(first).contains(rest[j - 1]));
                    assert(vis.push(first)[vis.len() as int] == first);
                } else {
                    assert(ext[i] == rest[i - 1] && ext[j] == rest[j - 1]);
                }
            }
            assert forall|i: int| 0 <= i < ext.len() implies !vis.contains(#[trigger] ext[i]) by {
                if i > 0 {
                    assert(!vis.push(first).contains(rest[i - 1]));
                    if vis.contains(ext[i]) {
                        let j = choose|j: int| 0 <= j < vis.len() && vis[j] == ext[i];
                        assert(vis.push(first)[j] == ext[i]);
                    }
                }
            }
        }
        assert(ext.len() > 0 && ext[0] == first);
        assert(q + letters_of(g, ext) =~= q.push(c) + letters_of(g, rest));
        assert(d.dom().contains(q + letters_of(g, ext)) && d[q + letters_of(g, ext)] == w);
    }
}

/// Whether the position list holds the given cell.
fn contains_pos(v: &Vec<(usize, usize)>, x: usize, y: usize) -> (r: bool)
    ensures
        r == v@.contains((x, y)),
{
    let mut i: usize = 0;
    while i < v.len()
        invariant
            i <= v@.len(),
            forall|j: int| 0 <= j < i ==> v@[j] != (x, y),
        decreases v@.len() - i,
    {
        if v[i].0 == x && v[i].1 == y {
            proof {
                assert(v@[i as int] == (x, y));
            }
            return true;
        }
        i += 1;
    }
    proof {
        if v@.contains((x, y)) {
            let j = choose|j: int| 0 <= j < v@.len() && v@[j] == (x, y);
        }
    }
    false
}

/// One traversal step: emit the word at the current tree node, then try
/// every unvisited neighbour whose letter continues a stored path.
/// `prune` enables the stop at childless nodes; `fuel` bounds the
/// recursion depth, which never exceeds the number of cells.
fn search_rec(
    grid: &Grid,
    dict: &Dict,
    path: &mut Vec<char>,
    visited: &mut Vec<(usize, usize)>,
    found: &mut StringHashSet,
    x: usize,
    y: usize,
    prune: bool,
    fuel: usize,
)
    requires
        grid.wf(),
        dict.wf(),
        forall|i: int, j: int| 0 <= i < j < old(visited)@.len()
            ==> old(visited)@[i] != old(visited)@[j],
        forall|i: int| 0 <= i < old(visited)@.len()
            ==> (#[trigger] old(visited)@[i]).0 < WIDTH && old(visited)@[i].1 < HEIGHT,
        fuel + old(visited)@.len() >= 1 + WIDTH * HEIGHT,
    ensures
        final(path)@ == old(path)@,
        final(visited)@ == old(visited)@,
        forall|w: Seq<char>| #[trigger] final(found)@.contains(w) <==> (old(found)@.contains(w)
            || ext_word(grid@, dict@, old(path)@, old(visited)@, (x, y), w)),
    decreases fuel,
{
    let ghost g = grid@;
    let ghost d = dict@;
    let ghost q0 = path@;
    let ghost vis0 = visited@;
    let ghost found0 = found@;
    proof {
        lemma_cells_bound(vis0);
    }
    if fuel == 0 {
        proof {
            assert(false);
        }
        return ;
    }
    if let Some(w) = dict.value_at(path) {
        found.insert(crate::dict::chars_to_string(&w));
    }
    let ghost found1 = found@;
    proof {
        assert(forall|w: Seq<char>| #[trigger] found1.contains(w) <==> (found0.contains(w) || (
        d.dom().contains(q0) && d[q0] == w)));
    }
    if prune && dict.leaf_at(path) {
        proof {
            lemma_ext_split(g, d, q0, vis0, (x, y));
            assert forall|w: Seq<char>| #[trigger] found@.contains(w) <==> (found0.contains(w)
                || ext_word(g, d, q0, vis0, (x, y), w)) by {
                assert forall|first: (usize, usize), w2: Seq<char>|
                    ext_word_via(g, d, q0, vis0, (x, y), first, w2) implies false by {
                    let ext = choose|ext: Seq<(usize, usize)>|
                        #![trigger letters_of(g, ext)]
                        {
                            &&& ext_ok(vis0, (x, y), ext)
                            &&& ext.len() > 0
                            &&& ext[0] == first
                            &&& d.dom().contains(q0 + letters_of(g, ext))
                            &&& d[q0 + letters_of(g, ext)] == w2
                        };
                    let key = q0 + letters_of(g, ext);
                    assert(q0.is_prefix_of(key)) by {
                        assert(key.subrange(0, q0.len() as int) =~= q0);
                    }
                    assert(key.len() > q0.len());
                }
            }
        }
        return ;
    }
    let ns = grid.neighbours(x, y);
    let mut i: usize = 0;
    while i < ns.len()
        invariant
            grid.wf(),
            dict.wf(),
            g == grid@,
            d == dict@,
            i <= ns@.len(),
            fuel >= 1,
            fuel + vis0.len() >= 1 + WIDTH * HEIGHT,
            path@ == q0,
            visited@ == vis0,
            forall|i1: int, i2: int| 0 <= i1 < i2 < vis0.len() ==> vis0[i1] != vis0[i2],
            forall|i1: int| 0 <= i1 < vis0.len()
                ==> (#[trigger] vis0[i1]).0 < WIDTH && vis0[i1].1 < HEIGHT,
            forall|i1: int| 0 <= i1 < ns@.len() ==> {
                let (nx, ny, c) = #[trigger] ns@[i1];
                nx < WIDTH && ny < HEIGHT && adjacent(x as int, y as int, nx as int, ny as int)
                    && c == g[ny * WIDTH + nx]
            },
            forall|nx: usize, ny: usize|
                nx < WIDTH && ny < HEIGHT && adjacent(x as int, y as int, nx as int, ny as int)
                    ==> exists|i1: int| 0 <= i1 < ns@.len()
                        && #[trigger] ns@[i1] == (nx, ny, g[ny * WIDTH + nx]),
            forall|w: Seq<char>| #[trigger] found@.contains(w) <==> (found1.contains(w) || exists|
                j: int,
            |
                0 <= j < i && ext_word_via(
                    g,
                    d,
                    q0,
                    vis0,
                    (x, y),
                    (#[trigger] ns@[j].0, ns@[j].1),
                    w,
                )),
        decreases ns@.len() - i,
    {
        let ghost found_pre = found@;
        let (nx, ny, nc) = ns[i];
        proof {
            assert(ns@[i as int] == (nx, ny, nc));
        }
        if !contains_pos(visited, nx, ny) {
            path.push(nc);
            proof {
                assert(nc == g[cell_index(nx as int, ny as int)]);
            }
            if dict.node_exists(path) {
                visited.push((nx, ny));
                search_rec(grid, dict, path, visited, found, nx, ny, prune, fuel - 1);
                visited.pop();
                proof {
                    assert(visited@ =~= vis0);
                    lemma_ext_step(g, d, q0, vis0, (x, y), (nx, ny));
                    assert forall|w: Seq<char>| #[trigger] found@.contains(w) implies (
                    found1.contains(w) || exists|j: int|
                        0 <= j < i + 1 && ext_word_via(
                            g,
                            d,
                            q0,
                            vis0,
                            (x, y),
                            (#[trigger] ns@[j].0, ns@[j].1),
                            w,
                        )) by {
                        if !found_pre.contains(w) {
                            assert(ext_word(g, d, q0.push(nc), vis0.push((nx, ny)), (nx, ny), w));
                            assert(ext_word_via(g, d, q0, vis0, (x, y), (nx, ny), w));
                            assert(ext_word_via(
                                g,
                                d,
                                q0,
                                vis0,
                                (x, y),
                                (ns@[i as int].0, ns@[i as int].1),
                                w,
                            ));
                        } else {
                            if !found1.contains(w) {
                                let j = choose|j: int|
                                    0 <= j < i && ext_word_via(
                                        g,
                                        d,
                                        q0,
                                        vis0,
                                        (x, y),
                                        (#[trigger] ns@[j].0, ns@[j].1),
                                        w,
                                    );
                                assert(0 <= j < i + 1 && ext_word_via(
                                    g,
                                    d,
                                    q0,
                                    vis0,
                                    (x, y),
                                    (ns@[j].0, ns@[j].1),
                                    w,
                                ));
                            }
                        }
                    }
                    assert forall|w: Seq<char>| (found1.contains(w) || exists|j: int|
                        0 <= j < i + 1 && ext_word_via(
                            g,
                            d,
                            q0,
                            vis0,
                            (x, y),
                            (#[trigger] ns@[j].0, ns@[j].1),
                            w,
                        )) implies #[trigger] found@.contains(w) by {
                        if !found1.contains(w) {
                            let j = choose|j: int|
                                0 <= j < i + 1 && ext_word_via(
                                    g,
                                    d,
                                    q0,
                                    vis0,
                                    (x, y),
                                    (#[trigger] ns@[j].0, ns@[j].1),
                                    w,
                                );
                            if j == i as int {
                                assert(ext_word(
                                    g,
                                    d,
                                    q0.push(nc),
                                    vis0.push((nx, ny)),
                                    (nx, ny),
                                    w,
                                ));
                            } else {
                                assert(found_pre.contains(w));
                            }
                        }
                    }
                }
            } else {
                proof {
                    // No stored path continues through this neighbour.
                    assert forall|w: Seq<char>|
                        ext_word_via(g, d, q0, vis0, (x, y), (nx, ny), w) implies false by {
                        let ext = choose|ext: Seq<(usize, usize)>|
                            #![trigger letters_of(g, ext)]
                            {
                                &&& ext_ok(vis0, (x, y), ext)
                                &&& ext.len() > 0
                                &&& ext[0] == (nx, ny)
                                &&& d.dom().contains(q0 + letters_of(g, ext))
                                &&& d[q0 + letters_of(g, ext)] == w
                            };
                        let key = q0 + letters_of(g, ext);
                        assert(path@.is_prefix_of(key)) by {
                            assert(key.subrange(0, path@.len() as int) =~= path@);
                        }
                    }
                    assert forall|w: Seq<char>| #[trigger] found@.contains(w) <==> (
                    found1.contains(w) || exists|j: int|
                        0 <= j < i + 1 && ext_word_via(
                            g,
                            d,
                            q0,
                            vis0,
                            (x, y),
                            (#[trigger] ns@[j].0, ns@[j].1),
                            w,
                        )) by {
                        if !found1.contains(w) && found@.contains(w) {
                            let j = choose|j: int|
                                0 <= j < i && ext_word_via(
                                    g,
                                    d,
                                    q0,
                                    vis0,
                                    (x, y),
                                    (#[trigger] ns@[j].0, ns@[j].1),
                                    w,
                                );
                            assert(0 <= j < i + 1 && ext_word_via(
                                g,
                                d,
                                q0,
                                vis0,
                                (x, y),
                                (ns@[j].0, ns@[j].1),
                                w,
                            ));
                        }
                        if !found1.contains(w) && !found@.contains(w) {
                            if exists|j: int|
                                0 <= j < i + 1 && ext_word_via(
                                    g,
                                    d,
                                    q0,
                                    vis0,
                                    (x, y),
                                    (#[trigger] ns@[j].0, ns@[j].1),
                                    w,
                                ) {
                                let j = choose|j: int|
                                    0 <= j < i + 1 && ext_word_via(
                                        g,
                                        d,
                                        q0,
                                        vis0,
                                        (x, y),
                                        (#[trigger] ns@[j].0, ns@[j].1),
                                        w,
                                    );
                                assert(j < i);
                            }
                        }
                    }
                }
            }
            path.pop();
            proof {
                assert(path@ =~= q0);
            }
        } else {
            proof {
                // A visited first step can start no extension.
                assert forall|w: Seq<char>|
                    ext_word_via(g, d, q0, vis0, (x, y), (nx, ny), w) implies false by {
                    let ext = choose|ext: Seq<(usize, usize)>|
                        #![trigger letters_of(g, ext)]
                        {
                            &&& ext_ok(vis0, (x, y), ext)
                            &&& ext.len() > 0
                            &&& ext[0] == (nx, ny)
                            &&& d.dom().contains(q0 + letters_of(g, ext))
                            &&& d[q0 + letters_of(g, ext)] == w
                        };
                    assert(!vis0.contains(ext[0]));
                }
                assert forall|w: Seq<char>| #[trigger] found@.contains(w) <==> (found1.contains(w)
                    || exists|j: int|
                    0 <= j < i + 1 && ext_word_via(
                        g,
                        d,
                        q0,
                        vis0,
                        (x, y),
                        (#[trigger] ns@[j].0, ns@[j].1),
                        w,
                    )) by {
                    if !found1.contains(w) && found@.contains(w) {
                        let j = choose|j: int|
                            0 <= j < i && ext_word_via(
                                g,
                                d,
                                q0,
                                vis0,
                                (x, y),
                                (#[trigger] ns@[j].0, ns@[j].1),
                                w,
                            );
                        assert(0 <= j < i + 1 && ext_word_via(
                            g,
                            d,
                            q0,
                            vis0,
                            (x, y),
                            (ns@[j].0, ns@[j].1),
                            w,
                        ));
                    }
                    if !found1.contains(w) && !found@.contains(w) {
                        if exists|j: int|
                            0 <= j < i + 1 && ext_word_via(
                                g,
                                d,
                                q0,
                                vis0,
                                (x, y),
                                (#[trigger] ns@[j].0, ns@[j].1),
                                w,
                            ) {
                            let j = choose|j: int|
                                0 <= j < i + 1 && ext_word_via(
                                    g,
                                    d,
                                    q0,
                                    vis0,
                                    (x, y),
                                    (#[trigger] ns@[j].0, ns@[j].1),
                                    w,
                                );
                            assert(j < i);
                        }
                    }
                }
            }
        }
        i += 1;
    }
    proof {
        lemma_ext_split(g, d, q0, vis0, (x, y));
        assert forall|w: Seq<char>| #[trigger] found@.contains(w) <==> (found0.contains(w)
            || ext_word(g, d, q0, vis0, (x, y), w)) by {
            if found@.contains(w) && !found1.contains(w) {
                let j = choose|j: int|
                    0 <= j < ns@.len() && ext_word_via(
                        g,
                        d,
                        q0,
                        vis0,
                        (x, y),
                        (#[trigger] ns@[j].0, ns@[j].1),
                        w,
                    );
                let first = (ns@[j].0, ns@[j].1);
                assert(first.0 < WIDTH && first.1 < HEIGHT && adjacent(
                    x as int,
                    y as int,
                    first.0 as int,
                    first.1 as int,
                ));
                assert(!vis0.contains(first)) by {
                    let ext = choose|ext: Seq<(usize, usize)>|
                        #![trigger letters_of(g, ext)]
                        {
                            &&& ext_ok(vis0, (x, y), ext)
                            &&& ext.len() > 0
                            &&& ext[0] == first
                            &&& d.dom().contains(q0 + letters_of(g, ext))
                            &&& d[q0 + letters_of(g, ext)] == w
                        };
                    assert(!vis0.contains(ext[0]));
                }
                assert(ext_word(g, d, q0, vis0, (x, y), w));
            }
            if ext_word(g, d, q0, vis0, (x, y), w) && !found1.contains(w) {
                let first = choose|first: (usize, usize)|
                    {
                        &&& first.0 < WIDTH
                        &&& first.1 < HEIGHT
                        &&& !vis0.contains(first)
                        &&& adjacent(x as int, y as int, first.0 as int, first.1 as int)
                        &&& ext_word_via(g, d, q0, vis0, (x, y), first, w)
                    };
                let j = choose|j: int|
                    0 <= j < ns@.len() && #[trigger] ns@[j] == (
                        first.0,
                        first.1,
                        g[first.1 * WIDTH + first.0],
                    );
                assert(ext_word_via(g, d, q0, vis0, (x, y), (ns@[j].0, ns@[j].1), w));
            }
        }
    }
}

/// The full search over one grid, one traversal per starting cell.
fn search_all(grid: &Grid, dict: &Dict, prune: bool) -> (r: StringHashSet)
    requires
        grid.wf(),
        dict.wf(),
    ensures
        forall|w: Seq<char>| #[trigger] r@.contains(w) <==> found_word(grid@, dict@, w),
{
    let ghost g = grid@;
    let ghost d = dict@;
    let mut found = StringHashSet::new();
    let cells = grid.cells();
    let mut i: usize = 0;
    while i < cells.len()
        invariant
            grid.wf(),
            dict.wf(),
            g == grid@,
            d == dict@,
            i <= cells@.len(),
            cells@.len() == WIDTH * HEIGHT,
            forall|i1: int| 0 <= i1 < cells@.len() ==> #[trigger] cells@[i1] == ((i1 % (
            WIDTH as int)) as usize, (i1 / (WIDTH as int)) as usize, g[i1]),
            forall|w: Seq<char>| #[trigger] found@.contains(w) <==> exists|j: int|
                0 <= j < i && start_word(g, d, (#[trigger] cells@[j].0, cells@[j].1), w),
        decreases cells@.len() - i,
    {
        let ghost found_pre = found@;
        let (x, y, ch) = cells[i];
        proof {
            assert(cells@[i as int] == (x, y, ch));
            vstd::arithmetic::div_mod::lemma_fundamental_div_mod(i as int, WIDTH as int);
            assert(cell_index(x as int, y as int) == i as int);
            assert(ch == g[cell_index(x as int, y as int)]);
        }
        let mut path: Vec<char> = Vec::new();
        path.push(ch);
        if dict.node_exists(&path) {
            let mut visited: Vec<(usize, usize)> = Vec::new();
            visited.push((x, y));
            search_rec(
                grid,
                dict,
                &mut path,
                &mut visited,
                &mut found,
                x,
                y,
                prune,
                WIDTH * HEIGHT,
            );
            proof {
                assert(seq![ch] =~= Seq::<char>::empty().push(ch));
                assert(seq![(x, y)] =~= Seq::<(usize, usize)>::empty().push((x, y)));
                assert(forall|w: Seq<char>| #[trigger] found@.contains(w) <==> (
                found_pre.contains(w) || start_word(g, d, (x, y), w)));
            }
        } else {
            proof {
                // No stored path starts with this cell's letter.
                assert forall|w: Seq<char>| start_word(g, d, (x, y), w) implies false by {
                    assert(ext_word(g, d, seq![ch], seq![(x, y)], (x, y), w));
                    let ext = choose|ext: Seq<(usize, usize)>|
                        #![trigger letters_of(g, ext)]
                        {
                            &&& ext_ok(seq![(x, y)], (x, y), ext)
                            &&& d.dom().contains(seq![ch] + letters_of(g, ext))
                            &&& d[seq![ch] + letters_of(g, ext)] == w
                        };
                    let key = seq![ch] + letters_of(g, ext);
                    assert(path@.is_prefix_of(key)) by {
                        assert(path@ =~= seq![ch]);
                        assert(key.subrange(0, 1) =~= seq![ch]);
                    }
                }
            }
        }
        proof {
            assert forall|w: Seq<char>| #[trigger] found@.contains(w) <==> exists|j: int|
                0 <= j < i + 1 && start_word(g, d, (#[trigger] cells@[j].0, cells@[j].1), w) by {
                if found@.contains(w) {
                    if found_pre.contains(w) {
                        let j = choose|j: int|
                            0 <= j < i && start_word(
                                g,
                                d,
                                (#[trigger] cells@[j].0, cells@[j].1),
                                w,
                            );
                        assert(0 <= j < i + 1 && start_word(g, d, (cells@[j].0, cells@[j].1), w));
                    } else {
                        assert(start_word(g, d, (cells@[i as int].0, cells@[i as int].1), w));
                    }
                } else {
                    if exists|j: int|
                        0 <= j < i + 1 && start_word(
                            g,
                            d,
                            (#[trigger] cells@[j].0, cells@[j].1),
                            w,
                        ) {
                        let j = choose|j: int|
                            0 <= j < i + 1 && start_word(
                                g,
                                d,
                                (#[trigger] cells@[j].0, cells@[j].1),
                                w,
                            );
                        if j == i as int {
                            assert(start_word(g, d, (x, y), w));
                        }
                    }
                }
            }
        }
        i += 1;
    }
    proof {
        lemma_found_split(g, d);
        assert forall|w: Seq<char>| #[trigger] found@.contains(w) <==> found_word(g, d, w) by {
            if found@.contains(w) {
                let j = choose|j: int|
                    0 <= j < cells@.len() && start_word(
                        g,
                        d,
                        (#[trigger] cells@[j].0, cells@[j].1),
                        w,
                    );
                let s = (cells@[j].0, cells@[j].1);
                assert(s.0 < WIDTH && s.1 < HEIGHT && start_word(g, d, s, w)) by {
                    assert(cells@[j] == ((j % (WIDTH as int)) as usize, (j / (
                    WIDTH as int)) as usize, g[j]));
                    vstd::arithmetic::div_mod::lemma_fundamental_div_mod(j, WIDTH as int);
                }
            }
            if found_word(g, d, w) {
                let s = choose|s: (usize, usize)|
                    s.0 < WIDTH && s.1 < HEIGHT && start_word(g, d, s, w);
                let j = cell_index(s.0 as int, s.1 as int);
                assert(0 <= j < cells@.len()) by {
                    assert((s.1 as int) * (WIDTH as int) + (s.0 as int) < 16);
                }
                assert((cells@[j].0, cells@[j].1) == s) by {
                    vstd::arithmetic::div_mod::lemma_fundamental_div_mod_converse(
                        j,
                        WIDTH as int,
                        s.1 as int,
                        s.0 as int,
                    );
                }
            }
        }
    }
    found
}

/// A word reachable by a path starting at the given cell.
pub open spec fn start_word(
    g: Seq<char>,
    d: Map<Seq<char>, Seq<char>>,
    start: (usize, usize),
    w: Seq<char>,
) -> bool {
    ext_word(
        g,
        d,
        seq![g[cell_index(start.0 as int, start.1 as int)]],
        seq![start],
        start,
        w,
    )
}

/// A found word is one reachable from some starting cell.
proof fn lemma_found_split(g: Seq<char>, d: Map<Seq<char>, Seq<char>>)
    ensures
        forall|w: Seq<char>| #[trigger] found_word(g, d, w) <==> exists|s: (usize, usize)|
            s.0 < WIDTH && s.1 < HEIGHT && start_word(g, d, s, w),
{
    assert forall|w: Seq<char>| #[trigger] found_word(g, d, w) implies exists|s: (usize, usize)|
        s.0 < WIDTH && s.1 < HEIGHT && start_word(g, d, s, w) by {
        let cells = choose|cells: Seq<(usize, usize)>|
            #![trigger letters_of(g, cells)]
            {
                &&& path_ok(cells)
                &&& cells.len() > 0
                &&& d.dom().contains(letters_of(g, cells))
                &&& d[letters_of(g, cells)] == w
            };
        let s = cells[0];
        let c = g[cell_index(s.0 as int, s.1 as int)];
        let ext = cells.skip(1);
        assert(forall|i: int| 0 <= i < ext.len() ==> #[trigger] ext[i] == cells[i + 1]);
        assert(ext_ok(seq![s], s, ext)) by {
            assert forall|i: int| 0 <= i < ext.len() implies !seq![s].contains(
                #[trigger] ext[i],
            ) by {
                assert(ext[i] == cells[i + 1] && cells[i + 1] != cells[0]);
            }
        }
        assert(seq![c] + letters_of(g, ext) =~= letters_of(g, cells));
        assert(ext_word(g, d, seq![c], seq![s], s, w));
        assert(s.0 < WIDTH && s.1 < HEIGHT && start_word(g, d, s, w));
    }
    assert forall|w: Seq<char>| (exists|s: (usize, usize)|
        s.0 < WIDTH && s.1 < HEIGHT && start_word(g, d, s, w)) implies #[trigger] found_word(
        g,
        d,
        w,
    ) by {
        let s = choose|s: (usize, usize)| s.0 < WIDTH && s.1 < HEIGHT && start_word(g, d, s, w);
        let c = g[cell_index(s.0 as int, s.1 as int)];
        let ext = choose|ext: Seq<(usize, usize)>|
            #![trigger letters_of(g, ext)]
            {
                &&& ext_ok(seq![s], s, ext)
                &&& d.dom().contains(seq![c] + letters_of(g, ext))
                &&& d[seq![c] + letters_of(g, ext)] == w
            };
        let cells = seq![s] + ext;
        assert(forall|i: int| 0 <= i < ext.len() ==> #[trigger] cells[i + 1] == ext[i]);
        assert(cells[0] == s);
        assert(path_ok(cells)) by {
            assert forall|i: int, j: int| 0 <= i < j < cells.len() implies cells[i]
                != cells[j] by {
                if i == 0 {
                    assert(!seq![s].contains(ext[j - 1]));
                    assert(seq![s][0] == s);
                } else {
                    assert(cells[i] == ext[i - 1] && cells[j] == ext[j - 1]);
                }
            }
        }
        assert(letters_of(g, cells) =~= seq![c] + letters_of(g, ext));
        assert(d.dom().contains(letters_of(g, cells)) && d[letters_of(g, cells)] == w);
    }
}

impl Grid {
    /// Every dictionary word the grid spells along a path of adjacent,
    /// pairwise-distinct cells: a word is in the result exactly when such
    /// a path spells its stored tree path.
    pub fn words(&self, dict: &Dict) -> (r: StringHashSet)
        requires
            self.wf(),
            dict.wf(),
        ensures
            forall|w: Seq<char>| #[trigger] r@.contains(w) <==> found_word(self@, dict@, w),
    {
        search_all(self, dict, true)
    }

    /// The same search without the stop at childless tree nodes: the
    /// pruning is an optimization, with the same contract and the same
    /// result set.
    pub fn words_unpruned(&self, dict: &Dict) -> (r: StringHashSet)
        requires
            self.wf(),
            dict.wf(),
        ensures
            forall|w: Seq<char>| #[trigger] r@.contains(w) <==> found_word(self@, dict@, w),
    {
        search_all(self, dict, false)
    }
}

} // verus!
