//! In which order the imports of files are met.
use crate::entry::EntryView;
use crate::order::{
    countable, dependencies_of, files, in_range, lemma_all_files, lemma_walk, lemma_walk_imports,
    lemma_walk_imports_range, lemma_walk_range, met, walk, walk_imports, Edge,
};
use vstd::prelude::*;
use vstd::set_lib::lemma_len_subset;

verus! {

/// Whether the imports of each file are met in the order in which they stand there.
pub open spec fn in_their_order(edges: Seq<Edge>) -> bool {
    forall|x: int, y: int|
        0 <= x < y < edges.len() && #[trigger] edges[x].from == #[trigger] edges[y].from
            ==> edges[x].place < edges[y].place
}

/// Whether the imports of two files are never met by turns: those of one of them come all between
/// two of the other, or before or behind all of them.
pub open spec fn not_by_turns(edges: Seq<Edge>) -> bool {
    forall|w: int, x: int, y: int, z: int|
        0 <= w < x < y < z < edges.len() && #[trigger] edges[w].from == #[trigger] edges[y].from
            && #[trigger] edges[x].from == #[trigger] edges[z].from ==> edges[w].from
            == edges[x].from
}

/// Whether an import of a file that is met for the first time, but for the files in `known`, is
/// followed by the imports of its file.
pub open spec fn followed(deps: Seq<Seq<u32>>, edges: Seq<Edge>, known: Set<u32>) -> bool {
    forall|q: int|
        0 <= q < edges.len() && #[trigger] first_time(edges, q) && !known.contains(edges[q].to)
            && deps[edges[q].to as int].len() > 0 ==> q + 1 < edges.len() && edges[q + 1].from
            == edges[q].to
}

/// Whether no earlier import leads to the file of the import at place `q`.
pub open spec fn first_time(edges: Seq<Edge>, q: int) -> bool {
    forall|e: int| 0 <= e < q ==> (#[trigger] edges[e]).to != edges[q].to
}

/// Whether of the imports of file `i` none stand between those of another.
pub open spec fn around(edges: Seq<Edge>, i: u32) -> bool {
    forall|w: int, x: int, y: int|
        0 <= w < x < y < edges.len() && #[trigger] edges[w].from == #[trigger] edges[y].from
            && #[trigger] edges[x].from == i ==> edges[w].from == i
}

/// Whether an import leads to each file of a set.
pub open spec fn all_met(edges: Seq<Edge>, set: Set<u32>) -> bool {
    forall|j: u32| #[trigger] set.contains(j) ==> leads_to(edges, j)
}

/// Whether an import leads to file `j`.
pub open spec fn leads_to(edges: Seq<Edge>, j: u32) -> bool {
    exists|q: int| 0 <= q < edges.len() && (#[trigger] edges[q]).to == j
}

/// What holds of the walk from file `i`.
proof fn lemma_walk_order(deps: Seq<Seq<u32>>, i: u32, visited: Set<u32>, depth: nat)
    requires
        in_range(deps),
        countable(deps),
        i < deps.len(),
        visited.subset_of(files(deps.len())),
        depth + visited.len() >= deps.len(),
    ensures
        ({
            let (edges, after) = walk(deps, i, visited, depth);
            &&& in_their_order(edges)
            &&& not_by_turns(edges)
            &&& followed(deps, edges, visited.insert(i))
            &&& all_met(edges, after.difference(visited.insert(i)))
            &&& !visited.contains(i) && deps[i as int].len() > 0 ==> edges.len() > 0
                && edges[0].from == i
        }),
    decreases depth, 0nat,
{
    lemma_all_files(deps.len(), visited);
    if !visited.contains(i) {
        assert(depth > 0) by {
            if depth == 0 {
                assert(files(deps.len()).contains(i));
            }
        }
        let n = deps[i as int].len();
        let marked = visited.insert(i);
        lemma_walk_imports_order(deps, i, n, marked, (depth - 1) as nat);
    } else {
        assert(visited.insert(i) =~= visited);
    }
}

/// Two parts of a walk one after the other, where those of the second part are imports of files
/// that the first part has not come to.
proof fn lemma_parts_in_order(
    first: Seq<Edge>,
    edge: Edge,
    more: Seq<Edge>,
    before: Set<u32>,
    i: u32,
    p: nat,
)
    requires
        in_their_order(first),
        not_by_turns(first),
        around(first, i),
        in_their_order(more),
        not_by_turns(more),
        edge.from == i,
        edge.place == p,
        before.contains(i),
        forall|q: int|
            0 <= q < first.len() ==> ((#[trigger] first[q]).from == i ==> first[q].place < p)
                && before.contains(first[q].from),
        forall|q: int| 0 <= q < more.len() ==> !before.contains((#[trigger] more[q]).from),
    ensures
        in_their_order(first.push(edge) + more),
        not_by_turns(first.push(edge) + more),
        around(first.push(edge) + more, i),
{
    let edges = first.push(edge) + more;
    let k = first.len() as int;
    assert(edges[k] == edge);
    assert forall|q: int| 0 <= q < k implies #[trigger] edges[q] == first[q] && (edges[q].from == i
        ==> edges[q].place < p) && before.contains(edges[q].from) by {}
    assert forall|q: int| k < q < edges.len() implies #[trigger] edges[q] == more[q - k - 1]
        && !before.contains(edges[q].from) by {}
    assert(in_their_order(edges)) by {
        assert forall|x: int, y: int|
            0 <= x < y < edges.len() && #[trigger] edges[x].from
                == #[trigger] edges[y].from implies edges[x].place < edges[y].place by {
            if y < k {
                assert(first[x].from == first[y].from);
            } else if y > k {
                if x > k {
                    assert(more[x - k - 1].from == more[y - k - 1].from);
                } else {
                    assert(before.contains(edges[x].from));
                }
            }
        }
    }
    assert(around(edges, i)) by {
        assert forall|w: int, x: int, y: int|
            0 <= w < x < y < edges.len() && #[trigger] edges[w].from == #[trigger] edges[y].from
                && #[trigger] edges[x].from == i implies edges[w].from == i by {
            if y < k {
                assert(first[w].from == first[y].from && first[x].from == i);
            } else if y > k {
                assert(!before.contains(edges[y].from));
                if w <= k {
                    assert(before.contains(edges[w].from));
                }
            }
        }
    }
    assert(not_by_turns(edges)) by {
        assert forall|w: int, x: int, y: int, z: int|
            0 <= w < x < y < z < edges.len() && #[trigger] edges[w].from
                == #[trigger] edges[y].from && #[trigger] edges[x].from
                == #[trigger] edges[z].from implies edges[w].from == edges[x].from by {
            if z < k {
                assert(first[w].from == first[y].from && first[x].from == first[z].from);
            } else if z == k {
                assert(first[w].from == first[y].from && first[x].from == i);
            } else {
                if x <= k {
                    assert(before.contains(edges[x].from));
                }
                if w <= k {
                    assert(before.contains(edges[w].from));
                }
                assert(more[w - k - 1].from == more[y - k - 1].from && more[x - k - 1].from
                    == more[z - k - 1].from);
            }
        }
    }
}

/// In two such parts imports that lead to a file for the first time are followed.
proof fn lemma_parts_followed(
    deps: Seq<Seq<u32>>,
    first: Seq<Edge>,
    edge: Edge,
    more: Seq<Edge>,
    visited: Set<u32>,
    before: Set<u32>,
)
    requires
        followed(deps, first, visited),
        followed(deps, more, before.insert(edge.to)),
        all_met(first, before.difference(visited)),
        !before.contains(edge.to) && deps[edge.to as int].len() > 0 ==> more.len() > 0
            && more[0].from == edge.to,
    ensures
        followed(deps, first.push(edge) + more, visited),
{
    let edges = first.push(edge) + more;
    let to = edge.to;
    let k = first.len() as int;
    assert(edges[k] == edge);
    assert(forall|q: int| 0 <= q < k ==> #[trigger] edges[q] == first[q]);
    assert(forall|q: int| k < q < edges.len() ==> #[trigger] edges[q] == more[q - k - 1]);
    assert(followed(deps, edges, visited)) by {
        assert forall|q: int|
            0 <= q < edges.len() && #[trigger] first_time(edges, q) && !visited.contains(
                edges[q].to,
            ) && deps[edges[q].to as int].len() > 0 implies q + 1 < edges.len() && edges[q
            + 1].from == edges[q].to by {
            let t = edges[q].to;
            if q < k {
                assert(first_time(first, q)) by {
                    assert forall|e: int| 0 <= e < q implies (#[trigger] first[e]).to
                        != first[q].to by {
                        assert(edges[e].to != t);
                    }
                }
                assert(edges[q + 1] == first[q + 1]);
            } else {
                assert(!before.contains(t)) by {
                    if before.contains(t) {
                        assert(before.difference(visited).contains(t));
                        assert(leads_to(first, t));
                        let e = choose|e: int|
                            0 <= e < first.len() && (#[trigger] first[e]).to == t;
                        assert(edges[e].to == t);
                    }
                }
                if q == k {
                    assert(edges[k + 1] == more[0]);
                } else {
                    assert(t != to) by {
                        assert(edges[k].to != t);
                    }
                    assert(first_time(more, q - k - 1)) by {
                        assert forall|e: int| 0 <= e < q - k - 1 implies (#[trigger] more[e]).to
                            != more[q - k - 1].to by {
                            assert(edges[e + k + 1].to != t);
                        }
                    }
                    assert(edges[q + 1] == more[q - k]);
                }
            }
        }
    }
}

/// The same of the first imports of a file.
proof fn lemma_walk_imports_order(
    deps: Seq<Seq<u32>>,
    i: u32,
    n: nat,
    visited: Set<u32>,
    depth: nat,
)
    requires
        in_range(deps),
        countable(deps),
        i < deps.len(),
        n <= deps[i as int].len(),
        visited.contains(i),
        visited.subset_of(files(deps.len())),
        depth + visited.len() >= deps.len(),
    ensures
        ({
            let (edges, after) = walk_imports(deps, i, n, visited, depth);
            &&& in_their_order(edges)
            &&& not_by_turns(edges)
            &&& around(edges, i)
            &&& followed(deps, edges, visited)
            &&& all_met(edges, after.difference(visited))
            &&& n > 0 ==> edges.len() > 0 && edges[0].from == i
        }),
    decreases depth, n,
{
    if n > 0 {
        let p = (n - 1) as nat;
        let (first, before) = walk_imports(deps, i, p, visited, depth);
        lemma_walk_imports_order(deps, i, p, visited, depth);
        lemma_walk_imports(deps, i, p, visited, depth);
        lemma_walk_imports_range(deps, i, p, visited, depth);
        lemma_all_files(deps.len(), before);
        lemma_len_subset(visited, before);
        let to = deps[i as int][p as int];
        lemma_walk(deps, to, before, depth);
        lemma_walk_range(deps, to, before, depth);
        lemma_walk_order(deps, to, before, depth);
        let (more, after) = walk(deps, to, before, depth);
        let edge = Edge { from: i, place: p as usize, to };
        let edges = first.push(edge) + more;
        let k = first.len() as int;
        assert(deps[i as int].len() <= usize::MAX);
        assert(edges[k] == edge);
        assert(before.contains(i));
        assert forall|q: int| 0 <= q < first.len() implies ((#[trigger] first[q]).from == i
            ==> first[q].place < p) && before.contains(first[q].from) by {
            assert(first.contains(first[q]));
        }
        assert forall|q: int| 0 <= q < more.len() implies !before.contains(
            (#[trigger] more[q]).from,
        ) by {
            assert(more.contains(more[q]));
        }
        lemma_parts_in_order(first, edge, more, before, i, p);
        assert(all_met(edges, after.difference(visited))) by {
            assert forall|j: u32| #[trigger] after.difference(visited).contains(j) implies leads_to(
                edges,
                j,
            ) by {
                if before.contains(j) {
                    assert(before.difference(visited).contains(j));
                    assert(leads_to(first, j));
                    let q = choose|q: int| 0 <= q < first.len() && (#[trigger] first[q]).to == j;
                    assert(edges[q].to == j);
                } else if j == to {
                    assert(edges[k].to == j);
                } else {
                    assert(after.difference(before.insert(to)).contains(j));
                    assert(leads_to(more, j));
                    let q = choose|q: int| 0 <= q < more.len() && (#[trigger] more[q]).to == j;
                    assert(edges[k + 1 + q].to == j);
                }
            }
        }
        lemma_parts_followed(deps, first, edge, more, visited, before);
        if p > 0 {
            assert(edges[0] == first[0]);
        } else {
            assert(first.len() == 0);
        }
    }
}

/// The walk starts with the first import of the first file. It goes through the imports of each
/// file in the order in which they stand there, follows each import that leads to a file for the
/// first time to the imports of that file, and goes through all of these, and what they lead to,
/// before it goes on with the file that it came from.
pub proof fn law_walk_order(entries: Seq<EntryView>)
    requires
        entries.len() > 0,
        in_range(dependencies_of(entries)),
        countable(dependencies_of(entries)),
    ensures
        ({
            let edges = met(entries);
            let deps = dependencies_of(entries);
            &&& in_their_order(edges)
            &&& not_by_turns(edges)
            &&& followed(deps, edges, set![0u32])
            &&& deps[0].len() > 0 ==> edges.len() > 0 && edges[0].from == 0
        }),
{
    let deps = dependencies_of(entries);
    lemma_walk_order(deps, 0, Set::empty(), entries.len());
}

} // verus!
