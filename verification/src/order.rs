//! Which import of a file counts.
use crate::bundle_state::entry_views;
use crate::entry::{BundleStyleSheet, EntryView};
use crate::inline::{ready, rules_of};
use crate::load::imports_of;
use crate::reach::{
    is_path, lemma_closed_reaches, lemma_front, lemma_reaches_import, lemma_reaches_itself,
    lemma_reaches_on, lemma_stretch, reachable,
};
use crate::settle::{
    lemma_first_movable, lemma_settled, lemma_settled_files, movable, settle, settled,
};
use crate::tree::{child, children, children_among, lemma_children, under};
use std::collections::HashSet;
use vstd::prelude::*;
use vstd::set_lib::{lemma_len_subset, lemma_subset_equality};
use vstd::std_specs::hash::group_hash_axioms;

verus! {

broadcast use group_hash_axioms;

/// An import: the file that it stands in, its place among the imports of that file, and the file
/// that it leads to.
#[derive(Debug, Clone, Copy, PartialEq, Eq, Structural)]
pub struct Edge {
    pub from: u32,
    pub place: usize,
    pub to: u32,
}

/// The files that each file imports.
pub open spec fn dependencies_of(entries: Seq<EntryView>) -> Seq<Seq<u32>> {
    entries.map_values(|e: EntryView| e.dependencies)
}

/// Whether each import leads to a file.
pub open spec fn in_range(deps: Seq<Seq<u32>>) -> bool {
    &&& deps.len() <= u32::MAX + 1
    &&& forall|i: int, d: int|
        0 <= i < deps.len() && 0 <= d < deps[i].len() ==> #[trigger] deps[i][d] < deps.len()
}

/// The imports that are met, one after the other, on a walk that goes through the imports of file
/// `i` in their order and follows each to its file before it goes on; a file that the walk comes to
/// again is not walked through again. The second result is the set of the files walked through,
/// the first ones being those in `visited`. The walk goes no deeper than `depth` files.
pub open spec fn walk(deps: Seq<Seq<u32>>, i: u32, visited: Set<u32>, depth: nat) -> (
    Seq<Edge>,
    Set<u32>,
)
    decreases depth, 0nat,
{
    if depth == 0 || visited.contains(i) {
        (Seq::empty(), visited)
    } else {
        walk_imports(
            deps,
            i,
            deps[i as int].len(),
            visited.insert(i),
            (depth - 1) as nat,
        )
    }
}

/// The part of a walk that goes through the first `n` imports of file `i`.
pub open spec fn walk_imports(
    deps: Seq<Seq<u32>>,
    i: u32,
    n: nat,
    visited: Set<u32>,
    depth: nat,
) -> (Seq<Edge>, Set<u32>)
    decreases depth, n,
{
    if n == 0 {
        (Seq::empty(), visited)
    } else {
        let (edges, before) = walk_imports(deps, i, (n - 1) as nat, visited, depth);
        let to = deps[i as int][n - 1];
        let (more, after) = walk(deps, to, before, depth);
        (edges.push(Edge { from: i, place: (n - 1) as usize, to }) + more, after)
    }
}

/// The last import of file `j` among those that are met.
pub open spec fn last_edge(edges: Seq<Edge>, j: u32) -> Option<Edge>
    decreases edges.len(),
{
    if edges.len() == 0 {
        None
    } else if edges.last().to == j {
        Some(edges.last())
    } else {
        last_edge(edges.drop_last(), j)
    }
}

/// The first import of file `j` among those that are met.
pub open spec fn first_edge(edges: Seq<Edge>, j: u32) -> Option<Edge>
    decreases edges.len(),
{
    if edges.len() == 0 {
        None
    } else {
        match first_edge(edges.drop_last(), j) {
            Some(edge) => Some(edge),
            None => if edges.last().to == j {
                Some(edges.last())
            } else {
                None
            },
        }
    }
}

/// A file, where the import `edge` is the one that counts.
pub open spec fn imported_by(e: EntryView, edge: Option<Edge>) -> EntryView {
    match edge {
        Some(edge) => EntryView {
            parent_source_index: edge.from,
            parent_dep_index: edge.place,
            ..e
        },
        None => e,
    }
}

/// The files, where of the imports that are met the last one of each file counts.
pub open spec fn with_edges(entries: Seq<EntryView>, edges: Seq<Edge>) -> Seq<EntryView> {
    Seq::new(
        entries.len(),
        |j: int| imported_by(entries[j], last_edge(edges, j as u32)),
    )
}

/// The imports that are met on the walk from the first file.
pub open spec fn met(entries: Seq<EntryView>) -> Seq<Edge> {
    walk(dependencies_of(entries), 0, Set::empty(), entries.len()).0
}

/// The files, where the last import of each file that is met on the walk from the first file
/// counts.
pub open spec fn last_met(entries: Seq<EntryView>) -> Seq<EntryView> {
    with_edges(entries, met(entries))
}

/// The files, where the last import of each file that is met counts, as far as the last imports
/// lead from the first file to it. They may not, where files import each other. Of the others the
/// first import counts, by which the walk came to the file.
pub open spec fn first_or_last(entries: Seq<EntryView>) -> Seq<EntryView> {
    let last = last_met(entries);
    Seq::new(
        entries.len(),
        |j: int|
            if j == 0 || under(last, 0, j as u32) {
                last[j]
            } else {
                imported_by(entries[j], first_edge(met(entries), j as u32))
            },
    )
}

/// The files, where of the imports of each file that are met on the walk from the first file one
/// counts. It is the last one, unless that would cut the file off from the first one: where files
/// import each other, the last import of a file may stand in a file that is itself imported from
/// there. Then it is the first one.
pub open spec fn ordered(entries: Seq<EntryView>) -> Seq<EntryView> {
    settled(first_or_last(entries), last_met(entries))
}

/// The indexes of the first `n` files.
pub open spec fn files(n: nat) -> Set<u32> {
    Set::new(|j: u32| j < n)
}

/// There are as many indexes as files.
proof fn lemma_files(n: nat)
    requires
        n <= u32::MAX + 1,
    ensures
        files(n).finite(),
        files(n).len() == n,
    decreases n,
{
    if n == 0 {
        assert(files(n) =~= Set::empty());
    } else {
        lemma_files((n - 1) as nat);
        assert(files(n) =~= files((n - 1) as nat).insert((n - 1) as u32));
    }
}

/// A set of as many files as there are holds them all.
pub proof fn lemma_all_files(n: nat, visited: Set<u32>)
    requires
        n <= u32::MAX + 1,
        visited.subset_of(files(n)),
    ensures
        visited.finite(),
        visited.len() <= n,
        visited.len() == n ==> visited == files(n),
{
    lemma_files(n);
    lemma_len_subset(visited, files(n));
    if visited.len() == n {
        lemma_subset_equality(visited, files(n));
    }
}

/// A walk goes through files only, and goes on from those that were walked through before.
pub proof fn lemma_walk_range(deps: Seq<Seq<u32>>, i: u32, visited: Set<u32>, depth: nat)
    requires
        in_range(deps),
        i < deps.len(),
        visited.subset_of(files(deps.len())),
    ensures
        visited.subset_of(walk(deps, i, visited, depth).1),
        walk(deps, i, visited, depth).1.subset_of(files(deps.len())),
    decreases depth, 0nat,
{
    if depth > 0 && !visited.contains(i) {
        lemma_walk_imports_range(
            deps,
            i,
            deps[i as int].len(),
            visited.insert(i),
            (depth - 1) as nat,
        );
    }
}

/// The same of a part of a walk.
pub proof fn lemma_walk_imports_range(
    deps: Seq<Seq<u32>>,
    i: u32,
    n: nat,
    visited: Set<u32>,
    depth: nat,
)
    requires
        in_range(deps),
        i < deps.len(),
        n <= deps[i as int].len(),
        visited.subset_of(files(deps.len())),
    ensures
        visited.subset_of(walk_imports(deps, i, n, visited, depth).1),
        walk_imports(deps, i, n, visited, depth).1.subset_of(files(deps.len())),
    decreases depth, n,
{
    if n > 0 {
        lemma_walk_imports_range(deps, i, (n - 1) as nat, visited, depth);
        let before = walk_imports(deps, i, (n - 1) as nat, visited, depth).1;
        lemma_walk_range(deps, deps[i as int][n - 1], before, depth);
    }
}

/// Whether `edges` are the imports of the files in `walked`, and the first `n` imports of file `i`.
pub open spec fn are_imports(
    deps: Seq<Seq<u32>>,
    edges: Seq<Edge>,
    walked: Set<u32>,
    i: u32,
    n: nat,
) -> bool {
    forall|e: Edge| #[trigger]
        edges.contains(e) <==> {
            &&& e.from < deps.len()
            &&& e.place < deps[e.from as int].len()
            &&& e.to == deps[e.from as int][e.place as int]
            &&& walked.contains(e.from) || (e.from == i && e.place < n)
        }
}

/// Whether all that the files in `walked` import is in `after`.
pub open spec fn stays_in(deps: Seq<Seq<u32>>, walked: Set<u32>, after: Set<u32>) -> bool {
    forall|k: u32, d: u32|
        k < deps.len() && walked.contains(k) && #[trigger] deps[k as int].contains(d)
            ==> after.contains(d)
}

/// Whether imports lead from file `i` to all files in `walked`.
pub open spec fn leads_to_all(deps: Seq<Seq<u32>>, i: u32, walked: Set<u32>) -> bool {
    forall|j: u32| #[trigger] walked.contains(j) ==> reachable(deps, i, j)
}

/// Whether the number of imports of each file fits.
pub open spec fn countable(deps: Seq<Seq<u32>>) -> bool {
    forall|i: int| 0 <= i < deps.len() ==> #[trigger] deps[i].len() <= usize::MAX
}

/// A walk that may go deep enough goes through the files that imports lead to, and meets each of
/// their imports once.
pub proof fn lemma_walk(deps: Seq<Seq<u32>>, i: u32, visited: Set<u32>, depth: nat)
    requires
        in_range(deps),
        countable(deps),
        i < deps.len(),
        visited.subset_of(files(deps.len())),
        depth + visited.len() >= deps.len(),
    ensures
        ({
            let (edges, after) = walk(deps, i, visited, depth);
            let walked = after.difference(visited);
            &&& after.contains(i)
            &&& are_imports(deps, edges, walked, i, 0)
            &&& edges.no_duplicates()
            &&& stays_in(deps, walked, after)
            &&& leads_to_all(deps, i, walked)
        }),
    decreases depth, 0nat,
{
    let (edges, after) = walk(deps, i, visited, depth);
    let walked = after.difference(visited);
    lemma_all_files(deps.len(), visited);
    if !visited.contains(i) {
        let n = deps[i as int].len();
        let marked = visited.insert(i);
        lemma_walk_imports(deps, i, n, marked, (depth - 1) as nat);
        lemma_walk_imports_range(deps, i, n, marked, (depth - 1) as nat);
        lemma_reaches_itself(deps, i);
        let inner = after.difference(marked);
        assert(forall|j: u32| walked.contains(j) <==> inner.contains(j) || j == i);
        assert(stays_in(deps, walked, after)) by {
            assert forall|k: u32, d: u32|
                k < deps.len() && walked.contains(k) && #[trigger] deps[k as int].contains(
                    d,
                ) implies after.contains(d) by {
                if k == i {
                    let p = choose|p: int| 0 <= p < n && deps[i as int][p] == d;
                    assert(deps[i as int].take(n as int)[p] == d);
                }
            }
        }
    }
}

/// The same of a part of a walk.
pub proof fn lemma_walk_imports(
    deps: Seq<Seq<u32>>,
    i: u32,
    n: nat,
    visited: Set<u32>,
    depth: nat,
)
    requires
        in_range(deps),
        countable(deps),
        i < deps.len(),
        n <= deps[i as int].len(),
        visited.contains(i),
        visited.subset_of(files(deps.len())),
        depth + visited.len() >= deps.len(),
    ensures
        ({
            let (edges, after) = walk_imports(deps, i, n, visited, depth);
            let walked = after.difference(visited);
            &&& forall|d: int| 0 <= d < n ==> after.contains(#[trigger] deps[i as int][d])
            &&& are_imports(deps, edges, walked, i, n)
            &&& edges.no_duplicates()
            &&& stays_in(deps, walked, after)
            &&& leads_to_all(deps, i, walked)
        }),
    decreases depth, n,
{
    if n > 0 {
        let p = (n - 1) as nat;
        let (first, before) = walk_imports(deps, i, p, visited, depth);
        lemma_walk_imports(deps, i, p, visited, depth);
        lemma_walk_imports_range(deps, i, p, visited, depth);
        lemma_all_files(deps.len(), before);
        lemma_len_subset(visited, before);
        let to = deps[i as int][p as int];
        lemma_walk(deps, to, before, depth);
        lemma_walk_range(deps, to, before, depth);
        let (more, after) = walk(deps, to, before, depth);
        let edge = Edge { from: i, place: p as usize, to };
        let edges = first.push(edge) + more;
        let walked = after.difference(visited);
        let earlier = before.difference(visited);
        let later = after.difference(before);
        assert(forall|j: u32| walked.contains(j) <==> earlier.contains(j) || later.contains(j));
        assert(deps[i as int].len() <= usize::MAX);
        assert(are_imports(deps, edges, walked, i, n)) by {
            assert forall|e: Edge| #[trigger]
                edges.contains(e) <==> first.contains(e) || e == edge || more.contains(e) by {
                if edges.contains(e) {
                    let q = choose|q: int| 0 <= q < edges.len() && edges[q] == e;
                    if q < first.len() {
                        assert(first[q] == e);
                    } else if q > first.len() {
                        assert(more[q - first.len() - 1] == e);
                    }
                }
                if first.contains(e) {
                    let q = choose|q: int| 0 <= q < first.len() && first[q] == e;
                    assert(edges[q] == e);
                }
                if more.contains(e) {
                    let q = choose|q: int| 0 <= q < more.len() && more[q] == e;
                    assert(edges[first.len() + 1 + q] == e);
                }
                assert(edges[first.len() as int] == edge);
            }
        }
        assert(edges.no_duplicates()) by {
            assert forall|a: int, b: int|
                0 <= a < b < edges.len() implies edges[a] != edges[b] by {
                if b < first.len() {
                    assert(first[a] != first[b]);
                } else if b == first.len() {
                    assert(first.contains(first[a]));
                } else {
                    let q = b - first.len() - 1;
                    assert(more.contains(more[q]));
                    if a < first.len() {
                        assert(first.contains(first[a]));
                    } else if a > first.len() {
                        assert(more[a - first.len() - 1] != more[q]);
                    }
                }
            }
        }
        assert(leads_to_all(deps, i, walked)) by {
            assert(deps[i as int].contains(to));
            lemma_reaches_import(deps, i, to);
            assert forall|j: u32| #[trigger] walked.contains(j) implies reachable(deps, i, j) by {
                if !earlier.contains(j) {
                    assert(later.contains(j));
                    lemma_reaches_on(deps, i, to, j);
                }
            }
        }
    }
}

/// The walk from the first file goes through exactly the files that imports lead to from there,
/// and meets each of their imports exactly once.
pub proof fn law_walk_meets_all_imports(entries: Seq<EntryView>)
    requires
        entries.len() > 0,
        in_range(dependencies_of(entries)),
        countable(dependencies_of(entries)),
    ensures
        met(entries).no_duplicates(),
        forall|e: Edge| #[trigger]
            met(entries).contains(e) <==> {
                &&& e.from < entries.len()
                &&& reachable(dependencies_of(entries), 0, e.from)
                &&& e.place < entries[e.from as int].dependencies.len()
                &&& e.to == entries[e.from as int].dependencies[e.place as int]
            },
{
    let deps = dependencies_of(entries);
    let none = Set::<u32>::empty();
    lemma_walk(deps, 0, none, entries.len());
    lemma_walk_range(deps, 0, none, entries.len());
    let (edges, after) = walk(deps, 0, none, entries.len());
    assert(after.difference(none) =~= after);
    assert forall|j: u32| reachable(deps, 0, j) implies after.contains(j) by {
        lemma_closed_reaches(deps, after, 0, j);
    }
}

/// What [`first_edge`] finds.
pub proof fn lemma_first(edges: Seq<Edge>, j: u32)
    ensures
        match first_edge(edges, j) {
            Some(e) => exists|q: int|
                0 <= q < edges.len() && #[trigger] edges[q] == e && e.to == j && (forall|
                    earlier: int,
                |
                    0 <= earlier < q ==> #[trigger] edges[earlier].to != j),
            None => forall|q: int| 0 <= q < edges.len() ==> #[trigger] edges[q].to != j,
        },
    decreases edges.len(),
{
    if edges.len() > 0 {
        let rest = edges.drop_last();
        lemma_first(rest, j);
        match first_edge(rest, j) {
            Some(e) => {
                let q = choose|q: int|
                    0 <= q < rest.len() && #[trigger] rest[q] == e && e.to == j && (forall|
                        earlier: int,
                    |
                        0 <= earlier < q ==> #[trigger] rest[earlier].to != j);
                assert(edges[q] == e);
                assert forall|earlier: int| 0 <= earlier < q implies #[trigger] edges[earlier].to
                    != j by {
                    assert(rest[earlier].to != j);
                }
            },
            None => {
                assert forall|q: int| 0 <= q < rest.len() implies #[trigger] edges[q].to != j by {
                    assert(rest[q].to != j);
                }
                assert(edges[edges.len() - 1] == edges.last());
            },
        }
    }
}

/// The walk meets the imports of a file other than the one that it starts from only after it has
/// met an import of that file.
proof fn lemma_met_in_order(deps: Seq<Seq<u32>>, i: u32, visited: Set<u32>, depth: nat)
    ensures
        ({
            let edges = walk(deps, i, visited, depth).0;
            forall|q: int|
                0 <= q < edges.len() && (#[trigger] edges[q]).from != i ==> comes_before(edges, q)
        }),
    decreases depth, 0nat,
{
    if depth > 0 && !visited.contains(i) {
        let n = deps[i as int].len();
        let marked = visited.insert(i);
        let inner = (depth - 1) as nat;
        lemma_met_imports_in_order(deps, i, n, marked, inner);
        assert(walk(deps, i, visited, depth) == walk_imports(deps, i, n, marked, inner));
    } else {
        assert(walk(deps, i, visited, depth).0.len() == 0);
    }
}

/// Whether the file that import `q` stands in is imported by an import before it.
pub open spec fn comes_before(edges: Seq<Edge>, q: int) -> bool {
    exists|earlier: int| 0 <= earlier < q && (#[trigger] edges[earlier]).to == edges[q].from
}

/// The same of a part of a walk.
proof fn lemma_met_imports_in_order(
    deps: Seq<Seq<u32>>,
    i: u32,
    n: nat,
    visited: Set<u32>,
    depth: nat,
)
    ensures
        ({
            let edges = walk_imports(deps, i, n, visited, depth).0;
            forall|q: int|
                0 <= q < edges.len() && (#[trigger] edges[q]).from != i ==> comes_before(edges, q)
        }),
    decreases depth, n,
{
    if n > 0 {
        let p = (n - 1) as nat;
        let (first, before) = walk_imports(deps, i, p, visited, depth);
        let to = deps[i as int][p as int];
        let more = walk(deps, to, before, depth).0;
        let edges = walk_imports(deps, i, n, visited, depth).0;
        let edge = Edge { from: i, place: p as usize, to };
        lemma_met_imports_in_order(deps, i, p, visited, depth);
        lemma_met_in_order(deps, to, before, depth);
        assert(edges == first.push(edge) + more);
        assert forall|q: int| 0 <= q < edges.len() && (#[trigger] edges[q]).from != i implies
            comes_before(edges, q) by {
            if q < first.len() {
                assert(edges[q] == first[q]);
                assert(comes_before(first, q));
                let earlier = choose|earlier: int|
                    0 <= earlier < q && (#[trigger] first[earlier]).to == first[q].from;
                assert(edges[earlier] == first[earlier]);
            } else if q > first.len() {
                let k = q - first.len() - 1;
                assert(edges[q] == more[k]);
                if more[k].from == to {
                    assert(edges[first.len() as int] == edge);
                } else {
                    assert(comes_before(more, k));
                    let earlier = choose|earlier: int|
                        0 <= earlier < k && (#[trigger] more[earlier]).to == more[k].from;
                    assert(edges[first.len() + 1 + earlier] == more[earlier]);
                }
            }
        }
    }
}

/// Where the last imports lead to, the first and last ones lead to.
proof fn lemma_still_under(entries: Seq<EntryView>, j: u32)
    requires
        entries.len() <= u32::MAX + 1,
        under(last_met(entries), 0, j),
    ensures
        under(first_or_last(entries), 0, j),
{
    let last = last_met(entries);
    let g = first_or_last(entries);
    let path = choose|path: Seq<u32>| #[trigger]
        is_path(children(last), path) && path.first() == 0 && path.last() == j;
    assert forall|k: int| 0 < k < path.len() implies children(g)[path[k - 1] as int].contains(
        #[trigger] path[k],
    ) by {
        lemma_stretch(children(last), path, 0, k + 1);
        assert(under(last, 0, path[k]));
        assert(path[k - 1] < last.len());
        assert(children(last)[path[k - 1] as int].contains(path[k]));
        lemma_children(last, path[k - 1], path[k]);
        lemma_children(g, path[k - 1], path[k]);
        assert(g[path[k] as int] == last[path[k] as int]);
        assert(g[path[k - 1] as int].dependencies == last[path[k - 1] as int].dependencies);
        assert(child(g, path[k - 1], path[k]));
    }
    assert(is_path(children(g), path));
}

/// The first and last imports lead from the first file to each file of which an import is met.
proof fn lemma_met_under(entries: Seq<EntryView>, q: int)
    requires
        entries.len() > 0,
        in_range(dependencies_of(entries)),
        countable(dependencies_of(entries)),
        0 <= q < met(entries).len(),
    ensures
        under(first_or_last(entries), 0, met(entries)[q].to),
    decreases q,
{
    let g = first_or_last(entries);
    let deps = dependencies_of(entries);
    let edges = met(entries);
    let j = edges[q].to;
    if j == 0 {
        lemma_reaches_itself(children(g), 0);
    } else if under(last_met(entries), 0, j) {
        lemma_still_under(entries, j);
    } else {
        lemma_first(edges, j);
        let e = first_edge(edges, j)->Some_0;
        let at = choose|at: int|
            0 <= at < edges.len() && #[trigger] edges[at] == e && e.to == j && (forall|earlier: int|
                0 <= earlier < at ==> #[trigger] edges[earlier].to != j);
        assert(at <= q);
        law_walk_meets_all_imports(entries);
        assert(edges.contains(e));
        assert(j < entries.len()) by {
            assert(deps[e.from as int][e.place as int] < deps.len());
        }
        if e.from == 0 {
            lemma_reaches_itself(children(g), 0);
        } else {
            lemma_met_in_order(deps, 0, Set::empty(), entries.len());
            assert(comes_before(edges, at));
            let earlier = choose|earlier: int|
                0 <= earlier < at && (#[trigger] edges[earlier]).to == edges[at].from;
            lemma_met_under(entries, earlier);
        }
        assert(child(g, e.from, j)) by {
            assert(g[e.from as int].dependencies == entries[e.from as int].dependencies);
        }
        lemma_children(g, e.from, j);
        lemma_reaches_import(children(g), e.from, j);
        lemma_reaches_on(children(g), 0, e.from, j);
    }
}

/// An import is met of each file other than the first one that imports lead to from there.
proof fn lemma_met(entries: Seq<EntryView>, j: u32) -> (q: int)
    requires
        entries.len() > 0,
        in_range(dependencies_of(entries)),
        countable(dependencies_of(entries)),
        reachable(dependencies_of(entries), 0, j),
        j != 0,
    ensures
        0 <= q < met(entries).len(),
        met(entries)[q].to == j,
{
    let deps = dependencies_of(entries);
    let edges = met(entries);
    let path = choose|path: Seq<u32>| #[trigger]
        is_path(deps, path) && path.first() == 0 && path.last() == j;
    let front = path.drop_last();
    lemma_front(deps, path);
    let p = front.last();
    assert(reachable(deps, 0, p));
    let place = choose|d: int| 0 <= d < deps[p as int].len() && deps[p as int][d] == j;
    assert(deps[p as int].len() <= usize::MAX);
    let edge = Edge { from: p, place: place as usize, to: j };
    law_walk_meets_all_imports(entries);
    assert(edges.contains(edge));
    choose|q: int| 0 <= q < edges.len() && edges[q] == edge
}

/// Whether `g` are the files, and only which import of each of them counts may be another.
pub open spec fn same_files(entries: Seq<EntryView>, g: Seq<EntryView>) -> bool {
    &&& g.len() == entries.len()
    &&& forall|j: int|
        0 <= j < g.len() ==> #[trigger] g[j] == (EntryView {
            parent_source_index: g[j].parent_source_index,
            parent_dep_index: g[j].parent_dep_index,
            ..entries[j]
        })
}

/// Only which import of each file counts is found.
pub proof fn lemma_ordered(entries: Seq<EntryView>)
    ensures
        same_files(entries, ordered(entries)),
{
    lemma_settled_files(entries, first_or_last(entries), last_met(entries));
}

/// Files that are there, with their imports, stay so.
pub proof fn lemma_ordered_ready(entries: Seq<EntryView>)
    requires
        ready(entries),
    ensures
        ready(ordered(entries)),
{
    let g = ordered(entries);
    lemma_ordered(entries);
    assert forall|i: int, d: int|
        0 <= i < g.len() && 0 <= d < g[i].dependencies.len() implies #[trigger] g[i].dependencies[d]
        < g.len() by {
        assert(g[i].dependencies == entries[i].dependencies);
        assert(entries[i].dependencies[d] < entries.len());
    }
    assert forall|i: int| 0 <= i < g.len() implies (#[trigger] g[i]).stylesheet is Some
        && imports_of(rules_of(g[i])).len() <= g[i].dependencies.len() by {
        assert(entries[i].stylesheet is Some);
    }
}

/// Whether `g` are the files where for each file that imports lead to from the first one an import
/// of it counts that stands in such a file.
pub open spec fn well_imported(entries: Seq<EntryView>, g: Seq<EntryView>) -> bool {
    let deps = dependencies_of(entries);
    &&& same_files(entries, g)
    &&& forall|j: u32|
        0 < j < g.len() && #[trigger] reachable(deps, 0, j) ==> {
            let from = g[j as int].parent_source_index;
            child(g, from, j) && reachable(deps, 0, from)
        }
    &&& forall|j: u32|
        0 < j < g.len() && !#[trigger] reachable(deps, 0, j) ==> g[j as int] == entries[j as int]
}

/// Whether the imports that count lead from the first file to each file that imports lead to.
pub open spec fn leads_to_reachable(entries: Seq<EntryView>, g: Seq<EntryView>) -> bool {
    forall|j: u32| #[trigger] reachable(dependencies_of(entries), 0, j) ==> under(g, 0, j)
}

/// An import that is met stands in a file that imports lead to, and leads to such a file.
proof fn lemma_met_reachable(entries: Seq<EntryView>, e: Edge)
    requires
        entries.len() > 0,
        in_range(dependencies_of(entries)),
        countable(dependencies_of(entries)),
        met(entries).contains(e),
    ensures
        reachable(dependencies_of(entries), 0, e.from),
        reachable(dependencies_of(entries), 0, e.to),
{
    let deps = dependencies_of(entries);
    law_walk_meets_all_imports(entries);
    assert(deps[e.from as int][e.place as int] < deps.len());
    assert(deps[e.from as int].contains(e.to));
    lemma_reaches_import(deps, e.from, e.to);
    lemma_reaches_on(deps, 0, e.from, e.to);
}

/// Where an import that is met counts, its file is a child of the file that it stands in.
proof fn lemma_met_child(entries: Seq<EntryView>, g: Seq<EntryView>, e: Edge)
    requires
        entries.len() > 0,
        in_range(dependencies_of(entries)),
        countable(dependencies_of(entries)),
        met(entries).contains(e),
        g.len() == entries.len(),
        e.from < g.len() ==> g[e.from as int].dependencies == entries[e.from as int].dependencies,
        e.to < g.len() ==> g[e.to as int].parent_source_index == e.from
            && g[e.to as int].parent_dep_index == e.place,
        e.to != 0,
    ensures
        child(g, e.from, e.to),
        reachable(dependencies_of(entries), 0, e.from),
{
    lemma_met_reachable(entries, e);
    law_walk_meets_all_imports(entries);
    let deps = dependencies_of(entries);
    assert(deps[e.from as int][e.place as int] < deps.len());
}

/// The last imports are imports, and so are the first and last ones, which lead to all files.
proof fn lemma_well_imported(entries: Seq<EntryView>)
    requires
        entries.len() > 0,
        in_range(dependencies_of(entries)),
        countable(dependencies_of(entries)),
    ensures
        well_imported(entries, last_met(entries)),
        well_imported(entries, first_or_last(entries)),
        leads_to_reachable(entries, first_or_last(entries)),
{
    let deps = dependencies_of(entries);
    let edges = met(entries);
    let last = last_met(entries);
    let g = first_or_last(entries);
    assert forall|j: u32| 0 < j < entries.len() && #[trigger] reachable(deps, 0, j) implies {
        &&& child(last, last[j as int].parent_source_index, j)
        &&& reachable(deps, 0, last[j as int].parent_source_index)
        &&& child(g, g[j as int].parent_source_index, j)
        &&& reachable(deps, 0, g[j as int].parent_source_index)
    } by {
        let q = lemma_met(entries, j);
        lemma_last(edges, j);
        lemma_first(edges, j);
        let a = last_edge(edges, j)->Some_0;
        let b = first_edge(edges, j)->Some_0;
        assert(edges.contains(a));
        assert(edges.contains(b));
        lemma_met_child(entries, last, a);
        if under(last, 0, j) {
            lemma_met_child(entries, g, a);
        } else {
            lemma_met_child(entries, g, b);
        }
    }
    assert forall|j: u32| 0 < j < entries.len() && !#[trigger] reachable(deps, 0, j) implies
        last[j as int] == entries[j as int] && g[j as int] == entries[j as int] by {
        lemma_last(edges, j);
        lemma_first(edges, j);
        assert forall|q: int| 0 <= q < edges.len() implies #[trigger] edges[q].to != j by {
            assert(edges.contains(edges[q]));
            lemma_met_reachable(entries, edges[q]);
        }
    }
    assert forall|j: u32| #[trigger] reachable(deps, 0, j) implies under(g, 0, j) by {
        if j == 0 {
            lemma_reaches_itself(children(g), 0);
        } else {
            let q = lemma_met(entries, j);
            lemma_met_under(entries, q);
        }
    }
}

/// The imports that count lead from the first file to each file that imports lead to from there.
pub proof fn law_imports_that_count_lead_to_all(entries: Seq<EntryView>, j: u32)
    requires
        entries.len() > 0,
        in_range(dependencies_of(entries)),
        countable(dependencies_of(entries)),
        reachable(dependencies_of(entries), 0, j),
    ensures
        under(ordered(entries), 0, j),
{
    lemma_well_imported(entries);
    lemma_settled(entries, first_or_last(entries), last_met(entries));
}

/// The last import of a file that the walk meets counts, unless the file that it stands in is that
/// file itself, or one that the imports that count lead to from there; then it is the first one
/// that counts. So it is the last one in any case where the last imports lead from the first file
/// to the file.
pub proof fn law_last_import_counts(entries: Seq<EntryView>, j: u32)
    requires
        entries.len() > 0,
        in_range(dependencies_of(entries)),
        countable(dependencies_of(entries)),
        j < entries.len(),
    ensures
        ({
            let g = ordered(entries);
            let last = last_met(entries);
            let from = last[j as int].parent_source_index;
            &&& g[j as int] == last[j as int] || from == j || under(g, j, from)
            &&& g[j as int] == last[j as int] || g[j as int] == imported_by(
                entries[j as int],
                first_edge(met(entries), j),
            )
            &&& j == 0 || under(last, 0, j) ==> g[j as int] == last[j as int]
        }),
{
    let last = last_met(entries);
    lemma_well_imported(entries);
    lemma_settled(entries, first_or_last(entries), last);
    let g = ordered(entries);
    lemma_first_movable(g, last, 0);
    if j != 0 && g[j as int] != last[j as int] {
        assert(!movable(g, last, j as int));
    }
}

/// Whether no file that imports lead to from the first one imports itself, directly or through
/// others.
pub open spec fn acyclic(deps: Seq<Seq<u32>>) -> bool {
    forall|i: u32, d: u32|
        #![trigger deps[i as int].contains(d)]
        reachable(deps, 0, i) && deps[i as int].contains(d) ==> !reachable(deps, d, i)
}

/// The files that imports lead from to file `j`.
spec fn above(deps: Seq<Seq<u32>>, j: u32) -> Set<u32> {
    Set::new(|i: u32| i < deps.len() && reachable(deps, i, j))
}

/// Where no file imports itself, the last imports lead to all files.
proof fn lemma_last_lead_to_all(entries: Seq<EntryView>, j: u32)
    requires
        entries.len() > 0,
        in_range(dependencies_of(entries)),
        well_imported(entries, last_met(entries)),
        acyclic(dependencies_of(entries)),
        reachable(dependencies_of(entries), 0, j),
        j < entries.len(),
    ensures
        under(last_met(entries), 0, j),
    decreases above(dependencies_of(entries), j).len(),
{
    let deps = dependencies_of(entries);
    let last = last_met(entries);
    if j == 0 {
        lemma_reaches_itself(children(last), 0);
    } else {
        let p = last[j as int].parent_source_index;
        assert(child(last, p, j) && reachable(deps, 0, p));
        assert(deps[p as int][last[j as int].parent_dep_index as int] == j);
        assert(deps[p as int].contains(j));
        assert(!reachable(deps, j, p));
        assert forall|i: u32| above(deps, p).contains(i) implies above(deps, j).contains(i) by {
            lemma_reaches_import(deps, p, j);
            lemma_reaches_on(deps, i, p, j);
        }
        lemma_reaches_itself(deps, j);
        assert(above(deps, p).subset_of(above(deps, j).remove(j)));
        lemma_all_files(deps.len(), above(deps, j));
        lemma_len_subset(above(deps, p), above(deps, j).remove(j));
        lemma_last_lead_to_all(entries, p);
        lemma_children(last, p, j);
        lemma_reaches_import(children(last), p, j);
        lemma_reaches_on(children(last), 0, p, j);
    }
}

/// Where no file imports itself, directly or through others, the last import of each file counts.
pub proof fn law_last_imports_count_without_cycles(entries: Seq<EntryView>)
    requires
        entries.len() > 0,
        in_range(dependencies_of(entries)),
        countable(dependencies_of(entries)),
        acyclic(dependencies_of(entries)),
    ensures
        ordered(entries) == last_met(entries),
{
    let deps = dependencies_of(entries);
    let last = last_met(entries);
    lemma_well_imported(entries);
    assert forall|j: int| 0 <= j < entries.len() implies first_or_last(entries)[j]
        == #[trigger] last[j] by {
        if reachable(deps, 0, j as u32) {
            lemma_last_lead_to_all(entries, j as u32);
        }
    }
    assert(first_or_last(entries) =~= last);
    lemma_first_movable(last, last, 0);
}

/// What the last and the first import of a file are.
pub proof fn law_last_and_first_import(entries: Seq<EntryView>, j: u32)
    requires
        j < entries.len(),
    ensures
        ({
            let edges = met(entries);
            let last = last_met(entries)[j as int];
            &&& forall|q: int|
                0 <= q < edges.len() && #[trigger] edges[q].to == j && (forall|later: int|
                    q < later < edges.len() ==> #[trigger] edges[later].to != j)
                    ==> last.parent_source_index == edges[q].from && last.parent_dep_index
                    == edges[q].place
            &&& forall|q: int|
                0 <= q < edges.len() && #[trigger] edges[q].to == j && (forall|earlier: int|
                    0 <= earlier < q ==> #[trigger] edges[earlier].to != j) ==> first_edge(edges, j)
                    == Some(edges[q])
            &&& (forall|q: int| 0 <= q < edges.len() ==> #[trigger] edges[q].to != j) ==> last
                == entries[j as int] && first_edge(edges, j) is None
        }),
{
    let edges = met(entries);
    lemma_last(edges, j);
    lemma_first(edges, j);
}

/// What [`last_edge`] finds.
pub proof fn lemma_last(edges: Seq<Edge>, j: u32)
    ensures
        match last_edge(edges, j) {
            Some(e) => exists|q: int|
                0 <= q < edges.len() && #[trigger] edges[q] == e && e.to == j && (forall|later: int|
                    q < later < edges.len() ==> #[trigger] edges[later].to != j),
            None => forall|q: int| 0 <= q < edges.len() ==> #[trigger] edges[q].to != j,
        },
    decreases edges.len(),
{
    if edges.len() > 0 && edges.last().to != j {
        let rest = edges.drop_last();
        lemma_last(rest, j);
        match last_edge(rest, j) {
            Some(e) => {
                let q = choose|q: int|
                    0 <= q < rest.len() && #[trigger] rest[q] == e && e.to == j && (forall|
                        later: int,
                    |
                        q < later < rest.len() ==> #[trigger] rest[later].to != j);
                assert(edges[q] == e);
                assert forall|later: int| q < later < edges.len() implies #[trigger] edges[later].to
                    != j by {
                    if later < rest.len() {
                        assert(rest[later].to != j);
                    }
                }
            },
            None => {
                assert forall|q: int| 0 <= q < edges.len() implies #[trigger] edges[q].to != j by {
                    if q < rest.len() {
                        assert(rest[q].to != j);
                    }
                }
            },
        }
    } else if edges.len() > 0 {
        assert(edges[edges.len() - 1] == edges.last());
    }
}

/// Of two stretches of a walk the imports of the second count before those of the first.
proof fn lemma_last_edge(a: Seq<Edge>, b: Seq<Edge>, j: u32)
    ensures
        last_edge(a + b, j) == match last_edge(b, j) {
            Some(edge) => Some(edge),
            None => last_edge(a, j),
        },
    decreases b.len(),
{
    if b.len() == 0 {
        assert(a + b =~= a);
    } else {
        assert((a + b).drop_last() =~= a + b.drop_last());
        lemma_last_edge(a, b.drop_last(), j);
    }
}

/// Two stretches of a walk one after the other.
proof fn lemma_with_edges(entries: Seq<EntryView>, a: Seq<Edge>, b: Seq<Edge>)
    ensures
        with_edges(with_edges(entries, a), b) == with_edges(entries, a + b),
{
    assert forall|j: int| 0 <= j < entries.len() implies #[trigger] with_edges(
        with_edges(entries, a),
        b,
    )[j] == with_edges(entries, a + b)[j] by {
        lemma_last_edge(a, b, j as u32);
    }
    assert(with_edges(with_edges(entries, a), b) =~= with_edges(entries, a + b));
}

/// For each file the import by which the walk first came to it, where `first` holds those that
/// were met before `edges`.
spec fn with_first(first: Seq<Option<Edge>>, edges: Seq<Edge>) -> Seq<Option<Edge>> {
    Seq::new(
        first.len(),
        |j: int|
            match first[j] {
                Some(edge) => Some(edge),
                None => first_edge(edges, j as u32),
            },
    )
}

/// Of two stretches of a walk the first imports of the first come before those of the second.
proof fn lemma_first_edge(a: Seq<Edge>, b: Seq<Edge>, j: u32)
    ensures
        first_edge(a + b, j) == match first_edge(a, j) {
            Some(edge) => Some(edge),
            None => first_edge(b, j),
        },
    decreases b.len(),
{
    if b.len() == 0 {
        assert(a + b =~= a);
    } else {
        assert((a + b).drop_last() =~= a + b.drop_last());
        lemma_first_edge(a, b.drop_last(), j);
    }
}

/// Two stretches of a walk one after the other.
proof fn lemma_with_first(first: Seq<Option<Edge>>, a: Seq<Edge>, b: Seq<Edge>)
    ensures
        with_first(with_first(first, a), b) == with_first(first, a + b),
{
    assert forall|j: int| 0 <= j < first.len() implies #[trigger] with_first(
        with_first(first, a),
        b,
    )[j] == with_first(first, a + b)[j] by {
        lemma_first_edge(a, b, j as u32);
    }
    assert(with_first(with_first(first, a), b) =~= with_first(first, a + b));
}

/// Goes through the imports of file `source_index`.
fn process(
    stylesheets: &mut Vec<BundleStyleSheet>,
    source_index: u32,
    visited: &mut HashSet<u32>,
    first: &mut Vec<Option<Edge>>,
    Ghost(depth): Ghost<nat>,
)
    requires
        in_range(dependencies_of(entry_views(old(stylesheets)@))),
        source_index < old(stylesheets).len(),
        old(first).len() == old(stylesheets).len(),
        old(visited)@.subset_of(files(old(stylesheets).len() as nat)),
        depth + old(visited)@.len() >= old(stylesheets).len(),
    ensures
        ({
            let entries = entry_views(old(stylesheets)@);
            let (edges, after) = walk(
                dependencies_of(entries),
                source_index,
                old(visited)@,
                depth,
            );
            &&& entry_views(final(stylesheets)@) == with_edges(entries, edges)
            &&& final(visited)@ == after
            &&& final(first)@ == with_first(old(first)@, edges)
        }),
    decreases depth,
{
    let ghost entries = entry_views(stylesheets@);
    let ghost deps = dependencies_of(entries);
    let ghost start = visited@;
    proof {
        lemma_all_files(deps.len(), start);
        assert(with_edges(entries, Seq::empty()) =~= entries);
        assert(with_first(first@, Seq::empty()) =~= first@);
    }
    let ghost known = first@;
    if visited.contains(&source_index) {
        return;
    }
    visited.insert(source_index);
    let count: usize = stylesheets[source_index as usize].dependencies.len();
    let ghost inner = (depth - 1) as nat;
    let ghost marked = start.insert(source_index);
    let ghost mut edges: Seq<Edge> = Seq::empty();
    let mut dep_index: usize = 0;
    while dep_index < count
        invariant
            in_range(deps),
            deps == dependencies_of(entries),
            source_index < deps.len(),
            count == deps[source_index as int].len(),
            dep_index <= count,
            stylesheets.len() == deps.len(),
            entries.len() == deps.len(),
            marked.subset_of(files(deps.len())),
            marked.finite(),
            inner < depth,
            inner + marked.len() >= deps.len(),
            entry_views(stylesheets@) == with_edges(entries, edges),
            known.len() == deps.len(),
            first@ == with_first(known, edges),
            (edges, visited@) == walk_imports(
                deps,
                source_index,
                dep_index as nat,
                marked,
                inner,
            ),
        decreases count - dep_index,
    {
        proof {
            lemma_walk_imports_range(deps, source_index, dep_index as nat, marked, inner);
            lemma_all_files(deps.len(), visited@);
            lemma_len_subset(marked, visited@);
            assert(entry_views(stylesheets@)[source_index as int].dependencies
                == deps[source_index as int]);
        }
        let dep_source_index: u32 = stylesheets[source_index as usize].dependencies[dep_index];
        assert(dep_source_index == deps[source_index as int][dep_index as int]);
        let edge = Edge { from: source_index, place: dep_index, to: dep_source_index };
        let ghost met_before = first@;
        if first[dep_source_index as usize].is_none() {
            first.set(dep_source_index as usize, Some(edge));
        }
        let ghost before = entry_views(stylesheets@);
        stylesheets[dep_source_index as usize].parent_dep_index = dep_index;
        stylesheets[dep_source_index as usize].parent_source_index = source_index;
        proof {
            lemma_with_edges(entries, edges, seq![edge]);
            assert(edges + seq![edge] =~= edges.push(edge));
            assert forall|j: u32| #[trigger]
                last_edge(seq![edge], j) == (if j == dep_source_index {
                    Some(edge)
                } else {
                    None
                }) by {
                assert(last_edge(seq![edge].drop_last(), j) is None);
            }
            assert(entry_views(stylesheets@) =~= with_edges(before, seq![edge]));
            lemma_with_first(known, edges, seq![edge]);
            assert forall|j: u32| #[trigger]
                first_edge(seq![edge], j) == (if j == dep_source_index {
                    Some(edge)
                } else {
                    None
                }) by {
                assert(first_edge(seq![edge].drop_last(), j) is None);
            }
            assert(first@ =~= with_first(met_before, seq![edge]));
            assert(dependencies_of(entry_views(stylesheets@)) =~= deps);
        }
        process(stylesheets, dep_source_index, visited, first, Ghost(inner));
        proof {
            assert(entry_views(stylesheets@).len() == deps.len());
            let (more, _) = walk(
                deps,
                dep_source_index,
                walk_imports(deps, source_index, dep_index as nat, marked, inner).1,
                inner,
            );
            lemma_with_edges(entries, edges.push(edge), more);
            lemma_with_first(known, edges.push(edge), more);
            edges = edges.push(edge) + more;
        }
        dep_index = dep_index + 1;
    }
}

/// What lists of files stand for.
spec fn lists(kept: Seq<Vec<u32>>) -> Seq<Seq<u32>> {
    kept.map_values(|list: Vec<u32>| list@)
}

/// One more file among the children of a file.
proof fn lemma_children_among(g: Seq<EntryView>, p: u32, n: nat)
    requires
        n <= u32::MAX,
    ensures
        children_among(g, p, 0) == Seq::<u32>::empty(),
        children_among(g, p, n + 1) == (if child(g, p, n as u32) {
            children_among(g, p, n).push(n as u32)
        } else {
            children_among(g, p, n)
        }),
{
    reveal(Seq::filter);
    let all = Seq::new(n + 1, |c: int| c as u32);
    assert(Seq::new(0, |c: int| c as u32) =~= Seq::empty());
    assert(all.drop_last() =~= Seq::new(n, |c: int| c as u32));
    assert(all.last() == n as u32);
}

/// For each file the files whose imports that count stand in it.
fn kept_imports(stylesheets: &Vec<BundleStyleSheet>) -> (r: Vec<Vec<u32>>)
    requires
        stylesheets.len() <= u32::MAX + 1,
    ensures
        lists(r@) == children(entry_views(stylesheets@)),
{
    let ghost g = entry_views(stylesheets@);
    let count: usize = stylesheets.len();
    let mut kept: Vec<Vec<u32>> = Vec::new();
    while kept.len() < count
        invariant
            kept.len() <= count,
            forall|p: int| 0 <= p < kept.len() ==> (#[trigger] kept@[p])@ == Seq::<u32>::empty(),
        decreases count - kept.len(),
    {
        kept.push(Vec::new());
    }
    proof {
        assert forall|p: int| 0 <= p < count implies (#[trigger] kept@[p])@ == children_among(
            g,
            p as u32,
            0,
        ) by {
            lemma_children_among(g, p as u32, 0);
        }
    }
    let mut c: usize = 0;
    while c < count
        invariant
            count == stylesheets.len(),
            count <= u32::MAX + 1,
            g == entry_views(stylesheets@),
            g.len() == count,
            kept.len() == count,
            c <= count,
            forall|p: int|
                0 <= p < count ==> (#[trigger] kept@[p])@ == children_among(g, p as u32, c as nat),
        decreases count - c,
    {
        let ghost before = kept@;
        let from: u32 = stylesheets[c].parent_source_index;
        let place: usize = stylesheets[c].parent_dep_index;
        assert(g[c as int] == stylesheets@[c as int]@);
        let mut counts: bool = false;
        if c > 0 && (from as usize) < count {
            assert(g[from as int] == stylesheets@[from as int]@);
            let dependencies = &stylesheets[from as usize].dependencies;
            if place < dependencies.len() {
                counts = dependencies[place] == c as u32;
            }
        }
        if counts {
            kept[from as usize].push(c as u32);
        }
        proof {
            assert forall|p: int| 0 <= p < count implies (#[trigger] kept@[p])@ == children_among(
                g,
                p as u32,
                c as nat + 1,
            ) by {
                lemma_children_among(g, p as u32, c as nat);
                assert(before[p]@ == children_among(g, p as u32, c as nat));
            }
        }
        c = c + 1;
    }
    assert(lists(kept@) =~= children(g));
    kept
}

/// Goes through the files that lists of files lead to from file `i`.
fn follow(kept: &Vec<Vec<u32>>, i: u32, led: &mut HashSet<u32>, Ghost(depth): Ghost<nat>)
    requires
        in_range(lists(kept@)),
        i < kept.len(),
        old(led)@.subset_of(files(kept.len() as nat)),
        depth + old(led)@.len() >= kept.len(),
    ensures
        final(led)@ == walk(lists(kept@), i, old(led)@, depth).1,
    decreases depth,
{
    let ghost deps = lists(kept@);
    let ghost start = led@;
    proof {
        lemma_all_files(deps.len(), start);
    }
    if led.contains(&i) {
        return;
    }
    led.insert(i);
    let ghost inner = (depth - 1) as nat;
    let ghost marked = start.insert(i);
    let mut k: usize = 0;
    while k < kept[i as usize].len()
        invariant
            in_range(deps),
            deps == lists(kept@),
            i < kept.len(),
            k <= kept@[i as int].len(),
            marked.subset_of(files(deps.len())),
            marked.finite(),
            inner < depth,
            inner + marked.len() >= deps.len(),
            led@ == walk_imports(deps, i, k as nat, marked, inner).1,
        decreases kept@[i as int].len() - k,
    {
        proof {
            lemma_walk_imports_range(deps, i, k as nat, marked, inner);
            lemma_all_files(deps.len(), led@);
            lemma_len_subset(marked, led@);
            assert(deps[i as int] == kept@[i as int]@);
        }
        let to: u32 = kept[i as usize][k];
        assert(to == deps[i as int][k as int]);
        follow(kept, to, led, Ghost(inner));
        k = k + 1;
    }
}

/// A walk from the first file goes through the files that lead from there.
proof fn lemma_walk_reaches(deps: Seq<Seq<u32>>, j: u32)
    requires
        deps.len() > 0,
        in_range(deps),
        countable(deps),
    ensures
        walk(deps, 0, Set::empty(), deps.len()).1.contains(j) <==> reachable(deps, 0, j),
{
    let none = Set::<u32>::empty();
    lemma_walk(deps, 0, none, deps.len());
    lemma_walk_range(deps, 0, none, deps.len());
    let after = walk(deps, 0, none, deps.len()).1;
    assert(after.difference(none) =~= after);
    if reachable(deps, 0, j) {
        lemma_closed_reaches(deps, after, 0, j);
    }
}

/// The files to which imports that count lead from the first one.
fn led_files(stylesheets: &Vec<BundleStyleSheet>) -> (r: HashSet<u32>)
    requires
        0 < stylesheets.len() <= u32::MAX + 1,
    ensures
        forall|j: u32| #[trigger] r@.contains(j) <==> under(entry_views(stylesheets@), 0, j),
{
    let ghost g = entry_views(stylesheets@);
    let kept: Vec<Vec<u32>> = kept_imports(stylesheets);
    let ghost deps = lists(kept@);
    proof {
        assert(deps.len() == kept.len());
        assert forall|i: int, d: int|
            0 <= i < deps.len() && 0 <= d < deps[i].len() implies #[trigger] deps[i][d]
            < deps.len() by {
            assert(deps[i].contains(deps[i][d]));
            lemma_children(g, i as u32, deps[i][d]);
        }
        assert(countable(deps)) by {
            assert forall|i: int| 0 <= i < deps.len() implies #[trigger] deps[i].len()
                <= usize::MAX by {
                assert(deps[i] == kept@[i]@);
                assert(kept@[i].len() <= usize::MAX);
            }
        }
    }
    let mut led: HashSet<u32> = HashSet::new();
    let ghost depth = kept.len() as nat;
    follow(&kept, 0, &mut led, Ghost(depth));
    proof {
        assert forall|j: u32| #[trigger] led@.contains(j) <==> under(g, 0, j) by {
            lemma_walk_reaches(deps, j);
        }
    }
    led
}

/// Finds for each file the import that counts: in browsers every import of a file is evaluated, so
/// it is the last one. Where files import each other, the last import of a file may stand in a file
/// that is itself imported from there; then it is the first one.
pub fn order(stylesheets: &mut Vec<BundleStyleSheet>)
    requires
        in_range(dependencies_of(entry_views(old(stylesheets)@))),
        old(stylesheets).len() > 0,
    ensures
        entry_views(final(stylesheets)@) == ordered(entry_views(old(stylesheets)@)),
{
    let ghost entries = entry_views(stylesheets@);
    let count: usize = stylesheets.len();
    let mut visited: HashSet<u32> = HashSet::new();
    let mut first: Vec<Option<Edge>> = Vec::new();
    while first.len() < count
        invariant
            first.len() <= count,
            forall|j: int| 0 <= j < first.len() ==> #[trigger] first@[j] is None,
        decreases count - first.len(),
    {
        first.push(None);
    }
    let ghost depth = count as nat;
    let ghost nothing = first@;
    process(stylesheets, 0, &mut visited, &mut first, Ghost(depth));
    let ghost last = last_met(entries);
    proof {
        assert(entry_views(stylesheets@) == last);
        assert(entry_views(stylesheets@).len() == stylesheets.len());
    }
    let led: HashSet<u32> = led_files(stylesheets);
    let mut latest: Vec<(u32, usize)> = Vec::new();
    while latest.len() < count
        invariant
            latest.len() <= count,
            count == stylesheets.len(),
            entry_views(stylesheets@) == last,
            forall|k: int|
                0 <= k < latest.len() ==> #[trigger] latest@[k] == (
                    last[k].parent_source_index,
                    last[k].parent_dep_index,
                ),
        decreases count - latest.len(),
    {
        let file = &stylesheets[latest.len()];
        assert(last[latest.len() as int] == file@);
        latest.push((file.parent_source_index, file.parent_dep_index));
    }
    let mut j: usize = 1;
    let ghost goal = first_or_last(entries);
    while j < count
        invariant
            1 <= j <= count,
            count <= u32::MAX + 1,
            count == stylesheets.len(),
            count == entries.len(),
            first.len() == count,
            last == last_met(entries),
            goal == first_or_last(entries),
            forall|k: int| 0 <= k < count ==> #[trigger] first@[k] == first_edge(
                met(entries),
                k as u32,
            ),
            forall|k: u32| #[trigger] led@.contains(k) <==> under(last, 0, k),
            forall|k: int| 0 <= k < j ==> (#[trigger] stylesheets@[k])@ == goal[k],
            forall|k: int| j <= k < count ==> (#[trigger] stylesheets@[k])@ == last[k],
        decreases count - j,
    {
        let file: u32 = j as u32;
        proof {
            lemma_last(met(entries), file);
            lemma_first(met(entries), file);
        }
        if !led.contains(&file) {
            if let Some(edge) = first[j] {
                stylesheets[j].parent_source_index = edge.from;
                stylesheets[j].parent_dep_index = edge.place;
            }
        }
        j = j + 1;
    }
    proof {
        assert(entry_views(stylesheets@) =~= goal);
        assert(countable(dependencies_of(entries))) by {
            assert forall|i: int| 0 <= i < entries.len() implies #[trigger] dependencies_of(
                entries,
            )[i].len() <= usize::MAX by {
                assert(entry_views(stylesheets@)[i].dependencies == entries[i].dependencies);
                assert(stylesheets@[i].dependencies.len() <= usize::MAX);
            }
        }
        lemma_well_imported(entries);
    }
    settle(stylesheets, &latest, Ghost(entries), Ghost(last));
}

} // verus!
