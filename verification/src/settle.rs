//! Giving files their last imports back, where files import each other.
use crate::bundle_state::entry_views;
use crate::entry::{BundleStyleSheet, EntryView};
use crate::order::{dependencies_of, in_range, leads_to_reachable, same_files, well_imported};
use crate::reach::{
    is_path, lemma_front, lemma_reaches_import, lemma_reaches_on, lemma_stretch, reachable,
};
use crate::tree::{child, children, lemma_children, lemma_parent_under, under};
use vstd::prelude::*;

verus! {

/// Whether file `j` may have its last import back: another one counts, and the file that the last
/// one stands in is neither file `j` nor a file that the imports that count lead to from there.
pub open spec fn movable(g: Seq<EntryView>, last: Seq<EntryView>, j: int) -> bool {
    let from = last[j].parent_source_index;
    &&& 0 < j < g.len()
    &&& g[j] != last[j]
    &&& from != j
    &&& !under(g, j as u32, from)
}

/// The first file from `k` on that may have its last import back.
pub open spec fn first_movable(g: Seq<EntryView>, last: Seq<EntryView>, k: nat) -> Option<nat>
    decreases g.len() - k,
{
    if k >= g.len() {
        None
    } else if movable(g, last, k as int) {
        Some(k)
    } else {
        first_movable(g, last, k + 1)
    }
}

/// The number of files, among the first `n`, of which not the last import counts.
pub open spec fn apart(g: Seq<EntryView>, last: Seq<EntryView>, n: nat) -> nat
    decreases n,
{
    if n == 0 {
        0
    } else {
        apart(g, last, (n - 1) as nat) + (if g[n - 1] == last[n - 1] {
            0nat
        } else {
            1nat
        })
    }
}

/// The files, where one after the other, always the first one that may, has its last import back.
pub open spec fn settled(g: Seq<EntryView>, last: Seq<EntryView>) -> Seq<EntryView>
    decreases apart(g, last, g.len()),
{
    match first_movable(g, last, 0) {
        Some(j) => {
            proof {
                lemma_first_movable(g, last, 0);
                lemma_apart_update(g, last, j as int, g.len());
            }
            settled(g.update(j as int, last[j as int]), last)
        },
        None => g,
    }
}

/// What [`first_movable`] finds.
pub proof fn lemma_first_movable(g: Seq<EntryView>, last: Seq<EntryView>, k: nat)
    ensures
        match first_movable(g, last, k) {
            Some(j) => k <= j < g.len() && movable(g, last, j as int),
            None => forall|j: int| k <= j < g.len() ==> !movable(g, last, j),
        },
    decreases g.len() - k,
{
    if k < g.len() && !movable(g, last, k as int) {
        lemma_first_movable(g, last, k + 1);
    }
}

/// A file that has its last import back is no longer counted.
pub proof fn lemma_apart_update(g: Seq<EntryView>, last: Seq<EntryView>, j: int, n: nat)
    requires
        0 <= j < g.len(),
        g[j] != last[j],
        n <= g.len(),
    ensures
        apart(g.update(j, last[j]), last, n) == apart(g, last, n) - (if j < n {
            1int
        } else {
            0
        }),
    decreases n,
{
    if n > 0 {
        lemma_apart_update(g, last, j, (n - 1) as nat);
    }
}

/// The way from the first file to a file goes through all files that it is under.
proof fn lemma_on_the_way(g: Seq<EntryView>, path: Seq<u32>, j: u32)
    requires
        g.len() <= u32::MAX + 1,
        is_path(children(g), path),
        path.first() == 0,
        under(g, j, path.last()),
    ensures
        path.contains(j),
    decreases path.len(),
{
    let q = path.last();
    if j == q {
        assert(path[path.len() - 1] == j);
    } else if path.len() == 1 {
        let up = choose|up: Seq<u32>| #[trigger]
            is_path(children(g), up) && up.first() == j && up.last() == q;
        lemma_front(children(g), up);
        assert(up.drop_last().last() < g.len()) by {
            assert(up.drop_last()[up.len() - 2] < children(g).len());
        }
        lemma_children(g, up.drop_last().last(), q);
    } else {
        lemma_front(children(g), path);
        let front = path.drop_last();
        assert(front.last() < g.len()) by {
            assert(front[front.len() - 1] < children(g).len());
        }
        lemma_children(g, front.last(), q);
        lemma_parent_under(g, j, front.last(), q);
        lemma_on_the_way(g, front, j);
        let k = choose|k: int| 0 <= k < front.len() && front[k] == j;
        assert(path[k] == j);
    }
}

/// A way that does not lead to a file stays one, whichever import of that file counts.
proof fn lemma_way_stays(g: Seq<EntryView>, t: Seq<EntryView>, path: Seq<u32>, j: u32)
    requires
        g.len() <= u32::MAX + 1,
        g.len() == t.len(),
        forall|k: int| 0 <= k < g.len() ==> (#[trigger] t[k]).dependencies == g[k].dependencies,
        forall|k: int| 0 <= k < g.len() && k != j ==> #[trigger] t[k] == g[k],
        is_path(children(g), path),
        forall|k: int| 0 < k < path.len() ==> #[trigger] path[k] != j,
    ensures
        is_path(children(t), path),
{
    assert forall|k: int| 0 < k < path.len() implies children(t)[path[k - 1] as int].contains(
        #[trigger] path[k],
    ) by {
        assert(path[k - 1] < children(g).len());
        assert(path[k] < children(g).len());
        assert(children(g)[path[k - 1] as int].contains(path[k]));
        lemma_children(g, path[k - 1], path[k]);
        lemma_children(t, path[k - 1], path[k]);
        assert(path[k] != j);
        assert(t[path[k] as int] == g[path[k] as int]);
        assert(t[path[k - 1] as int].dependencies == g[path[k - 1] as int].dependencies);
        assert(child(t, path[k - 1], path[k]));
    }
    assert forall|k: int| 0 <= k < path.len() implies #[trigger] path[k] < children(t).len() by {
        assert(path[k] < children(g).len());
    }
}

/// The place where a file last occurs on a way, behind its start.
spec fn last_place(path: Seq<u32>, j: u32, n: nat) -> nat
    decreases n,
{
    if n == 0 || path[n as int] == j {
        n
    } else {
        last_place(path, j, (n - 1) as nat)
    }
}

/// What [`last_place`] finds.
proof fn lemma_last_place(path: Seq<u32>, j: u32, n: nat)
    requires
        n < path.len(),
    ensures
        last_place(path, j, n) <= n,
        last_place(path, j, n) == 0 || path[last_place(path, j, n) as int] == j,
        forall|k: int| last_place(path, j, n) < k <= n ==> #[trigger] path[k] != j,
    decreases n,
{
    if n > 0 && path[n as int] != j {
        lemma_last_place(path, j, (n - 1) as nat);
    }
}

/// Giving a file that may have it its last import back cuts no file off.
proof fn lemma_move(entries: Seq<EntryView>, g: Seq<EntryView>, last: Seq<EntryView>, j: int)
    requires
        in_range(dependencies_of(entries)),
        well_imported(entries, g),
        well_imported(entries, last),
        leads_to_reachable(entries, g),
        movable(g, last, j),
    ensures
        well_imported(entries, g.update(j, last[j])),
        leads_to_reachable(entries, g.update(j, last[j])),
{
    let deps = dependencies_of(entries);
    let t = g.update(j, last[j]);
    let file = j as u32;
    let from = last[j].parent_source_index;
    if !reachable(deps, 0, file) {
        assert(g[j] == entries[j] && last[j] == entries[j]);
    }
    assert(child(last, from, file) && reachable(deps, 0, from));
    assert forall|k: int| 0 <= k < g.len() implies (#[trigger] t[k]).dependencies
        == g[k].dependencies by {
        assert(last[k].dependencies == entries[k].dependencies);
        assert(g[k].dependencies == entries[k].dependencies);
    }
    assert(child(t, from, file)) by {
        assert(t[from as int].dependencies == entries[from as int].dependencies);
        assert(last[from as int].dependencies == entries[from as int].dependencies);
    }
    assert forall|q: u32| 0 < q < t.len() && #[trigger] reachable(deps, 0, q) implies {
        let up = t[q as int].parent_source_index;
        child(t, up, q) && reachable(deps, 0, up)
    } by {
        if q != file {
            let up = g[q as int].parent_source_index;
            assert(child(g, up, q));
            assert(t[up as int].dependencies == g[up as int].dependencies);
        }
    }
    assert(under(g, 0, from));
    let there = choose|path: Seq<u32>| #[trigger]
        is_path(children(g), path) && path.first() == 0 && path.last() == from;
    assert forall|k: int| 0 < k < there.len() implies #[trigger] there[k] != file by {
        if there[k] == file {
            lemma_stretch(children(g), there, k, there.len() as int);
            assert(under(g, file, from));
        }
    }
    lemma_way_stays(g, t, there, file);
    assert(under(t, 0, from));
    lemma_children(t, from, file);
    lemma_reaches_import(children(t), from, file);
    lemma_reaches_on(children(t), 0, from, file);
    assert forall|q: u32| #[trigger] reachable(deps, 0, q) implies under(t, 0, q) by {
        assert(under(g, 0, q));
        let path = choose|path: Seq<u32>| #[trigger]
            is_path(children(g), path) && path.first() == 0 && path.last() == q;
        let n = (path.len() - 1) as nat;
        let p = last_place(path, file, n) as int;
        lemma_last_place(path, file, n);
        let rest = path.subrange(p, path.len() as int);
        lemma_stretch(children(g), path, p, path.len() as int);
        assert forall|k: int| 0 < k < rest.len() implies #[trigger] rest[k] != file by {
            assert(rest[k] == path[p + k]);
        }
        lemma_way_stays(g, t, rest, file);
        assert(under(t, rest.first(), q));
        if p > 0 {
            lemma_reaches_on(children(t), 0, file, q);
        }
    }
}

/// Giving files their last imports back touches nothing else.
pub proof fn lemma_settled_files(entries: Seq<EntryView>, g: Seq<EntryView>, last: Seq<EntryView>)
    requires
        same_files(entries, g),
        same_files(entries, last),
    ensures
        same_files(entries, settled(g, last)),
    decreases apart(g, last, g.len()),
{
    if let Some(j) = first_movable(g, last, 0) {
        lemma_first_movable(g, last, 0);
        lemma_apart_update(g, last, j as int, g.len());
        lemma_settled_files(entries, g.update(j as int, last[j as int]), last);
    }
}

/// Once no file may have its last import back, the imports that count still lead to all files, and
/// each file has its last import or the one that it had.
pub proof fn lemma_settled(entries: Seq<EntryView>, g: Seq<EntryView>, last: Seq<EntryView>)
    requires
        in_range(dependencies_of(entries)),
        well_imported(entries, g),
        well_imported(entries, last),
        leads_to_reachable(entries, g),
    ensures
        ({
            let r = settled(g, last);
            &&& well_imported(entries, r)
            &&& leads_to_reachable(entries, r)
            &&& first_movable(r, last, 0) is None
            &&& forall|j: int|
                0 <= j < g.len() ==> #[trigger] r[j] == g[j] || (r[j] == last[j] && j != 0)
        }),
    decreases apart(g, last, g.len()),
{
    if let Some(j) = first_movable(g, last, 0) {
        lemma_first_movable(g, last, 0);
        lemma_apart_update(g, last, j as int, g.len());
        lemma_move(entries, g, last, j as int);
        lemma_settled(entries, g.update(j as int, last[j as int]), last);
    }
}

/// Whether file `j` is on the way up from file `from` to the first one.
fn is_under(stylesheets: &Vec<BundleStyleSheet>, j: u32, from: u32) -> (r: bool)
    requires
        stylesheets.len() <= u32::MAX + 1,
        j != 0,
        under(entry_views(stylesheets@), 0, from),
    ensures
        r == under(entry_views(stylesheets@), j, from),
{
    let ghost g = entry_views(stylesheets@);
    let ghost path = choose|path: Seq<u32>| #[trigger]
        is_path(children(g), path) && path.first() == 0 && path.last() == from;
    let ghost mut k: int = path.len() - 1;
    let mut at: u32 = from;
    proof {
        assert(path[k] == from);
    }
    while at != 0 && at != j
        invariant
            g == entry_views(stylesheets@),
            g.len() == stylesheets.len(),
            g.len() <= u32::MAX + 1,
            is_path(children(g), path),
            path.first() == 0,
            path.last() == from,
            0 <= k < path.len(),
            path[k] == at,
            j != 0,
            forall|m: int| k < m < path.len() ==> #[trigger] path[m] != j,
        decreases k,
    {
        proof {
            assert(k > 0);
            assert(path[k] < children(g).len());
            assert(path[k - 1] < children(g).len());
            assert(children(g)[path[k - 1] as int].contains(path[k]));
            lemma_children(g, path[k - 1], path[k]);
            assert(g[at as int] == stylesheets@[at as int]@);
            k = k - 1;
        }
        at = stylesheets[at as usize].parent_source_index;
    }
    proof {
        if at == j {
            lemma_stretch(children(g), path, k, path.len() as int);
            assert(under(g, j, from));
        } else if under(g, j, from) {
            lemma_on_the_way(g, path, j);
            let m = choose|m: int| 0 <= m < path.len() && path[m] == j;
            lemma_above_first(g, path, k);
            assert(m <= k);
        }
    }
    at == j
}

/// The first file stands on a way from it only at the start.
proof fn lemma_above_first(g: Seq<EntryView>, path: Seq<u32>, k: int)
    requires
        g.len() <= u32::MAX + 1,
        is_path(children(g), path),
        0 <= k < path.len(),
        path[k] == 0,
    ensures
        k == 0,
{
    if k > 0 {
        assert(path[k - 1] < children(g).len());
        assert(children(g)[path[k - 1] as int].contains(path[k]));
        lemma_children(g, path[k - 1], path[k]);
    }
}

/// The first file that may have its last import back.
fn find_movable(
    stylesheets: &Vec<BundleStyleSheet>,
    latest: &Vec<(u32, usize)>,
    Ghost(entries): Ghost<Seq<EntryView>>,
    Ghost(last): Ghost<Seq<EntryView>>,
) -> (r: Option<usize>)
    requires
        in_range(dependencies_of(entries)),
        well_imported(entries, entry_views(stylesheets@)),
        well_imported(entries, last),
        leads_to_reachable(entries, entry_views(stylesheets@)),
        latest.len() == last.len(),
        forall|k: int|
            0 <= k < latest.len() ==> #[trigger] latest@[k] == (
                last[k].parent_source_index,
                last[k].parent_dep_index,
            ),
    ensures
        match r {
            Some(j) => first_movable(entry_views(stylesheets@), last, 0) == Some(j as nat),
            None => first_movable(entry_views(stylesheets@), last, 0) is None,
        },
{
    let ghost g = entry_views(stylesheets@);
    let ghost deps = dependencies_of(entries);
    let mut j: usize = 0;
    while j < stylesheets.len()
        invariant
            j <= stylesheets.len(),
            g == entry_views(stylesheets@),
            g.len() == stylesheets.len(),
            deps == dependencies_of(entries),
            in_range(deps),
            well_imported(entries, g),
            well_imported(entries, last),
            leads_to_reachable(entries, g),
            latest.len() == last.len(),
            forall|k: int|
                0 <= k < latest.len() ==> #[trigger] latest@[k] == (
                    last[k].parent_source_index,
                    last[k].parent_dep_index,
                ),
            first_movable(g, last, 0) == first_movable(g, last, j as nat),
        decreases stylesheets.len() - j,
    {
        let (from, place): (u32, usize) = latest[j];
        let file: u32 = j as u32;
        assert(g[j as int] == stylesheets@[j as int]@);
        assert(latest@[j as int] == (
            last[j as int].parent_source_index,
            last[j as int].parent_dep_index,
        ));
        let same: bool = stylesheets[j].parent_source_index == from
            && stylesheets[j].parent_dep_index == place;
        assert(same == (g[j as int] == last[j as int]));
        if j > 0 && !same && from != file {
            proof {
                if !reachable(deps, 0, file) {
                    assert(g[j as int] == entries[j as int]);
                    assert(last[j as int] == entries[j as int]);
                }
                assert(reachable(deps, 0, from));
            }
            if !is_under(stylesheets, file, from) {
                return Some(j);
            }
        }
        j = j + 1;
    }
    None
}

/// Gives files their last imports back, one after the other, as long as one may have it.
pub(crate) fn settle(
    stylesheets: &mut Vec<BundleStyleSheet>,
    latest: &Vec<(u32, usize)>,
    Ghost(entries): Ghost<Seq<EntryView>>,
    Ghost(last): Ghost<Seq<EntryView>>,
)
    requires
        in_range(dependencies_of(entries)),
        well_imported(entries, entry_views(old(stylesheets)@)),
        well_imported(entries, last),
        leads_to_reachable(entries, entry_views(old(stylesheets)@)),
        latest.len() == last.len(),
        forall|k: int|
            0 <= k < latest.len() ==> #[trigger] latest@[k] == (
                last[k].parent_source_index,
                last[k].parent_dep_index,
            ),
    ensures
        entry_views(final(stylesheets)@) == settled(entry_views(old(stylesheets)@), last),
{
    let ghost goal = settled(entry_views(stylesheets@), last);
    loop
        invariant
            in_range(dependencies_of(entries)),
            well_imported(entries, entry_views(stylesheets@)),
            well_imported(entries, last),
            leads_to_reachable(entries, entry_views(stylesheets@)),
            latest.len() == last.len(),
            forall|k: int|
                0 <= k < latest.len() ==> #[trigger] latest@[k] == (
                    last[k].parent_source_index,
                    last[k].parent_dep_index,
                ),
            goal == settled(entry_views(stylesheets@), last),
        ensures
            goal == entry_views(stylesheets@),
        decreases apart(entry_views(stylesheets@), last, entry_views(stylesheets@).len()),
    {
        match find_movable(stylesheets, latest, Ghost(entries), Ghost(last)) {
            None => {
                break ;
            },
            Some(j) => {
                let ghost g = entry_views(stylesheets@);
                proof {
                    lemma_first_movable(g, last, 0);
                    lemma_apart_update(g, last, j as int, g.len());
                    lemma_move(entries, g, last, j as int);
                    assert(g[j as int] == stylesheets@[j as int]@);
                    assert(last[j as int].dependencies == entries[j as int].dependencies);
                }
                let (from, place): (u32, usize) = latest[j];
                stylesheets[j].parent_source_index = from;
                stylesheets[j].parent_dep_index = place;
                assert(entry_views(stylesheets@) =~= g.update(j as int, last[j as int])) by {
                    assert(latest@[j as int] == (
                        last[j as int].parent_source_index,
                        last[j as int].parent_dep_index,
                    ));
                }
            },
        }
    }
}

} // verus!
