//! Which files imports lead to.
use vstd::prelude::*;

verus! {

/// Whether each file of a list but the first is imported by the one before it.
pub open spec fn is_path(deps: Seq<Seq<u32>>, path: Seq<u32>) -> bool {
    &&& path.len() > 0
    &&& forall|k: int| 0 <= k < path.len() ==> #[trigger] path[k] < deps.len()
    &&& forall|k: int|
        0 < k < path.len() ==> deps[path[k - 1] as int].contains(#[trigger] path[k])
}

/// Whether imports lead from file `i` to file `j`, in any number of steps.
pub open spec fn reachable(deps: Seq<Seq<u32>>, i: u32, j: u32) -> bool {
    exists|path: Seq<u32>| #[trigger]
        is_path(deps, path) && path.first() == i && path.last() == j
}

/// A file leads to itself.
pub proof fn lemma_reaches_itself(deps: Seq<Seq<u32>>, i: u32)
    requires
        i < deps.len(),
    ensures
        reachable(deps, i, i),
{
    assert(is_path(deps, seq![i]));
}

/// One import leads from the file that it stands in to its file.
pub proof fn lemma_reaches_import(deps: Seq<Seq<u32>>, i: u32, j: u32)
    requires
        i < deps.len(),
        j < deps.len(),
        deps[i as int].contains(j),
    ensures
        reachable(deps, i, j),
{
    assert(is_path(deps, seq![i, j]));
}

/// Two ways one after the other are a way.
pub proof fn lemma_reaches_on(deps: Seq<Seq<u32>>, i: u32, j: u32, k: u32)
    requires
        reachable(deps, i, j),
        reachable(deps, j, k),
    ensures
        reachable(deps, i, k),
{
    let a = choose|path: Seq<u32>| #[trigger]
        is_path(deps, path) && path.first() == i && path.last() == j;
    let b = choose|path: Seq<u32>| #[trigger]
        is_path(deps, path) && path.first() == j && path.last() == k;
    let path = a + b.drop_first();
    assert forall|n: int| 0 < n < path.len() implies deps[path[n - 1] as int].contains(
        #[trigger] path[n],
    ) by {
        if n < a.len() {
            assert(path[n] == a[n] && path[n - 1] == a[n - 1]);
        } else {
            assert(path[n] == b[n - a.len() + 1]);
            assert(path[n - 1] == b[n - a.len()]);
        }
    }
    assert(is_path(deps, path));
    assert(path.last() == k) by {
        if b.len() == 1 {
            assert(path =~= a);
        }
    }
}

/// A stretch of a way is a way.
pub proof fn lemma_stretch(deps: Seq<Seq<u32>>, path: Seq<u32>, start: int, end: int)
    requires
        is_path(deps, path),
        0 <= start < end <= path.len(),
    ensures
        is_path(deps, path.subrange(start, end)),
{
    let part = path.subrange(start, end);
    assert forall|k: int| 0 < k < part.len() implies deps[part[k - 1] as int].contains(
        #[trigger] part[k],
    ) by {
        assert(deps[path[start + k - 1] as int].contains(path[start + k]));
    }
}

/// The front of a way is a way.
pub proof fn lemma_front(deps: Seq<Seq<u32>>, path: Seq<u32>)
    requires
        is_path(deps, path),
        path.len() > 1,
    ensures
        is_path(deps, path.drop_last()),
        deps[path.drop_last().last() as int].contains(path.last()),
{
    lemma_stretch(deps, path, 0, path.len() - 1);
    assert(path.drop_last() =~= path.subrange(0, path.len() - 1));
    assert(deps[path[path.len() - 2] as int].contains(path[path.len() - 1]));
}

/// A way stays one where the files that import something keep their imports.
pub proof fn lemma_reaches_still(a: Seq<Seq<u32>>, b: Seq<Seq<u32>>, i: u32, j: u32)
    requires
        reachable(a, i, j),
        a.len() <= b.len(),
        forall|k: int| 0 <= k < a.len() && a[k].len() > 0 ==> #[trigger] b[k] == a[k],
    ensures
        reachable(b, i, j),
{
    let path = choose|path: Seq<u32>| #[trigger]
        is_path(a, path) && path.first() == i && path.last() == j;
    assert forall|n: int| 0 < n < path.len() implies b[path[n - 1] as int].contains(
        #[trigger] path[n],
    ) by {
        assert(path[n - 1] < a.len());
        assert(a[path[n - 1] as int].contains(path[n]));
        assert(b[path[n - 1] as int] == a[path[n - 1] as int]);
    }
    assert(is_path(b, path));
}

/// A set of files that holds all that its files import holds all that they lead to.
pub proof fn lemma_closed_reaches(deps: Seq<Seq<u32>>, set: Set<u32>, i: u32, j: u32)
    requires
        reachable(deps, i, j),
        set.contains(i),
        forall|k: u32, d: u32|
            k < deps.len() && set.contains(k) && #[trigger] deps[k as int].contains(d)
                ==> set.contains(d),
    ensures
        set.contains(j),
{
    let path = choose|path: Seq<u32>| #[trigger]
        is_path(deps, path) && path.first() == i && path.last() == j;
    lemma_closed_path(deps, set, path, path.len() - 1);
}

/// The same of each file on a way.
proof fn lemma_closed_path(deps: Seq<Seq<u32>>, set: Set<u32>, path: Seq<u32>, n: int)
    requires
        is_path(deps, path),
        set.contains(path.first()),
        forall|k: u32, d: u32|
            k < deps.len() && set.contains(k) && #[trigger] deps[k as int].contains(d)
                ==> set.contains(d),
        0 <= n < path.len(),
    ensures
        set.contains(path[n]),
    decreases n,
{
    if n > 0 {
        lemma_closed_path(deps, set, path, n - 1);
        assert(deps[path[n - 1] as int].contains(path[n]));
    }
}

} // verus!
