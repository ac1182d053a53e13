//! The tree that the imports that count make of the files of a bundle.
use crate::conditions::{applies, ConditionsView};
use crate::entry::EntryView;
use crate::in_force::{
    in_force, law_wrapped_rules_apply, lemma_in_force_joined, lemma_located,
    lemma_own_rules_in_force, located, rule_in_force,
};
use crate::inline::{
    bundled_rules, emptied, head_end, inlined, inlined_head, lemma_head_end, lemma_inlined_head, lemma_more_imports,
    own_rules, ready, rules_of, unconditional, wrapped,
};
use crate::load::{imports_of, plain};
use crate::media::Medium;
use crate::order::{files, lemma_all_files};
use crate::reach::{
    is_path, lemma_front, lemma_reaches_import, lemma_reaches_itself, lemma_reaches_on, lemma_stretch,
    reachable,
};
use crate::rules::{PlainView, RuleView};
use crate::supports::ConditionView;
use vstd::prelude::*;

verus! {

/// Whether the import of file `c` that counts stands in file `p`. The first file, with which the
/// bundle starts, needs no import.
pub open spec fn child(g: Seq<EntryView>, p: u32, c: u32) -> bool {
    &&& c != 0
    &&& p < g.len()
    &&& c < g.len()
    &&& g[c as int].parent_source_index == p
    &&& g[c as int].parent_dep_index < g[p as int].dependencies.len()
    &&& g[p as int].dependencies[g[c as int].parent_dep_index as int] == c
}

/// The first `n` files, as far as their imports that count stand in file `p`.
pub open spec fn children_among(g: Seq<EntryView>, p: u32, n: nat) -> Seq<u32> {
    Seq::new(n, |c: int| c as u32).filter(|c: u32| child(g, p, c))
}

/// For each file the files whose imports that count stand in it.
pub open spec fn children(g: Seq<EntryView>) -> Seq<Seq<u32>> {
    Seq::new(g.len(), |p: int| children_among(g, p as u32, g.len()))
}

/// Whether imports that count lead from file `i` to file `j`.
pub open spec fn under(g: Seq<EntryView>, i: u32, j: u32) -> bool {
    reachable(children(g), i, j)
}

/// Whether an import of the first file counts.
pub open spec fn leads_back(g: Seq<EntryView>) -> bool {
    let e = g[0];
    &&& e.parent_source_index < g.len()
    &&& e.parent_dep_index < g[e.parent_source_index as int].dependencies.len()
    &&& g[e.parent_source_index as int].dependencies[e.parent_dep_index as int] == 0
}

/// The rules that file `i` and the files under it make: for each rule that may stand before an
/// import, in their order, the rules of the file that it imports, where the import counts, or the
/// rule itself, where it names layers; then the rest of the rules of file `i`, in the blocks that
/// say under which conditions they apply. The files are followed no deeper than `depth`.
pub open spec fn tree(g: Seq<EntryView>, i: u32, depth: nat) -> Seq<RuleView>
    decreases depth, 0nat,
{
    if depth == 0 {
        Seq::empty()
    } else {
        let e = g[i as int];
        tree_head(g, i, head_end(rules_of(e), 0), (depth - 1) as nat) + wrapped(
            own_rules(rules_of(e)),
            e.conditions,
            e.loc,
        )
    }
}

/// What the first `k` rules of file `i` make.
pub open spec fn tree_head(g: Seq<EntryView>, i: u32, k: nat, depth: nat) -> Seq<RuleView>
    decreases depth, k,
{
    if k == 0 {
        Seq::empty()
    } else {
        let rules = rules_of(g[i as int]);
        let before = tree_head(g, i, (k - 1) as nat, depth);
        match rules[k - 1] {
            RuleView::Import(_) => match import_at(g, i, (k - 1) as nat) {
                Some(to) => before + tree(g, to, depth),
                None => before,
            },
            RuleView::LayerStatement { .. } => before.push(rules[k - 1]),
            _ => before,
        }
    }
}

/// The file that the import at place `k` among the rules of file `i` leads to, where it is the one
/// that counts, and the file is not the first one.
pub open spec fn import_at(g: Seq<EntryView>, i: u32, k: nat) -> Option<u32> {
    let place = imports_of(rules_of(g[i as int]).take(k as int)).len();
    let to = g[i as int].dependencies[place as int];
    if to != 0 && g[to as int].parent_source_index == i && g[to as int].parent_dep_index == place {
        Some(to)
    } else {
        None
    }
}

/// The files of a tree, in the order in which their rules come.
pub open spec fn tree_files(g: Seq<EntryView>, i: u32, depth: nat) -> Seq<u32>
    decreases depth, 0nat,
{
    if depth == 0 {
        Seq::empty()
    } else {
        tree_files_head(
            g,
            i,
            head_end(rules_of(g[i as int]), 0),
            (depth - 1) as nat,
        ).push(i)
    }
}

/// The files that the first `k` rules of file `i` bring.
pub open spec fn tree_files_head(g: Seq<EntryView>, i: u32, k: nat, depth: nat) -> Seq<u32>
    decreases depth, k,
{
    if k == 0 {
        Seq::empty()
    } else {
        let before = tree_files_head(g, i, (k - 1) as nat, depth);
        match rules_of(g[i as int])[k - 1] {
            RuleView::Import(_) => match import_at(g, i, (k - 1) as nat) {
                Some(to) => before + tree_files(g, to, depth),
                None => before,
            },
            _ => before,
        }
    }
}

/// What [`children`] holds.
pub proof fn lemma_children(g: Seq<EntryView>, p: u32, c: u32)
    requires
        g.len() <= u32::MAX + 1,
        p < g.len(),
    ensures
        children(g).len() == g.len(),
        children(g)[p as int].contains(c) <==> child(g, p, c),
{
    broadcast use vstd::seq_lib::group_filter_ensures;

    let all = Seq::new(g.len(), |c: int| c as u32);
    let pred = |c: u32| child(g, p, c);
    assert(children(g)[p as int] == children_among(g, p, g.len()));
    if all.filter(pred).contains(c) {
        let q = choose|q: int| 0 <= q < all.filter(pred).len() && all.filter(pred)[q] == c;
        assert(pred(all.filter(pred)[q]));
    }
    if child(g, p, c) {
        assert(all[c as int] == c);
        assert(pred(all[c as int]));
        assert(all.filter(pred).contains(all[c as int]));
    }
}

/// A file whose import that counts stands in another is under it.
proof fn lemma_child_under(g: Seq<EntryView>, p: u32, c: u32)
    requires
        g.len() <= u32::MAX + 1,
        child(g, p, c),
    ensures
        under(g, p, c),
{
    lemma_children(g, p, c);
    lemma_reaches_import(children(g), p, c);
}

/// Only one import of a file counts, so of two files that it is under one is under the other.
proof fn lemma_one_way_up(g: Seq<EntryView>, a: Seq<u32>, b: Seq<u32>)
    requires
        g.len() <= u32::MAX + 1,
        is_path(children(g), a),
        is_path(children(g), b),
        a.last() == b.last(),
    ensures
        under(g, a.first(), b.first()) || under(g, b.first(), a.first()),
    decreases a.len(),
{
    if a.len() == 1 {
        assert(under(g, b.first(), a.first()));
    } else if b.len() == 1 {
        assert(under(g, a.first(), b.first()));
    } else {
        let x = a.drop_last();
        let y = b.drop_last();
        lemma_front(children(g), a);
        lemma_front(children(g), b);
        lemma_children(g, x.last(), a.last());
        lemma_children(g, y.last(), b.last());
        lemma_one_way_up(g, x, y);
    }
}

/// A file that is under another one is that one, or is under it by way of its parent.
pub proof fn lemma_parent_under(g: Seq<EntryView>, c: u32, p: u32, to: u32)
    requires
        g.len() <= u32::MAX + 1,
        under(g, c, to),
        c != to,
        child(g, p, to),
    ensures
        under(g, c, p),
{
    let path = choose|path: Seq<u32>| #[trigger]
        is_path(children(g), path) && path.first() == c && path.last() == to;
    let x = path.drop_last();
    lemma_front(children(g), path);
    lemma_children(g, x.last(), to);
}

/// Imports that count lead from no file under the first one back to it: only one import of each
/// file counts, and they lead up to the first file, of which none does. Here `path` is the way
/// from the first file to file `p`.
proof fn lemma_no_way_back(g: Seq<EntryView>, path: Seq<u32>, c: u32)
    requires
        g.len() <= u32::MAX + 1,
        is_path(children(g), path),
        path.first() == 0,
        child(g, path.last(), c),
    ensures
        !under(g, c, path.last()),
    decreases path.len(),
{
    let p = path.last();
    if under(g, c, p) {
        if path.len() == 1 {
            lemma_first_file(g, c);
        } else {
            let front = path.drop_last();
            lemma_front(children(g), path);
            let up = front.last();
            lemma_children(g, up, p);
            lemma_child_under(g, p, c);
            if c == p {
                lemma_reaches_itself(children(g), p);
            } else {
                lemma_parent_under(g, c, up, p);
                lemma_reaches_on(children(g), p, c, up);
            }
            assert(under(g, p, up));
            lemma_no_way_back(g, front, p);
        }
    }
}

/// The same of a file that is under the first one.
proof fn lemma_no_cycle(g: Seq<EntryView>, p: u32, c: u32)
    requires
        g.len() <= u32::MAX + 1,
        under(g, 0, p),
        child(g, p, c),
    ensures
        !under(g, c, p),
{
    let path = choose|path: Seq<u32>| #[trigger]
        is_path(children(g), path) && path.first() == 0 && path.last() == p;
    lemma_no_way_back(g, path, c);
}

/// A child of a file under the first one is under the first one.
proof fn lemma_child_under_first(g: Seq<EntryView>, p: u32, c: u32)
    requires
        g.len() <= u32::MAX + 1,
        under(g, 0, p),
        child(g, p, c),
    ensures
        under(g, 0, c),
{
    lemma_child_under(g, p, c);
    lemma_reaches_on(children(g), 0, p, c);
}

/// What is under one child of a file is not under another one, nor is it the file itself.
proof fn lemma_apart(g: Seq<EntryView>, i: u32, c: u32, d: u32, q: u32)
    requires
        g.len() <= u32::MAX + 1,
        under(g, 0, i),
        child(g, i, c),
        child(g, i, d),
        under(g, c, q),
        under(g, d, q),
    ensures
        c == d,
{
    if c != d {
        let a = choose|path: Seq<u32>| #[trigger]
            is_path(children(g), path) && path.first() == c && path.last() == q;
        let b = choose|path: Seq<u32>| #[trigger]
            is_path(children(g), path) && path.first() == d && path.last() == q;
        lemma_one_way_up(g, a, b);
        lemma_no_cycle(g, i, c);
        lemma_no_cycle(g, i, d);
        if under(g, c, d) {
            lemma_parent_under(g, c, i, d);
        } else {
            lemma_parent_under(g, d, i, c);
        }
    }
}

/// Whether two states of the files differ in rules and conditions alone.
pub open spec fn same_links(g: Seq<EntryView>, s: Seq<EntryView>) -> bool {
    &&& g.len() == s.len()
    &&& forall|j: int|
        0 <= j < g.len() ==> {
            &&& (#[trigger] s[j]).dependencies == g[j].dependencies
            &&& s[j].parent_source_index == g[j].parent_source_index
            &&& s[j].parent_dep_index == g[j].parent_dep_index
            &&& s[j].loc == g[j].loc
        }
}

/// Whether file `q` is under a file that one of the first `k` rules of file `i` imports.
pub open spec fn under_head(g: Seq<EntryView>, i: u32, k: nat, q: u32) -> bool {
    exists|c: u32| #[trigger]
        child(g, i, c) && g[c as int].parent_dep_index < imports_of(
            rules_of(g[i as int]).take(k as int),
        ).len() && under(g, c, q)
}

/// Whether the file that an import leads to is the one that [`import_at`] tells.
pub proof fn lemma_import_at(g: Seq<EntryView>, i: u32, k: nat)
    requires
        ready(g),
        i < g.len(),
        k < rules_of(g[i as int]).len(),
        rules_of(g[i as int])[k as int] is Import,
    ensures
        imports_of(rules_of(g[i as int]).take(k as int)).len() < g[i as int].dependencies.len(),
        imports_of(rules_of(g[i as int]).take(k as int + 1)).len() == imports_of(
            rules_of(g[i as int]).take(k as int),
        ).len() + 1,
        import_at(g, i, k) matches Some(to) ==> {
            &&& child(g, i, to)
            &&& g[to as int].parent_dep_index == imports_of(
                rules_of(g[i as int]).take(k as int),
            ).len()
        },
        g[i as int].dependencies[imports_of(rules_of(g[i as int]).take(k as int)).len() as int]
            < g.len(),
{
    let rules = rules_of(g[i as int]);
    lemma_more_imports(rules, k as int);
    assert(rules.take(k as int + 1).drop_last() =~= rules.take(k as int));
    assert(rules.take(k as int + 1).last() == rules[k as int]);
}

/// More rules import no fewer files.
proof fn lemma_head_grows(g: Seq<EntryView>, i: u32, k: nat)
    requires
        k < rules_of(g[i as int]).len(),
    ensures
        imports_of(rules_of(g[i as int]).take(k as int)).len() <= imports_of(
            rules_of(g[i as int]).take(k as int + 1),
        ).len(),
{
    let rules = rules_of(g[i as int]);
    assert(rules.take(k as int + 1).drop_last() =~= rules.take(k as int));
}

/// Whether a file has nothing left to put in.
pub open spec fn hollow(e: EntryView) -> bool {
    &&& e.stylesheet is Some
    &&& rules_of(e).len() == 0
    &&& e.conditions == unconditional()
}

/// Putting in a file that has nothing left to put in does nothing.
proof fn lemma_hollow(s: Seq<EntryView>, i: u32, depth: nat)
    requires
        i < s.len(),
        hollow(s[i as int]),
    ensures
        inlined(s, i, depth) == (s, Seq::<RuleView>::empty()),
{
    if depth > 0 {
        let none = Seq::<RuleView>::empty();
        assert(rules_of(s[i as int]) =~= none);
        assert(head_end(none, 0) == 0);
        assert(own_rules(none) =~= none);
        assert(emptied(s[i as int]) == s[i as int]);
        assert(s.update(i as int, s[i as int]) =~= s);
        assert(inlined(s, i, depth).0 =~= s);
        assert(inlined(s, i, depth).1 =~= none);
    }
}

/// The first file is under no child.
proof fn lemma_first_file(g: Seq<EntryView>, c: u32)
    requires
        g.len() <= u32::MAX + 1,
        under(g, c, 0),
    ensures
        c == 0,
{
    let path = choose|path: Seq<u32>| #[trigger]
        is_path(children(g), path) && path.first() == c && path.last() == 0;
    if path.len() > 1 {
        assert(children(g)[path[path.len() - 2] as int].contains(path[path.len() - 1]));
        lemma_children(g, path[path.len() - 2], 0);
    }
}

/// Putting in a file whose tree is untouched puts in its tree, and touches nothing else.
proof fn lemma_inlined_tree(g: Seq<EntryView>, s: Seq<EntryView>, i: u32, depth: nat)
    requires
        ready(g),
        under(g, 0, i),
        i < g.len(),
        same_links(g, s),
        leads_back(g) ==> (if i == 0 {
            g[0].conditions == unconditional()
        } else {
            hollow(s[0])
        }),
        forall|q: u32| #[trigger] under(g, i, q) ==> s[q as int] == g[q as int],
    ensures
        inlined(s, i, depth).1 == tree(g, i, depth),
        same_links(g, inlined(s, i, depth).0),
        forall|q: u32|
            q < g.len() && !#[trigger] under(g, i, q) ==> inlined(s, i, depth).0[q as int]
                == s[q as int],
    decreases depth, 0nat,
{
    if depth > 0 {
        let rules = rules_of(g[i as int]);
        let taken = s.update(i as int, emptied(s[i as int]));
        let h = head_end(rules, 0);
        let inner = (depth - 1) as nat;
        lemma_reaches_itself(children(g), i);
        assert(under(g, i, i));
        lemma_head_end(rules, 0);
        lemma_inlined_head_tree(g, taken, i, h, inner);
        let after = inlined_head(taken, i, rules, h, inner).0;
        assert(!under_head(g, i, h, i)) by {
            if under_head(g, i, h, i) {
                let c = choose|c: u32| #[trigger]
                    child(g, i, c) && g[c as int].parent_dep_index < imports_of(
                        rules.take(h as int),
                    ).len() && under(g, c, i);
                lemma_no_cycle(g, i, c);
            }
        }
        assert(after[i as int] == taken[i as int]);
        assert forall|q: u32|
            q < g.len() && !#[trigger] under(g, i, q) implies inlined(s, i, depth).0[q as int]
            == s[q as int] by {
            if under_head(g, i, h, q) {
                let c = choose|c: u32| #[trigger]
                    child(g, i, c) && g[c as int].parent_dep_index < imports_of(
                        rules.take(h as int),
                    ).len() && under(g, c, q);
                lemma_child_under(g, i, c);
                lemma_reaches_on(children(g), i, c, q);
            }
        }
    }
}

/// The same of the first rules of a file.
proof fn lemma_inlined_head_tree(
    g: Seq<EntryView>,
    s: Seq<EntryView>,
    i: u32,
    k: nat,
    depth: nat,
)
    requires
        ready(g),
        under(g, 0, i),
        i < g.len(),
        k <= rules_of(g[i as int]).len(),
        same_links(g, s),
        leads_back(g) ==> hollow(s[0]),
        forall|q: u32| q != i && #[trigger] under(g, i, q) ==> s[q as int] == g[q as int],
    ensures
        ({
            let (after, out) = inlined_head(s, i, rules_of(g[i as int]), k, depth);
            &&& out == tree_head(g, i, k, depth)
            &&& same_links(g, after)
            &&& forall|q: u32|
                q < g.len() && !#[trigger] under_head(g, i, k, q) ==> after[q as int]
                    == s[q as int]
        }),
    decreases depth, k,
{
    let rules = rules_of(g[i as int]);
    if k > 0 {
        let p = (k - 1) as nat;
        lemma_inlined_head_tree(g, s, i, p, depth);
        let (before, out) = inlined_head(s, i, rules, p, depth);
        lemma_head_grows(g, i, p);
        if rules[p as int] is Import {
            lemma_import_at(g, i, p);
            let place = imports_of(rules.take(p as int)).len();
            assert(before[i as int].dependencies == g[i as int].dependencies);
            let to = g[i as int].dependencies[place as int];
            assert(before[to as int].parent_source_index == g[to as int].parent_source_index);
            assert(!under_head(g, i, p, 0)) by {
                if under_head(g, i, p, 0) {
                    let c = choose|c: u32| #[trigger]
                        child(g, i, c) && g[c as int].parent_dep_index < place && under(g, c, 0);
                    lemma_first_file(g, c);
                }
            }
            assert(before[0] == s[0]);
            if to == 0 && g[0].parent_source_index == i && g[0].parent_dep_index == place {
                lemma_hollow(before, 0, depth);
                assert(out + Seq::<RuleView>::empty() =~= out);
            }
            if import_at(g, i, p) is Some {
                assert(child(g, i, to));
                lemma_child_under(g, i, to);
                lemma_child_under_first(g, i, to);
                lemma_no_cycle(g, i, to);
                assert forall|q: u32| #[trigger] under(g, to, q) implies before[q as int]
                    == g[q as int] by {
                    lemma_reaches_on(children(g), i, to, q);
                    assert(under(g, i, q));
                    assert(q != i);
                    if under_head(g, i, p, q) {
                        let c = choose|c: u32| #[trigger]
                            child(g, i, c) && g[c as int].parent_dep_index < place && under(
                                g,
                                c,
                                q,
                            );
                        lemma_apart(g, i, c, to, q);
                    }
                    assert(q < g.len());
                }
                lemma_inlined_tree(g, before, to, depth);
                let after = inlined(before, to, depth).0;
                assert forall|q: u32|
                    q < g.len() && !#[trigger] under_head(g, i, k, q) implies after[q as int]
                    == s[q as int] by {
                    if under(g, to, q) {
                        assert(child(g, i, to));
                    }
                    if under_head(g, i, p, q) {
                        let c = choose|c: u32| #[trigger]
                            child(g, i, c) && g[c as int].parent_dep_index < place && under(
                                g,
                                c,
                                q,
                            );
                        assert(child(g, i, c));
                    }
                }
            }
        }
        let after = inlined_head(s, i, rules, k, depth).0;
        assert forall|q: u32| q < g.len() && !#[trigger] under_head(g, i, k, q) implies after[q as int]
            == s[q as int] by {
            if under_head(g, i, p, q) {
                let c = choose|c: u32| #[trigger]
                    child(g, i, c) && g[c as int].parent_dep_index < imports_of(
                        rules.take(p as int),
                    ).len() && under(g, c, q);
                assert(child(g, i, c));
            }
        }
    }
}

/// The rules of the bundle are those of the tree of its first file. Where the first file is
/// imported, it has to be without conditions.
pub proof fn law_bundle_is_tree(g: Seq<EntryView>)
    requires
        ready(g),
        g.len() > 0,
        leads_back(g) ==> g[0].conditions == unconditional(),
    ensures
        bundled_rules(g) == tree(g, 0, g.len() + 1),
{
    lemma_reaches_itself(children(g), 0);
    lemma_inlined_tree(g, g, 0, g.len() + 1);
}

/// A tree holds files that are under its first file, each of them once.
proof fn lemma_tree_files(g: Seq<EntryView>, i: u32, depth: nat)
    requires
        ready(g),
        under(g, 0, i),
        i < g.len(),
    ensures
        tree_files(g, i, depth).no_duplicates(),
        forall|q: u32| #[trigger] tree_files(g, i, depth).contains(q) ==> under(g, i, q),
    decreases depth, 0nat,
{
    if depth > 0 {
        let h = head_end(rules_of(g[i as int]), 0);
        let head = tree_files_head(g, i, h, (depth - 1) as nat);
        let list = tree_files(g, i, depth);
        lemma_head_end(rules_of(g[i as int]), 0);
        lemma_tree_files_head(g, i, h, (depth - 1) as nat);
        lemma_reaches_itself(children(g), i);
        assert(list == head.push(i));
        assert forall|q: u32| head.contains(q) implies q != i && under(g, i, q) by {
            assert(under_head(g, i, h, q));
            let c = choose|c: u32| #[trigger]
                child(g, i, c) && g[c as int].parent_dep_index < imports_of(
                    rules_of(g[i as int]).take(h as int),
                ).len() && under(g, c, q);
            lemma_no_cycle(g, i, c);
            lemma_child_under(g, i, c);
            lemma_reaches_on(children(g), i, c, q);
        }
        assert forall|q: u32| #[trigger] list.contains(q) implies under(g, i, q) by {
            let x = choose|x: int| 0 <= x < list.len() && list[x] == q;
            if x < head.len() {
                assert(head[x] == q);
                assert(head.contains(q));
            }
        }
        assert forall|x: int, y: int| 0 <= x < y < list.len() implies list[x] != list[y] by {
            if y < head.len() {
                assert(head[x] != head[y]);
            } else {
                assert(head.contains(head[x]));
            }
        }
    }
}

/// The same of the first rules of a file.
proof fn lemma_tree_files_head(g: Seq<EntryView>, i: u32, k: nat, depth: nat)
    requires
        ready(g),
        under(g, 0, i),
        i < g.len(),
        k <= rules_of(g[i as int]).len(),
    ensures
        tree_files_head(g, i, k, depth).no_duplicates(),
        forall|q: u32| #[trigger]
            tree_files_head(g, i, k, depth).contains(q) ==> under_head(g, i, k, q),
    decreases depth, k,
{
    if k > 0 {
        let p = (k - 1) as nat;
        let rules = rules_of(g[i as int]);
        let before = tree_files_head(g, i, p, depth);
        let list = tree_files_head(g, i, k, depth);
        lemma_tree_files_head(g, i, p, depth);
        lemma_head_grows(g, i, p);
        assert forall|q: u32| #[trigger] before.contains(q) implies under_head(g, i, k, q) by {
            assert(under_head(g, i, p, q));
            let c = choose|c: u32| #[trigger]
                child(g, i, c) && g[c as int].parent_dep_index < imports_of(
                    rules.take(p as int),
                ).len() && under(g, c, q);
            assert(child(g, i, c));
        }
        if rules[p as int] is Import && import_at(g, i, p) is Some {
            lemma_import_at(g, i, p);
            let to = import_at(g, i, p)->Some_0;
            let more = tree_files(g, to, depth);
            lemma_child_under_first(g, i, to);
            lemma_tree_files(g, to, depth);
            assert(list == before + more);
            assert forall|q: u32| #[trigger] list.contains(q) implies under_head(g, i, k, q) by {
                let x = choose|x: int| 0 <= x < list.len() && list[x] == q;
                if x < before.len() {
                    assert(before[x] == q);
                    assert(before.contains(q));
                } else {
                    assert(more[x - before.len()] == q);
                    assert(more.contains(q));
                    assert(child(g, i, to));
                }
            }
            assert forall|x: int, y: int| 0 <= x < y < list.len() implies list[x] != list[y] by {
                if y < before.len() {
                    assert(before[x] != before[y]);
                } else {
                    let q = more[y - before.len()];
                    assert(more.contains(q));
                    if x < before.len() {
                        assert(before.contains(before[x]));
                        if before[x] == q {
                            assert(under_head(g, i, p, q));
                            let c = choose|c: u32| #[trigger]
                                child(g, i, c) && g[c as int].parent_dep_index < imports_of(
                                    rules.take(p as int),
                                ).len() && under(g, c, q);
                            lemma_apart(g, i, c, to, q);
                        }
                    } else {
                        assert(more[x - before.len()] != q);
                    }
                }
            }
        }
    }
}

/// Whether each import that counts comes before the first rule that no import may stand behind.
pub open spec fn imports_first(g: Seq<EntryView>) -> bool {
    forall|p: u32, c: u32| #[trigger]
        child(g, p, c) ==> {
            let rules = rules_of(g[p as int]);
            g[c as int].parent_dep_index < imports_of(
                rules.take(head_end(rules, 0) as int),
            ).len()
        }
}

/// The tree of a file holds the trees of the files that it imports.
proof fn lemma_tree_holds_child(
    g: Seq<EntryView>,
    i: u32,
    k: nat,
    depth: nat,
    c: u32,
    q: u32,
)
    requires
        ready(g),
        child(g, i, c),
        k <= rules_of(g[i as int]).len(),
        g[c as int].parent_dep_index < imports_of(rules_of(g[i as int]).take(k as int)).len(),
        tree_files(g, c, depth).contains(q),
    ensures
        tree_files_head(g, i, k, depth).contains(q),
    decreases k,
{
    let rules = rules_of(g[i as int]);
    if k == 0 {
        assert(rules.take(0) =~= Seq::empty());
    } else {
        let p = (k - 1) as nat;
        let before = tree_files_head(g, i, p, depth);
        let list = tree_files_head(g, i, k, depth);
        assert(rules.take(k as int).drop_last() =~= rules.take(p as int));
        assert(rules.take(k as int).last() == rules[p as int]);
        if g[c as int].parent_dep_index < imports_of(rules.take(p as int)).len() {
            lemma_tree_holds_child(g, i, p, depth, c, q);
            let x = choose|x: int| 0 <= x < before.len() && before[x] == q;
            assert(list[x] == q);
        } else {
            assert(rules[p as int] is Import);
            lemma_import_at(g, i, p);
            assert(import_at(g, i, p) == Some(c));
            let more = tree_files(g, c, depth);
            assert(list == before + more);
            let x = choose|x: int| 0 <= x < more.len() && more[x] == q;
            assert(list[before.len() + x] == q);
        }
    }
}

/// A tree that may be deep enough holds each file that imports that count lead to.
proof fn lemma_tree_holds(g: Seq<EntryView>, path: Seq<u32>, depth: nat)
    requires
        ready(g),
        imports_first(g),
        is_path(children(g), path),
        path.len() <= depth,
    ensures
        tree_files(g, path.first(), depth).contains(path.last()),
    decreases path.len(),
{
    let i = path.first();
    let h = head_end(rules_of(g[i as int]), 0);
    let head = tree_files_head(g, i, h, (depth - 1) as nat);
    let list = tree_files(g, i, depth);
    assert(list == head.push(i));
    lemma_head_end(rules_of(g[i as int]), 0);
    if path.len() == 1 {
        assert(list[head.len() as int] == i);
    } else {
        let rest = path.drop_first();
        lemma_stretch(children(g), path, 1, path.len() as int);
        let c = path[1];
        assert(children(g)[path[0] as int].contains(c));
        lemma_children(g, i, c);
        lemma_tree_holds(g, rest, (depth - 1) as nat);
        lemma_tree_holds_child(g, i, h, (depth - 1) as nat, c, path.last());
        let x = choose|x: int| 0 <= x < head.len() && head[x] == path.last();
        assert(list[x] == path.last());
    }
}

/// A way from the first file along imports that count never comes to a file twice, so it is no
/// longer than there are files.
proof fn lemma_path_bound(g: Seq<EntryView>, path: Seq<u32>)
    requires
        g.len() <= u32::MAX + 1,
        is_path(children(g), path),
        path.first() == 0,
    ensures
        path.len() <= g.len(),
{
    assert(path.no_duplicates()) by {
        assert forall|a: int, b: int| 0 <= a < b < path.len() implies path[a] != path[b] by {
            lemma_stretch(children(g), path, a + 1, b + 1);
            assert(children(g)[path[a] as int].contains(path[a + 1]));
            lemma_children(g, path[a], path[a + 1]);
            lemma_stretch(children(g), path, 0, a + 1);
            lemma_no_way_back(g, path.subrange(0, a + 1), path[a + 1]);
            assert(under(g, path[a + 1], path[b]));
        }
    }
    path.unique_seq_to_set();
    assert(path.to_set().subset_of(files(g.len()))) by {
        assert forall|q: u32| path.to_set().contains(q) implies files(g.len()).contains(q) by {
            let x = choose|x: int| 0 <= x < path.len() && path[x] == q;
            assert(path[x] < g.len());
        }
    }
    lemma_all_files(g.len(), path.to_set());
}

/// Where the imports that count come first in their files, the tree of the first file holds
/// exactly the files that imports that count lead to, each once.
pub proof fn law_tree_holds_each_file_once(g: Seq<EntryView>)
    requires
        ready(g),
        g.len() > 0,
        imports_first(g),
    ensures
        tree_files(g, 0, g.len() + 1).no_duplicates(),
        forall|q: u32| #[trigger] tree_files(g, 0, g.len() + 1).contains(q) <==> under(g, 0, q),
{
    lemma_reaches_itself(children(g), 0);
    lemma_tree_files(g, 0, g.len() + 1);
    assert forall|q: u32| under(g, 0, q) implies #[trigger] tree_files(
        g,
        0,
        g.len() + 1,
    ).contains(q) by {
        let path = choose|path: Seq<u32>| #[trigger]
            is_path(children(g), path) && path.first() == 0 && path.last() == q;
        lemma_path_bound(g, path);
        lemma_tree_holds(g, path, g.len() + 1);
    }
}

/// The plain rules of a file that are in force.
pub open spec fn file_in_force(
    e: EntryView,
    medium: Medium,
    supported: spec_fn(ConditionView) -> bool,
) -> Seq<PlainView> {
    if applies(e.conditions.media, e.conditions.supports, medium, supported) {
        in_force(rules_of(e), medium, supported)
    } else {
        Seq::empty()
    }
}

/// The plain rules of several files that are in force, file after file.
pub open spec fn files_in_force(
    g: Seq<EntryView>,
    list: Seq<u32>,
    medium: Medium,
    supported: spec_fn(ConditionView) -> bool,
) -> Seq<PlainView>
    decreases list.len(),
{
    if list.len() == 0 {
        Seq::empty()
    } else {
        files_in_force(g, list.drop_last(), medium, supported) + file_in_force(
            g[list.last() as int],
            medium,
            supported,
        )
    }
}

/// Two lists of files one after the other.
proof fn lemma_files_in_force_joined(
    g: Seq<EntryView>,
    a: Seq<u32>,
    b: Seq<u32>,
    medium: Medium,
    supported: spec_fn(ConditionView) -> bool,
)
    ensures
        files_in_force(g, a + b, medium, supported) == files_in_force(g, a, medium, supported)
            + files_in_force(g, b, medium, supported),
    decreases b.len(),
{
    if b.len() == 0 {
        assert(a + b =~= a);
        assert(files_in_force(g, a + b, medium, supported) =~= files_in_force(
            g,
            a,
            medium,
            supported,
        ) + files_in_force(g, b, medium, supported));
    } else {
        assert((a + b).drop_last() =~= a + b.drop_last());
        lemma_files_in_force_joined(g, a, b.drop_last(), medium, supported);
        assert(files_in_force(g, a + b, medium, supported) =~= files_in_force(
            g,
            a,
            medium,
            supported,
        ) + files_in_force(g, b, medium, supported));
    }
}

/// A tree puts in force, file after file, the rules of each of its files whose conditions apply.
pub proof fn law_tree_in_force(
    g: Seq<EntryView>,
    i: u32,
    depth: nat,
    medium: Medium,
    supported: spec_fn(ConditionView) -> bool,
)
    ensures
        in_force(tree(g, i, depth), medium, supported) == files_in_force(
            g,
            tree_files(g, i, depth),
            medium,
            supported,
        ),
    decreases depth, 0nat,
{
    if depth > 0 {
        let e = g[i as int];
        let h = head_end(rules_of(e), 0);
        let inner = (depth - 1) as nat;
        let head = tree_head(g, i, h, inner);
        let own = wrapped(own_rules(rules_of(e)), e.conditions, e.loc);
        lemma_tree_head_in_force(g, i, h, inner, medium, supported);
        lemma_in_force_joined(head, own, medium, supported);
        law_wrapped_rules_apply(own_rules(rules_of(e)), e.conditions, e.loc, medium, supported);
        lemma_own_rules_in_force(rules_of(e), medium, supported);
        let list = tree_files(g, i, depth);
        assert(list.drop_last() =~= tree_files_head(g, i, h, inner));
    } else {
        assert(in_force(tree(g, i, depth), medium, supported) =~= Seq::empty());
        assert(files_in_force(g, tree_files(g, i, depth), medium, supported) =~= Seq::empty());
    }
}

/// The same of the first rules of a file.
proof fn lemma_tree_head_in_force(
    g: Seq<EntryView>,
    i: u32,
    k: nat,
    depth: nat,
    medium: Medium,
    supported: spec_fn(ConditionView) -> bool,
)
    ensures
        in_force(tree_head(g, i, k, depth), medium, supported) == files_in_force(
            g,
            tree_files_head(g, i, k, depth),
            medium,
            supported,
        ),
    decreases depth, k,
{
    if k > 0 {
        let p = (k - 1) as nat;
        let rules = rules_of(g[i as int]);
        let before = tree_head(g, i, p, depth);
        lemma_tree_head_in_force(g, i, p, depth, medium, supported);
        match rules[p as int] {
            RuleView::Import(_) => {
                if let Some(to) = import_at(g, i, p) {
                    law_tree_in_force(g, to, depth, medium, supported);
                    lemma_in_force_joined(before, tree(g, to, depth), medium, supported);
                    lemma_files_in_force_joined(
                        g,
                        tree_files_head(g, i, p, depth),
                        tree_files(g, to, depth),
                        medium,
                        supported,
                    );
                }
            },
            RuleView::LayerStatement { .. } => {
                let list = before.push(rules[p as int]);
                assert(list.drop_last() =~= before);
                assert(rule_in_force(rules[p as int], medium, supported) =~= Seq::empty());
                assert(in_force(list, medium, supported) =~= in_force(before, medium, supported));
            },
            _ => {},
        }
    } else {
        assert(in_force(tree_head(g, i, k, depth), medium, supported) =~= Seq::empty());
        assert(files_in_force(g, tree_files_head(g, i, k, depth), medium, supported)
            =~= Seq::empty());
    }
}

/// Where the rules of each file lie in it, each rule that files put in force comes from the file
/// that its place names.
pub proof fn law_rules_come_from_their_files(
    g: Seq<EntryView>,
    list: Seq<u32>,
    medium: Medium,
    supported: spec_fn(ConditionView) -> bool,
)
    requires
        forall|q: int|
            0 <= q < list.len() ==> located(rules_of(g[#[trigger] list[q] as int]), list[q]),
    ensures
        ({
            let rules = files_in_force(g, list, medium, supported);
            forall|k: int|
                0 <= k < rules.len() ==> {
                    let j = (#[trigger] rules[k]).loc.source_index;
                    &&& list.contains(j)
                    &&& file_in_force(g[j as int], medium, supported).contains(rules[k])
                }
        }),
    decreases list.len(),
{
    if list.len() > 0 {
        let front = list.drop_last();
        let j = list.last();
        let before = files_in_force(g, front, medium, supported);
        let own = file_in_force(g[j as int], medium, supported);
        let rules = files_in_force(g, list, medium, supported);
        assert(list[list.len() - 1] == j);
        assert forall|q: int| 0 <= q < front.len() implies located(
            rules_of(g[#[trigger] front[q] as int]),
            front[q],
        ) by {
            assert(front[q] == list[q]);
        }
        law_rules_come_from_their_files(g, front, medium, supported);
        lemma_located(rules_of(g[j as int]), j, medium, supported);
        assert forall|k: int| 0 <= k < rules.len() implies {
            let j = (#[trigger] rules[k]).loc.source_index;
            &&& list.contains(j)
            &&& file_in_force(g[j as int], medium, supported).contains(rules[k])
        } by {
            if k < before.len() {
                assert(rules[k] == before[k]);
                let i = before[k].loc.source_index;
                assert(front.contains(i));
                let q = choose|q: int| 0 <= q < front.len() && front[q] == i;
                assert(list[q] == i);
            } else {
                assert(rules[k] == own[k - before.len()]);
                assert(own.contains(own[k - before.len()]));
            }
        }
    }
}

/// Whether two states of the files differ in layers alone.
pub open spec fn same_but_layers(g: Seq<EntryView>, t: Seq<EntryView>) -> bool {
    &&& g.len() == t.len()
    &&& forall|j: int|
        0 <= j < g.len() ==> #[trigger] t[j] == (EntryView {
            conditions: ConditionsView {
                layer: t[j].conditions.layer,
                ..g[j].conditions
            },
            ..g[j]
        })
}

/// The layers of files do not matter to what they put in force.
proof fn lemma_layers_in_force(
    g: Seq<EntryView>,
    t: Seq<EntryView>,
    i: u32,
    depth: nat,
    medium: Medium,
    supported: spec_fn(ConditionView) -> bool,
)
    requires
        ready(g),
        i < g.len(),
        same_but_layers(g, t),
    ensures
        same_but_layers(inlined(g, i, depth).0, inlined(t, i, depth).0),
        in_force(inlined(g, i, depth).1, medium, supported) == in_force(
            inlined(t, i, depth).1,
            medium,
            supported,
        ),
    decreases depth, 0nat,
{
    if depth > 0 {
        let rules = rules_of(g[i as int]);
        assert(rules_of(t[i as int]) == rules);
        let h = head_end(rules, 0);
        let inner = (depth - 1) as nat;
        let a = g.update(i as int, emptied(g[i as int]));
        let b = t.update(i as int, emptied(t[i as int]));
        lemma_head_end(rules, 0);
        assert(ready(a));
        assert(same_but_layers(a, b));
        lemma_layers_in_head(a, b, i, rules, h, inner, medium, supported);
        lemma_inlined_head(a, i, rules, h, inner);
        let (x, out) = inlined_head(a, i, rules, h, inner);
        let (y, more) = inlined_head(b, i, rules, h, inner);
        let own = own_rules(rules);
        let c = x[i as int].conditions;
        let d = y[i as int].conditions;
        let loc = x[i as int].loc;
        assert(y[i as int].loc == loc);
        lemma_in_force_joined(out, wrapped(own, c, loc), medium, supported);
        lemma_in_force_joined(more, wrapped(own, d, loc), medium, supported);
        law_wrapped_rules_apply(own, c, loc, medium, supported);
        law_wrapped_rules_apply(own, d, loc, medium, supported);
    }
}

/// The same of the first rules of a file.
proof fn lemma_layers_in_head(
    g: Seq<EntryView>,
    t: Seq<EntryView>,
    i: u32,
    rules: Seq<RuleView>,
    k: nat,
    depth: nat,
    medium: Medium,
    supported: spec_fn(ConditionView) -> bool,
)
    requires
        ready(g),
        i < g.len(),
        k <= rules.len(),
        imports_of(rules).len() <= g[i as int].dependencies.len(),
        same_but_layers(g, t),
    ensures
        same_but_layers(
            inlined_head(g, i, rules, k, depth).0,
            inlined_head(t, i, rules, k, depth).0,
        ),
        in_force(inlined_head(g, i, rules, k, depth).1, medium, supported) == in_force(
            inlined_head(t, i, rules, k, depth).1,
            medium,
            supported,
        ),
    decreases depth, k,
{
    if k > 0 {
        let p = (k - 1) as nat;
        lemma_layers_in_head(g, t, i, rules, p, depth, medium, supported);
        lemma_inlined_head(g, i, rules, p, depth);
        let (x, out) = inlined_head(g, i, rules, p, depth);
        let (y, more) = inlined_head(t, i, rules, p, depth);
        match rules[p as int] {
            RuleView::Import(_) => {
                lemma_more_imports(rules, p as int);
                let place = imports_of(rules.take(p as int)).len();
                assert(x[i as int].dependencies == g[i as int].dependencies);
                assert(y[i as int].dependencies == x[i as int].dependencies);
                let to = x[i as int].dependencies[place as int];
                assert(to < x.len());
                let e = x[to as int];
                assert(y[to as int].parent_source_index == e.parent_source_index);
                if e.parent_source_index == i && e.parent_dep_index == place {
                    lemma_layers_in_force(x, y, to, depth, medium, supported);
                    lemma_in_force_joined(out, inlined(x, to, depth).1, medium, supported);
                    lemma_in_force_joined(more, inlined(y, to, depth).1, medium, supported);
                }
            },
            RuleView::LayerStatement { .. } => {
                assert(out.push(rules[p as int]).drop_last() =~= out);
                assert(more.push(rules[p as int]).drop_last() =~= more);
            },
            _ => {},
        }
    }
}

/// The layers of files do not matter to which files a tree holds.
proof fn lemma_layers_in_tree(g: Seq<EntryView>, t: Seq<EntryView>, i: u32, depth: nat)
    requires
        ready(g),
        i < g.len(),
        same_but_layers(g, t),
    ensures
        tree_files(g, i, depth) == tree_files(t, i, depth),
    decreases depth, 0nat,
{
    if depth > 0 {
        let rules = rules_of(g[i as int]);
        assert(rules_of(t[i as int]) == rules);
        lemma_head_end(rules, 0);
        lemma_layers_in_tree_head(g, t, i, head_end(rules, 0), (depth - 1) as nat);
    }
}

/// The same of the first rules of a file.
proof fn lemma_layers_in_tree_head(
    g: Seq<EntryView>,
    t: Seq<EntryView>,
    i: u32,
    k: nat,
    depth: nat,
)
    requires
        ready(g),
        i < g.len(),
        k <= rules_of(g[i as int]).len(),
        same_but_layers(g, t),
    ensures
        tree_files_head(g, i, k, depth) == tree_files_head(t, i, k, depth),
    decreases depth, k,
{
    if k > 0 {
        let p = (k - 1) as nat;
        lemma_layers_in_tree_head(g, t, i, p, depth);
        assert(rules_of(t[i as int]) == rules_of(g[i as int]));
        if rules_of(g[i as int])[p as int] is Import {
            lemma_import_at(g, i, p);
            assert(t[i as int].dependencies == g[i as int].dependencies);
            let place = imports_of(rules_of(g[i as int]).take(p as int)).len();
            let to = g[i as int].dependencies[place as int];
            assert(t[to as int].parent_source_index == g[to as int].parent_source_index);
            if import_at(g, i, p) is Some {
                lemma_layers_in_tree(g, t, to, depth);
            }
        }
    }
}

/// The layers of files do not matter to what a list of them puts in force.
proof fn lemma_layers_of_files(
    g: Seq<EntryView>,
    t: Seq<EntryView>,
    list: Seq<u32>,
    medium: Medium,
    supported: spec_fn(ConditionView) -> bool,
)
    requires
        same_but_layers(g, t),
        forall|q: int| 0 <= q < list.len() ==> #[trigger] list[q] < g.len(),
    ensures
        files_in_force(g, list, medium, supported) == files_in_force(t, list, medium, supported),
    decreases list.len(),
{
    if list.len() > 0 {
        let front = list.drop_last();
        assert forall|q: int| 0 <= q < front.len() implies #[trigger] front[q] < g.len() by {
            assert(list[q] < g.len());
        }
        lemma_layers_of_files(g, t, front, medium, supported);
        assert(list[list.len() - 1] < g.len());
        assert(rules_of(t[list.last() as int]) == rules_of(g[list.last() as int]));
    }
}

/// The bundle puts in force, file after file, the rules of each of the files of its tree whose
/// conditions apply. Where the first file is imported, it has to apply everywhere.
pub proof fn law_bundle_in_force(
    g: Seq<EntryView>,
    medium: Medium,
    supported: spec_fn(ConditionView) -> bool,
)
    requires
        ready(g),
        g.len() > 0,
        leads_back(g) ==> plain(g[0]),
    ensures
        in_force(bundled_rules(g), medium, supported) == files_in_force(
            g,
            tree_files(g, 0, g.len() + 1),
            medium,
            supported,
        ),
{
    let depth = g.len() + 1;
    let list = tree_files(g, 0, depth);
    if leads_back(g) {
        let t = g.update(
            0,
            EntryView {
                conditions: ConditionsView { layer: None, ..g[0].conditions },
                ..g[0]
            },
        );
        assert(same_but_layers(g, t));
        assert(t[0].conditions =~= unconditional());
        assert(ready(t)) by {
            assert forall|i: int| 0 <= i < t.len() implies (#[trigger] t[i]).stylesheet is Some
                && imports_of(rules_of(t[i])).len() <= t[i].dependencies.len() by {
                assert(g[i].stylesheet is Some);
                assert(rules_of(t[i]) == rules_of(g[i]));
            }
            assert forall|i: int, d: int|
                0 <= i < t.len() && 0 <= d
                    < t[i].dependencies.len() implies #[trigger] t[i].dependencies[d]
                < t.len() by {
                assert(g[i].dependencies[d] < g.len());
            }
        }
        lemma_layers_in_force(g, t, 0, depth, medium, supported);
        lemma_layers_in_tree(g, t, 0, depth);
        law_bundle_is_tree(t);
        law_tree_in_force(t, 0, depth, medium, supported);
        lemma_reaches_itself(children(g), 0);
        lemma_tree_files(g, 0, depth);
        assert forall|q: int| 0 <= q < list.len() implies #[trigger] list[q] < g.len() by {
            assert(list.contains(list[q]));
            let path = choose|path: Seq<u32>| #[trigger]
                is_path(children(g), path) && path.first() == 0 && path.last() == list[q];
            assert(path[path.len() - 1] < g.len());
        }
        lemma_layers_of_files(g, t, list, medium, supported);
    } else {
        law_bundle_is_tree(g);
        law_tree_in_force(g, 0, depth, medium, supported);
    }
}

} // verus!
