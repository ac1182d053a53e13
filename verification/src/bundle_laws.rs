//! What holds of a bundle as a whole.
use crate::bundle_state::{entered, has_path, lemma_entered, with_source, Entered, StateView};
use crate::bundler::{
    all_sources, bundled, bundles, entry_rule, lemma_same_sources, linked, sources_of, spent,
};
use crate::conditions::{applies, law_merged_is_disjunction, law_nested_is_conjunction, nested};
use crate::entry::{EntryView, StyleSheetView};
use crate::error::{BundleErrorView, ErrorView};
use crate::in_force::in_force;
use crate::inline::{
    bundled_rules, emptied, head_end, law_put_in_once, lemma_inlined, own_rules, ready, rules_of,
    unconditional,
};
use crate::load::{
    answer_imports, answers, complete, imported, imports_of, law_loaded, lemma_imported, loaded,
    plain, ImportReply, Reply, SourceProvider, StyleSheetParser,
};
use crate::media::Medium;
use crate::order::{
    countable, dependencies_of, in_range, law_imports_that_count_lead_to_all, lemma_ordered,
    lemma_ordered_ready, ordered,
};
use crate::path::{has_components, PathView};
use crate::reach::{
    is_path, lemma_reaches_import, lemma_reaches_itself, lemma_reaches_on, lemma_reaches_still,
    reachable,
};
use crate::rules::{ImportView, RuleView};
use crate::supports::ConditionView;
use crate::tree::{
    child, children, files_in_force, imports_first, law_bundle_in_force, law_bundle_is_tree,
    law_tree_holds_each_file_once, leads_back, lemma_children, tree, tree_files, under,
};
use vstd::prelude::*;

verus! {

/// What is under a file is what imports lead to.
proof fn lemma_under_reachable(entries: Seq<EntryView>, i: u32, j: u32)
    requires
        entries.len() <= u32::MAX + 1,
        under(ordered(entries), i, j),
    ensures
        reachable(dependencies_of(entries), i, j),
{
    let g = ordered(entries);
    let deps = dependencies_of(entries);
    let path = choose|path: Seq<u32>| #[trigger]
        is_path(children(g), path) && path.first() == i && path.last() == j;
    lemma_ordered(entries);
    assert forall|k: int| 0 < k < path.len() implies deps[path[k - 1] as int].contains(
        #[trigger] path[k],
    ) by {
        assert(path[k - 1] < g.len());
        assert(children(g)[path[k - 1] as int].contains(path[k]));
        lemma_children(g, path[k - 1], path[k]);
        lemma_child_imported(entries, path[k - 1], path[k]);
    }
    assert forall|k: int| 0 <= k < path.len() implies #[trigger] path[k] < deps.len() by {
        assert(path[k] < children(g).len());
    }
    assert(is_path(deps, path));
}

/// A file whose import that counts stands in another is imported by that one.
proof fn lemma_child_imported(entries: Seq<EntryView>, p: u32, c: u32)
    requires
        child(ordered(entries), p, c),
    ensures
        dependencies_of(entries)[p as int].contains(c),
{
    let g = ordered(entries);
    lemma_ordered(entries);
    assert(g[p as int].dependencies == entries[p as int].dependencies);
    assert(dependencies_of(entries)[p as int][g[c as int].parent_dep_index as int] == c);
}

/// Where the imports that count come first in their files, the bundle holds each file that imports
/// lead to from the first one, exactly once, and puts in force, file after file, the rules of each
/// file whose conditions apply; for this, where the first file is imported, it has to apply
/// everywhere. Each file stands behind those that it imports by an import that counts, in the
/// blocks of its conditions; for this, where the first file is imported, it has to be without a
/// layer too.
pub proof fn law_bundle_holds_every_file(
    entries: Seq<EntryView>,
    medium: Medium,
    supported: spec_fn(ConditionView) -> bool,
)
    requires
        entries.len() > 0,
        ready(entries),
        countable(dependencies_of(entries)),
        imports_first(ordered(entries)),
    ensures
        ({
            let g = ordered(entries);
            let list = tree_files(g, 0, g.len() + 1);
            &&& list.no_duplicates()
            &&& forall|j: u32| #[trigger]
                list.contains(j) <==> reachable(dependencies_of(entries), 0, j)
            &&& (leads_back(g) ==> plain(entries[0])) ==> in_force(
                linked(entries).rules,
                medium,
                supported,
            ) == files_in_force(entries, list, medium, supported)
            &&& (leads_back(g) ==> entries[0].conditions == unconditional())
                ==> linked(entries).rules == tree(g, 0, g.len() + 1)
        }),
{
    let g = ordered(entries);
    let list = tree_files(g, 0, g.len() + 1);
    assert(in_range(dependencies_of(entries)));
    lemma_ordered(entries);
    lemma_ordered_ready(entries);
    if leads_back(g) ==> entries[0].conditions == unconditional() {
        law_bundle_is_tree(g);
    }
    law_tree_holds_each_file_once(g);
    assert forall|j: u32| #[trigger]
        list.contains(j) <==> reachable(dependencies_of(entries), 0, j) by {
        if list.contains(j) {
            lemma_under_reachable(entries, 0, j);
        }
        if reachable(dependencies_of(entries), 0, j) {
            law_imports_that_count_lead_to_all(entries, j);
        }
    }
    if leads_back(g) ==> plain(entries[0]) {
        law_bundle_in_force(g, medium, supported);
    }
    assert forall|q: int| 0 <= q < list.len() implies #[trigger] list[q] < g.len() by {
        assert(list.contains(list[q]));
        lemma_reachable_file(dependencies_of(entries), 0, list[q]);
    }
    lemma_same_files_in_force(g, entries, list, medium, supported);
}

/// What a bundle is made of: the files that are there once its file is loaded. Where the file
/// cannot be loaded, that is reported, and the files stay as they are.
pub proof fn law_bundle_is_made_of_loaded_files<P: SourceProvider, T: StyleSheetParser>(
    fs: P,
    parser: T,
    st: StateView,
    entry: Seq<char>,
    file: PathView,
    reply: Reply,
    after: StateView,
    r: Result<StyleSheetView, ErrorView<BundleErrorView>>,
)
    requires
        bundles(fs, parser, st, entry, file, reply, after, r),
    ensures
        ({
            let (last, index) = loaded(st, file, entry_rule(), reply);
            &&& file.is_path(entry)
            &&& answers(fs, parser, st, file, entry_rule(), reply)
            &&& index matches Err(e) ==> r == Err::<StyleSheetView, ErrorView<BundleErrorView>>(e)
                && after == last
            &&& index is Ok ==> {
                &&& r matches Ok(sheet) && sheet.sources == all_sources(last.entries) && sheet.rules
                    == bundled_rules(ordered(last.entries))
                &&& after.indexes == last.indexes
                &&& after.source_map == last.source_map
            }
        }),
{
}

/// The sources of a bundle are those of its files, in the order of their indexes.
pub proof fn law_sources(a: Seq<EntryView>, b: Seq<EntryView>, e: EntryView)
    ensures
        all_sources(Seq::empty()) == Seq::<Seq<char>>::empty(),
        e.stylesheet matches Some(sheet) ==> all_sources(seq![e]) == sheet.sources,
        all_sources(a + b) == all_sources(a) + all_sources(b),
    decreases b.len(),
{
    assert(seq![e].drop_last() =~= Seq::empty());
    if let Some(sheet) = e.stylesheet {
        assert(all_sources(seq![e].drop_last()) =~= Seq::empty());
        assert(all_sources(seq![e]) =~= sheet.sources);
    }
    if b.len() > 0 {
        law_sources(a, b.drop_last(), e);
        assert((a + b).drop_last() =~= a + b.drop_last());
        assert(all_sources(a + b) =~= all_sources(a) + all_sources(b));
    } else {
        assert(a + b =~= a);
        assert(all_sources(a + b) =~= all_sources(a) + all_sources(b));
    }
}

/// The rules of files go into one bundle only: a second bundle of the same files has the same
/// sources, and no rules.
pub proof fn law_second_bundle_is_empty(entries: Seq<EntryView>)
    requires
        entries.len() > 0,
        ready(entries),
    ensures
        linked(spent(entries)).rules == Seq::<RuleView>::empty(),
        linked(spent(entries)).sources == linked(entries).sources,
        spent(entries).len() == entries.len(),
        ready(spent(entries)),
        forall|j: int|
            0 <= j < entries.len() ==> {
                let e = #[trigger] spent(entries)[j];
                &&& e.file == entries[j].file
                &&& e.dependencies == entries[j].dependencies
            },
{
    let g = ordered(entries);
    let left = spent(entries);
    lemma_ordered(entries);
    lemma_ordered_ready(entries);
    lemma_inlined(g, 0, entries.len() + 1);
    law_put_in_once(g, 0, entries.len() + 1, 0);
    let h = ordered(left);
    lemma_ordered(left);
    let none = Seq::<RuleView>::empty();
    assert(h[0].stylesheet == left[0].stylesheet);
    assert(rules_of(h[0]) =~= none);
    assert(h[0].conditions == unconditional());
    assert(head_end(none, 0) == 0);
    assert(own_rules(none) =~= none);
    assert(bundled_rules(h) =~= none);
    assert forall|i: int| 0 <= i < left.len() implies sources_of(#[trigger] left[i])
        == sources_of(entries[i]) by {
        assert(g[i].stylesheet == entries[i].stylesheet);
        assert(left[i].stylesheet == g[i].stylesheet || left[i].stylesheet == emptied(
            g[i],
        ).stylesheet);
    }
    lemma_same_sources(left, entries);
}

/// Imports lead to files.
proof fn lemma_reachable_file(deps: Seq<Seq<u32>>, i: u32, j: u32)
    requires
        reachable(deps, i, j),
    ensures
        j < deps.len(),
{
    let path = choose|path: Seq<u32>| #[trigger]
        is_path(deps, path) && path.first() == i && path.last() == j;
    assert(path[path.len() - 1] < deps.len());
}

/// Which import of a file counts does not touch what the file puts in force.
proof fn lemma_same_files_in_force(
    a: Seq<EntryView>,
    b: Seq<EntryView>,
    list: Seq<u32>,
    medium: Medium,
    supported: spec_fn(ConditionView) -> bool,
)
    requires
        a == ordered(b),
        forall|q: int| 0 <= q < list.len() ==> #[trigger] list[q] < b.len(),
    ensures
        files_in_force(a, list, medium, supported) == files_in_force(b, list, medium, supported),
    decreases list.len(),
{
    if list.len() > 0 {
        let front = list.drop_last();
        lemma_ordered(b);
        assert forall|q: int| 0 <= q < front.len() implies #[trigger] front[q] < b.len() by {
            assert(list[q] < b.len());
        }
        lemma_same_files_in_force(a, b, front, medium, supported);
        assert(list[list.len() - 1] < b.len());
    }
}

/// Imports lead from a file that has been loaded to each file that came with it.
pub proof fn law_loaded_files_are_reachable<P: SourceProvider, T: StyleSheetParser>(
    fs: P,
    parser: T,
    st: StateView,
    file: PathView,
    rule: ImportView,
    reply: Reply,
)
    requires
        st.wf(),
        st.has_place(rule.loc),
        answers(fs, parser, st, file, rule, reply),
        loaded(st, file, rule, reply).1 is Ok,
    ensures
        ({
            let (after, r) = loaded(st, file, rule, reply);
            forall|j: u32|
                st.entries.len() <= j < after.entries.len() ==> #[trigger] reachable(
                    dependencies_of(after.entries),
                    r->Ok_0,
                    j,
                )
        }),
    decreases reply, 1int,
{
    let (found, place) = entered(st, file, rule);
    lemma_entered(st, file, rule);
    if let Ok(Entered::New(index)) = place {
        if let Reply::Parsed { code, rules, imports } = reply {
            let list = imports_of(rules);
            let read = with_source(found, file.text, code);
            assert(read.wf());
            lemma_imported(fs, parser, read, file, index, rule, list, imports, list.len());
            lemma_imported_reachable(
                fs,
                parser,
                read,
                file,
                index,
                rule,
                list,
                imports,
                list.len(),
            );
            let (last, dependencies) = imported(read, index, rule, list, imports, list.len());
            let d = dependencies->Ok_0;
            let after = loaded(st, file, rule, reply).0;
            let a = dependencies_of(last.entries);
            let b = dependencies_of(after.entries);
            assert(last.entries[index as int].dependencies
                == read.entries[index as int].dependencies);
            assert(b =~= a.update(index as int, d));
            lemma_reaches_itself(b, index);
            assert forall|j: u32|
                st.entries.len() <= j < after.entries.len() implies #[trigger] reachable(
                b,
                index,
                j,
            ) by {
                if j != index {
                    assert(reached(a, d, j));
                    let k = choose|k: int| 0 <= k < d.len() && #[trigger] reachable(a, d[k], j);
                    lemma_reaches_still(a, b, d[k], j);
                    assert(d[k] < last.entries.len());
                    assert(b[index as int].contains(d[k]));
                    lemma_reaches_import(b, index, d[k]);
                    lemma_reaches_on(b, index, d[k], j);
                }
            }
        }
    }
}

/// Whether imports lead from one of the files of a list to file `j`.
spec fn reached(deps: Seq<Seq<u32>>, list: Seq<u32>, j: u32) -> bool {
    exists|k: int| 0 <= k < list.len() && #[trigger] reachable(deps, list[k], j)
}

/// The same of the first imports of a file.
proof fn lemma_imported_reachable<P: SourceProvider, T: StyleSheetParser>(
    fs: P,
    parser: T,
    st: StateView,
    file: PathView,
    index: u32,
    rule: ImportView,
    imports: Seq<ImportView>,
    replies: Seq<ImportReply>,
    n: nat,
)
    requires
        st.wf(),
        index < st.entries.len(),
        n <= replies.len(),
        answer_imports(fs, parser, st, file, index, rule, imports, replies, n),
        imported(st, index, rule, imports, replies, n).1 is Ok,
    ensures
        ({
            let (after, r) = imported(st, index, rule, imports, replies, n);
            forall|j: u32|
                st.entries.len() <= j < after.entries.len() ==> #[trigger] reached(
                    dependencies_of(after.entries),
                    r->Ok_0,
                    j,
                )
        }),
    decreases replies, n,
{
    if n > 0 {
        let p = (n - 1) as nat;
        let (before, others) = imported(st, index, rule, imports, replies, p);
        lemma_imported(fs, parser, st, file, index, rule, imports, replies, p);
        lemma_imported_reachable(fs, parser, st, file, index, rule, imports, replies, p);
        let inner = nested(rule, imports[n - 1], index)->Ok_0;
        let answer = replies[n - 1];
        law_loaded(fs, parser, before, answer.file, inner, answer.reply);
        law_loaded_files_are_reachable(fs, parser, before, answer.file, inner, answer.reply);
        let (after, r) = imported(st, index, rule, imports, replies, n);
        let a = dependencies_of(before.entries);
        let b = dependencies_of(after.entries);
        let list = others->Ok_0;
        let more = r->Ok_0;
        assert forall|j: u32| st.entries.len() <= j < after.entries.len() implies #[trigger] reached(
            b,
            more,
            j,
        ) by {
            if j < before.entries.len() {
                assert(reached(a, list, j));
                let k = choose|k: int| 0 <= k < list.len() && #[trigger] reachable(a, list[k], j);
                assert forall|m: int| 0 <= m < a.len() && a[m].len() > 0 implies #[trigger] b[m]
                    == a[m] by {
                    assert(after.entries[m].dependencies == before.entries[m].dependencies);
                }
                lemma_reaches_still(a, b, list[k], j);
                assert(more[k] == list[k]);
                assert(reachable(b, more[k], j));
            } else {
                assert(reachable(b, more[p as int], j));
            }
        }
    }
}

/// Whether a file applies.
pub open spec fn file_applies(
    e: EntryView,
    medium: Medium,
    supported: spec_fn(ConditionView) -> bool,
) -> bool {
    applies(e.conditions.media, e.conditions.supports, medium, supported)
}

/// Once a file is loaded under an import, it applies wherever the import does; each other file
/// applies wherever it did before, and beyond that at most where the import does.
pub proof fn law_loaded_files_apply<P: SourceProvider, T: StyleSheetParser>(
    fs: P,
    parser: T,
    st: StateView,
    file: PathView,
    rule: ImportView,
    reply: Reply,
    medium: Medium,
    supported: spec_fn(ConditionView) -> bool,
)
    requires
        st.wf(),
        st.has_place(rule.loc),
        answers(fs, parser, st, file, rule, reply),
        loaded(st, file, rule, reply).1 is Ok,
    ensures
        ({
            let (after, r) = loaded(st, file, rule, reply);
            let here = applies(rule.media, rule.supports, medium, supported);
            &&& here ==> file_applies(after.entries[r->Ok_0 as int], medium, supported)
            &&& forall|j: int|
                0 <= j < st.entries.len() && file_applies(st.entries[j], medium, supported)
                    ==> file_applies(#[trigger] after.entries[j], medium, supported)
            &&& forall|j: int|
                0 <= j < after.entries.len() && file_applies(
                    #[trigger] after.entries[j],
                    medium,
                    supported,
                ) ==> here || (j < st.entries.len() && file_applies(
                    st.entries[j],
                    medium,
                    supported,
                ))
        }),
    decreases reply, 1int,
{
    let (found, place) = entered(st, file, rule);
    lemma_entered(st, file, rule);
    match place {
        Ok(Entered::Loaded(index)) => {
            law_merged_is_disjunction(
                st.entries[index as int].conditions,
                rule,
                medium,
                supported,
            );
        },
        Ok(Entered::New(index)) => {
            if let Reply::Parsed { code, rules, imports } = reply {
                let list = imports_of(rules);
                let read = with_source(found, file.text, code);
                assert(read.wf());
                lemma_imported(fs, parser, read, file, index, rule, list, imports, list.len());
                lemma_imported_apply(
                    fs,
                    parser,
                    read,
                    file,
                    index,
                    rule,
                    list,
                    imports,
                    list.len(),
                    medium,
                    supported,
                );
                let last = imported(read, index, rule, list, imports, list.len()).0;
                let after = loaded(st, file, rule, reply).0;
                assert forall|j: int| 0 <= j < after.entries.len() implies (
                #[trigger] after.entries[j]).conditions == last.entries[j].conditions by {}
                assert forall|j: int|
                    0 <= j < st.entries.len() && file_applies(
                        st.entries[j],
                        medium,
                        supported,
                    ) implies file_applies(#[trigger] after.entries[j], medium, supported) by {
                    assert(read.entries[j] == st.entries[j]);
                    assert(file_applies(last.entries[j], medium, supported));
                }
                assert forall|j: int|
                    0 <= j < after.entries.len() && file_applies(
                        #[trigger] after.entries[j],
                        medium,
                        supported,
                    ) implies applies(rule.media, rule.supports, medium, supported) || (j
                    < st.entries.len() && file_applies(st.entries[j], medium, supported)) by {
                    assert(file_applies(last.entries[j], medium, supported));
                }
                assert(file_applies(read.entries[index as int], medium, supported) == applies(
                    rule.media,
                    rule.supports,
                    medium,
                    supported,
                ));
                assert(file_applies(read.entries[index as int], medium, supported)
                    ==> file_applies(last.entries[index as int], medium, supported));
            }
        },
        Err(_) => {},
    }
}

/// The same of the first imports of a file that is itself imported as `rule` says.
proof fn lemma_imported_apply<P: SourceProvider, T: StyleSheetParser>(
    fs: P,
    parser: T,
    st: StateView,
    file: PathView,
    index: u32,
    rule: ImportView,
    imports: Seq<ImportView>,
    replies: Seq<ImportReply>,
    n: nat,
    medium: Medium,
    supported: spec_fn(ConditionView) -> bool,
)
    requires
        st.wf(),
        index < st.entries.len(),
        n <= replies.len(),
        answer_imports(fs, parser, st, file, index, rule, imports, replies, n),
        imported(st, index, rule, imports, replies, n).1 is Ok,
    ensures
        ({
            let after = imported(st, index, rule, imports, replies, n).0;
            let here = applies(rule.media, rule.supports, medium, supported);
            &&& forall|j: int|
                0 <= j < st.entries.len() && file_applies(st.entries[j], medium, supported)
                    ==> file_applies(#[trigger] after.entries[j], medium, supported)
            &&& forall|j: int|
                0 <= j < after.entries.len() && file_applies(
                    #[trigger] after.entries[j],
                    medium,
                    supported,
                ) ==> here || (j < st.entries.len() && file_applies(
                    st.entries[j],
                    medium,
                    supported,
                ))
        }),
    decreases replies, n,
{
    if n > 0 {
        let p = (n - 1) as nat;
        let before = imported(st, index, rule, imports, replies, p).0;
        lemma_imported(fs, parser, st, file, index, rule, imports, replies, p);
        lemma_imported_apply(
            fs,
            parser,
            st,
            file,
            index,
            rule,
            imports,
            replies,
            p,
            medium,
            supported,
        );
        let inner = nested(rule, imports[n - 1], index)->Ok_0;
        let answer = replies[n - 1];
        law_nested_is_conjunction(rule, imports[n - 1], index, medium, supported);
        law_loaded(fs, parser, before, answer.file, inner, answer.reply);
        law_loaded_files_apply(
            fs,
            parser,
            before,
            answer.file,
            inner,
            answer.reply,
            medium,
            supported,
        );
        let after = imported(st, index, rule, imports, replies, n).0;
        assert forall|j: int|
            0 <= j < st.entries.len() && file_applies(
                st.entries[j],
                medium,
                supported,
            ) implies file_applies(#[trigger] after.entries[j], medium, supported) by {
            assert(file_applies(before.entries[j], medium, supported));
        }
        assert forall|j: int|
            0 <= j < after.entries.len() && file_applies(
                #[trigger] after.entries[j],
                medium,
                supported,
            ) implies applies(rule.media, rule.supports, medium, supported) || (j
            < st.entries.len() && file_applies(st.entries[j], medium, supported)) by {
            if j < before.entries.len() && file_applies(before.entries[j], medium, supported) {
            }
        }
    }
}

/// The sources of files that are there as a whole are their paths.
proof fn lemma_sources_are_paths(entries: Seq<EntryView>)
    requires
        forall|i: int| 0 <= i < entries.len() ==> complete(#[trigger] entries[i]),
    ensures
        all_sources(entries) == entries.map_values(|e: EntryView| e.file),
    decreases entries.len(),
{
    if entries.len() > 0 {
        let front = entries.drop_last();
        assert forall|i: int| 0 <= i < front.len() implies complete(#[trigger] front[i]) by {
            assert(complete(entries[i]));
        }
        lemma_sources_are_paths(front);
        assert(complete(entries[entries.len() - 1]));
    }
    assert(all_sources(entries) =~= entries.map_values(|e: EntryView| e.file));
}

/// Whether each path that has an index is the path of the file with that index.
pub open spec fn keyed(st: StateView) -> bool {
    forall|key: Seq<Seq<char>>| #[trigger]
        st.indexes.contains_key(key) ==> has_components(
            st.entries[st.indexes[key] as int].file,
            key,
        )
}

/// Loading a file gives indexes to the paths of the files that are loaded, and to no others.
pub proof fn law_loaded_files_are_keyed<P: SourceProvider, T: StyleSheetParser>(
    fs: P,
    parser: T,
    st: StateView,
    file: PathView,
    rule: ImportView,
    reply: Reply,
)
    requires
        st.wf(),
        st.has_place(rule.loc),
        answers(fs, parser, st, file, rule, reply),
        keyed(st),
        has_components(file.text, file.components),
    ensures
        keyed(loaded(st, file, rule, reply).0),
    decreases reply, 1int,
{
    let (found, place) = entered(st, file, rule);
    lemma_entered(st, file, rule);
    if let Ok(Entered::New(index)) = place {
        assert(keyed(found)) by {
            assert forall|key: Seq<Seq<char>>| #[trigger]
                found.indexes.contains_key(key) implies has_components(
                found.entries[found.indexes[key] as int].file,
                key,
            ) by {
                if key != file.components {
                    assert(st.indexes.contains_key(key));
                }
            }
        }
        if let Reply::Parsed { code, rules, imports } = reply {
            let list = imports_of(rules);
            let read = with_source(found, file.text, code);
            assert(read.wf());
            assert(keyed(read));
            lemma_imported(fs, parser, read, file, index, rule, list, imports, list.len());
            lemma_imported_keyed(fs, parser, read, file, index, rule, list, imports, list.len());
            let last = imported(read, index, rule, list, imports, list.len()).0;
            let after = loaded(st, file, rule, reply).0;
            assert(after.indexes == last.indexes);
            assert forall|key: Seq<Seq<char>>| #[trigger]
                after.indexes.contains_key(key) implies has_components(
                after.entries[after.indexes[key] as int].file,
                key,
            ) by {
                assert(last.indexes.contains_key(key));
            }
        }
    }
}

/// The same of the first imports of a file.
proof fn lemma_imported_keyed<P: SourceProvider, T: StyleSheetParser>(
    fs: P,
    parser: T,
    st: StateView,
    file: PathView,
    index: u32,
    rule: ImportView,
    imports: Seq<ImportView>,
    replies: Seq<ImportReply>,
    n: nat,
)
    requires
        st.wf(),
        index < st.entries.len(),
        n <= replies.len(),
        answer_imports(fs, parser, st, file, index, rule, imports, replies, n),
        keyed(st),
    ensures
        keyed(imported(st, index, rule, imports, replies, n).0),
    decreases replies, n,
{
    if n > 0 {
        let p = (n - 1) as nat;
        let (before, others) = imported(st, index, rule, imports, replies, p);
        lemma_imported(fs, parser, st, file, index, rule, imports, replies, p);
        lemma_imported_keyed(fs, parser, st, file, index, rule, imports, replies, p);
        if others is Ok {
            if let Ok(inner) = nested(rule, imports[n - 1], index) {
                let answer = replies[n - 1];
                law_loaded_files_are_keyed(
                    fs,
                    parser,
                    before,
                    answer.file,
                    inner,
                    answer.reply,
                );
            }
        }
    }
}

/// Whether `paths` are the paths of sources, in their order, no two of them the same.
pub open spec fn are_paths(
    indexes: Map<Seq<Seq<char>>, u32>,
    paths: Seq<Seq<Seq<char>>>,
    sources: Seq<Seq<char>>,
) -> bool {
    &&& paths.len() == sources.len()
    &&& paths.no_duplicates()
    &&& forall|i: int|
        0 <= i < paths.len() ==> {
            &&& indexes.contains_key(#[trigger] paths[i])
            &&& indexes[paths[i]] == i
            &&& has_components(sources[i], paths[i])
        }
}

/// The files of a state have paths, no two of them the same.
proof fn lemma_paths(st: StateView, sources: Seq<Seq<char>>)
    requires
        st.wf(),
        keyed(st),
        sources == st.entries.map_values(|e: EntryView| e.file),
    ensures
        exists|paths: Seq<Seq<Seq<char>>>| are_paths(st.indexes, paths, sources),
{
    let paths = Seq::new(
        st.entries.len(),
        |i: int|
            choose|key: Seq<Seq<char>>| #[trigger]
                st.indexes.contains_key(key) && st.indexes[key] == i,
    );
    assert forall|i: int| 0 <= i < paths.len() implies st.indexes.contains_key(
        #[trigger] paths[i],
    ) && st.indexes[paths[i]] == i && has_components(sources[i], paths[i]) by {
        assert(has_path(st.indexes, i));
    }
    assert(are_paths(st.indexes, paths, sources));
}

/// What a new bundler makes of a file. The sources are the paths of the files that it has loaded,
/// no two of them the same, first the file itself; they are the files that imports lead to from
/// it. Where the imports that count come first in their files, the rules are made of each of these
/// files exactly once, and put in force, file after file, the rules of each file whose conditions
/// apply. They are those of the tree of the file; for this, where it is itself imported, it has to
/// be without a layer.
pub proof fn law_new_bundle<P: SourceProvider, T: StyleSheetParser>(
    fs: P,
    parser: T,
    st: StateView,
    file: PathView,
    reply: Reply,
    medium: Medium,
    supported: spec_fn(ConditionView) -> bool,
)
    requires
        st.wf(),
        st.entries.len() == 0,
        has_components(file.text, file.components),
        answers(fs, parser, st, file, entry_rule(), reply),
        bundled(st, file, reply).1 is Ok,
        countable(dependencies_of(loaded(st, file, entry_rule(), reply).0.entries)),
    ensures
        ({
            let after = loaded(st, file, entry_rule(), reply).0;
            let entries = after.entries;
            let r = bundled(st, file, reply).1->Ok_0;
            let g = ordered(entries);
            let list = tree_files(g, 0, g.len() + 1);
            &&& r.sources == entries.map_values(|e: EntryView| e.file)
            &&& r.sources.len() > 0 && r.sources[0] == file.text
            &&& exists|paths: Seq<Seq<Seq<char>>>| are_paths(after.indexes, paths, r.sources)
            &&& forall|j: u32|
                j < entries.len() <==> #[trigger] reachable(dependencies_of(entries), 0, j)
            &&& imports_first(g) ==> {
                &&& list.no_duplicates()
                &&& forall|j: u32| #[trigger] list.contains(j) <==> j < entries.len()
                &&& in_force(r.rules, medium, supported) == files_in_force(
                    entries,
                    list,
                    medium,
                    supported,
                )
                &&& (leads_back(g) ==> entries[0].conditions.layer is None) ==> r.rules == tree(
                    g,
                    0,
                    g.len() + 1,
                )
            }
        }),
{
    let (after, index) = loaded(st, file, entry_rule(), reply);
    let entries = after.entries;
    let deps = dependencies_of(entries);
    let g = ordered(entries);
    law_loaded(fs, parser, st, file, entry_rule(), reply);
    law_loaded_files_are_reachable(fs, parser, st, file, entry_rule(), reply);
    assert(index->Ok_0 == 0) by {
        if st.indexes.contains_key(file.components) {
            assert(st.indexes[file.components] < st.entries.len());
        }
    }
    assert forall|i: int| 0 <= i < entries.len() implies complete(#[trigger] entries[i]) by {}
    lemma_sources_are_paths(entries);
    assert(keyed(st)) by {
        assert forall|key: Seq<Seq<char>>| !#[trigger] st.indexes.contains_key(key) by {
            if st.indexes.contains_key(key) {
                assert(st.indexes[key] < st.entries.len());
            }
        }
    }
    law_loaded_files_are_keyed(fs, parser, st, file, entry_rule(), reply);
    lemma_paths(after, all_sources(entries));
    lemma_first_file(fs, parser, st, file, reply);
    assert forall|j: u32| j < entries.len() <==> #[trigger] reachable(deps, 0, j) by {
        if reachable(deps, 0, j) {
            lemma_reachable_file(deps, 0, j);
        }
    }
    if imports_first(g) {
        assert(ready(entries));
        assert(entries[0].conditions.layer is None ==> entries[0].conditions =~= unconditional());
        law_bundle_holds_every_file(entries, medium, supported);
        let list = tree_files(g, 0, g.len() + 1);
        assert forall|j: u32| #[trigger] list.contains(j) <==> j < entries.len() by {
            if list.contains(j) {
                lemma_reachable_file(deps, 0, j);
            }
            if j < entries.len() {
                assert(reachable(deps, 0, j));
            }
        }
    }
}

/// The first file that a new bundler loads is the one that it is asked for, and applies everywhere.
pub proof fn lemma_first_file<P: SourceProvider, T: StyleSheetParser>(
    fs: P,
    parser: T,
    st: StateView,
    file: PathView,
    reply: Reply,
)
    requires
        st.wf(),
        st.entries.len() == 0,
        answers(fs, parser, st, file, entry_rule(), reply),
        loaded(st, file, entry_rule(), reply).1 is Ok,
    ensures
        loaded(st, file, entry_rule(), reply).0.entries.len() > 0,
        loaded(st, file, entry_rule(), reply).0.entries[0].file == file.text,
        plain(loaded(st, file, entry_rule(), reply).0.entries[0]),
{
    let rule = entry_rule();
    let (found, place) = entered(st, file, rule);
    lemma_entered(st, file, rule);
    if st.indexes.contains_key(file.components) {
        assert(st.indexes[file.components] < st.entries.len());
    }
    if let Reply::Parsed { code, rules, imports } = reply {
        let list = imports_of(rules);
        let read = with_source(found, file.text, code);
        assert(read.wf());
        lemma_imported(fs, parser, read, file, 0, rule, list, imports, list.len());
        let last = imported(read, 0, rule, list, imports, list.len()).0;
        assert(plain(read.entries[0]));
        assert(plain(last.entries[0]));
    }
}

} // verus!
