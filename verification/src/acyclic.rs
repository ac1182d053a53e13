//! What holds of the bundle of a file whose imports make no cycle.
use crate::bundle_laws::{law_new_bundle, lemma_first_file};
use crate::bundle_state::{entered, lemma_entered, with_source, Entered, StateView};
use crate::bundler::{bundled, entry_rule};
use crate::conditions::nested;
use crate::entry::EntryView;
use crate::in_force::in_force;
use crate::inline::{
    head_end, lemma_head_end, own_rules, ready, rules_of, unconditional, wrapped,
};
use crate::load::{
    answer_imports, answers, complete, imported, imports_of, law_loaded, lemma_imported, loaded,
    ImportReply, Reply, SourceProvider, StyleSheetParser,
};
use crate::media::Medium;
use crate::order::{
    acyclic, countable, dependencies_of, in_range, last_met, law_last_imports_count_without_cycles,
    lemma_ordered, lemma_ordered_ready,
};
use crate::path::{has_components, PathView};
use crate::reach::reachable;
use crate::rules::{ImportView, RuleView};
use crate::supports::ConditionView;
use crate::tree::{
    child, files_in_force, import_at, imports_first, leads_back, lemma_import_at, tree, tree_files,
    tree_head,
};
use vstd::prelude::*;

verus! {

/// Whether no import stands behind a rule that none may stand behind.
pub open spec fn imports_stand_first(rules: Seq<RuleView>) -> bool {
    forall|k: int| head_end(rules, 0) <= k < rules.len() ==> !(#[trigger] rules[k] is Import)
}

/// Rules without imports add none.
proof fn lemma_no_more_imports(rules: Seq<RuleView>, k: int)
    requires
        0 <= k <= rules.len(),
        forall|j: int| k <= j < rules.len() ==> !(#[trigger] rules[j] is Import),
    ensures
        imports_of(rules.take(k)) == imports_of(rules),
    decreases rules.len(),
{
    if k == rules.len() {
        assert(rules.take(k) =~= rules);
    } else {
        let front = rules.drop_last();
        assert forall|j: int| k <= j < front.len() implies !(#[trigger] front[j] is Import) by {
            assert(!(rules[j] is Import));
        }
        lemma_no_more_imports(front, k);
        assert(front.take(k) =~= rules.take(k));
        assert(!(rules[rules.len() - 1] is Import));
    }
}

/// Where in each file the imports stand first, none is left in the rules of a tree.
proof fn lemma_no_imports_left(g: Seq<EntryView>, i: u32, depth: nat)
    requires
        ready(g),
        i < g.len(),
        forall|j: int| 0 <= j < g.len() ==> imports_stand_first(rules_of(#[trigger] g[j])),
    ensures
        forall|k: int|
            0 <= k < tree(g, i, depth).len() ==> !(#[trigger] tree(g, i, depth)[k] is Import),
    decreases depth, 0nat,
{
    if depth > 0 {
        let e = g[i as int];
        let rules = rules_of(e);
        let h = head_end(rules, 0);
        let head = tree_head(g, i, h, (depth - 1) as nat);
        let own = wrapped(own_rules(rules), e.conditions, e.loc);
        lemma_head_end(rules, 0);
        lemma_no_imports_left_head(g, i, h, (depth - 1) as nat);
        assert(imports_stand_first(rules));
        assert forall|k: int| 0 <= k < own_rules(rules).len() implies !(#[trigger] own_rules(
            rules,
        )[k] is Import) by {
            if k >= h {
                assert(!(rules[k] is Import));
            }
        }
        assert forall|k: int| 0 <= k < own.len() implies !(#[trigger] own[k] is Import) by {}
        assert forall|k: int| 0 <= k < tree(g, i, depth).len() implies !(#[trigger] tree(
            g,
            i,
            depth,
        )[k] is Import) by {
            if k < head.len() {
                assert(!(head[k] is Import));
            } else {
                assert(!(own[k - head.len()] is Import));
            }
        }
    }
}

/// The same of the first rules of a file.
proof fn lemma_no_imports_left_head(g: Seq<EntryView>, i: u32, n: nat, depth: nat)
    requires
        ready(g),
        i < g.len(),
        n <= rules_of(g[i as int]).len(),
        forall|j: int| 0 <= j < g.len() ==> imports_stand_first(rules_of(#[trigger] g[j])),
    ensures
        forall|k: int|
            0 <= k < tree_head(g, i, n, depth).len() ==> !(#[trigger] tree_head(
                g,
                i,
                n,
                depth,
            )[k] is Import),
    decreases depth, n,
{
    if n > 0 {
        let p = (n - 1) as nat;
        let before = tree_head(g, i, p, depth);
        let all = tree_head(g, i, n, depth);
        lemma_no_imports_left_head(g, i, p, depth);
        if rules_of(g[i as int])[p as int] is Import {
            lemma_import_at(g, i, p);
            if let Some(to) = import_at(g, i, p) {
                lemma_no_imports_left(g, to, depth);
                let more = tree(g, to, depth);
                assert(all == before + more);
                assert forall|k: int| 0 <= k < all.len() implies !(#[trigger] all[k] is Import) by {
                    if k < before.len() {
                        assert(!(before[k] is Import));
                    } else {
                        assert(!(more[k - before.len()] is Import));
                    }
                }
            }
        } else {
            assert forall|k: int| 0 <= k < all.len() implies !(#[trigger] all[k] is Import) by {
                if k < before.len() {
                    assert(!(before[k] is Import));
                }
            }
        }
    }
}

/// Whether one of the files from the `n`th on imports file `j`.
spec fn newly_imported(entries: Seq<EntryView>, n: int, j: u32) -> bool {
    exists|i: int|
        n <= i < entries.len() && (#[trigger] entries[i]).dependencies.contains(j)
}

/// A file keeps its conditions while others are loaded, as long as none of them imports it.
proof fn lemma_keeps_conditions<P: SourceProvider, T: StyleSheetParser>(
    fs: P,
    parser: T,
    st: StateView,
    file: PathView,
    rule: ImportView,
    reply: Reply,
    j: u32,
)
    requires
        st.wf(),
        st.has_place(rule.loc),
        answers(fs, parser, st, file, rule, reply),
        loaded(st, file, rule, reply).1 is Ok,
        j < st.entries.len(),
    ensures
        ({
            let (after, r) = loaded(st, file, rule, reply);
            ||| after.entries[j as int].conditions == st.entries[j as int].conditions
            ||| r->Ok_0 == j
            ||| newly_imported(after.entries, st.entries.len() as int, j)
        }),
    decreases reply, 1int,
{
    let (found, place) = entered(st, file, rule);
    lemma_entered(st, file, rule);
    if let Ok(Entered::New(index)) = place {
        if let Reply::Parsed { code, rules, imports } = reply {
            let list = imports_of(rules);
            let read = with_source(found, file.text, code);
            assert(read.wf());
            lemma_imported(fs, parser, read, file, index, rule, list, imports, list.len());
            lemma_imports_keep_conditions(
                fs,
                parser,
                read,
                file,
                index,
                rule,
                list,
                imports,
                list.len(),
                j,
            );
            let (last, dependencies) = imported(read, index, rule, list, imports, list.len());
            let after = loaded(st, file, rule, reply).0;
            assert(read.entries[j as int] == st.entries[j as int]);
            assert(after.entries[j as int].conditions == last.entries[j as int].conditions);
            if dependencies->Ok_0.contains(j) {
                assert(after.entries[index as int].dependencies.contains(j));
            } else if newly_imported(last.entries, read.entries.len() as int, j) {
                let i = choose|i: int|
                    read.entries.len() <= i < last.entries.len() && (
                    #[trigger] last.entries[i]).dependencies.contains(j);
                assert(after.entries[i].dependencies.contains(j));
            }
        }
    }
}

/// The same of the first imports of a file.
proof fn lemma_imports_keep_conditions<P: SourceProvider, T: StyleSheetParser>(
    fs: P,
    parser: T,
    st: StateView,
    file: PathView,
    index: u32,
    rule: ImportView,
    imports: Seq<ImportView>,
    replies: Seq<ImportReply>,
    n: nat,
    j: u32,
)
    requires
        st.wf(),
        index < st.entries.len(),
        n <= replies.len(),
        answer_imports(fs, parser, st, file, index, rule, imports, replies, n),
        imported(st, index, rule, imports, replies, n).1 is Ok,
        j < st.entries.len(),
    ensures
        ({
            let (after, r) = imported(st, index, rule, imports, replies, n);
            ||| after.entries[j as int].conditions == st.entries[j as int].conditions
            ||| r->Ok_0.contains(j)
            ||| newly_imported(after.entries, st.entries.len() as int, j)
        }),
    decreases replies, n,
{
    if n > 0 {
        let p = (n - 1) as nat;
        let (before, others) = imported(st, index, rule, imports, replies, p);
        lemma_imported(fs, parser, st, file, index, rule, imports, replies, p);
        lemma_imports_keep_conditions(
            fs,
            parser,
            st,
            file,
            index,
            rule,
            imports,
            replies,
            p,
            j,
        );
        let inner = nested(rule, imports[n - 1], index)->Ok_0;
        let answer = replies[n - 1];
        law_loaded(fs, parser, before, answer.file, inner, answer.reply);
        lemma_keeps_conditions(fs, parser, before, answer.file, inner, answer.reply, j);
        let (after, r) = imported(st, index, rule, imports, replies, n);
        let list = others->Ok_0;
        let more = r->Ok_0;
        if list.contains(j) {
            let k = choose|k: int| 0 <= k < list.len() && list[k] == j;
            assert(more[k] == j);
        } else if newly_imported(before.entries, st.entries.len() as int, j) {
            let i = choose|i: int|
                st.entries.len() <= i < before.entries.len() && (
                #[trigger] before.entries[i]).dependencies.contains(j);
            assert(after.entries[i].dependencies == before.entries[i].dependencies);
        } else if loaded(before, answer.file, inner, answer.reply).1->Ok_0 == j {
            assert(more[p as int] == j);
        } else if newly_imported(after.entries, before.entries.len() as int, j) {
            let i = choose|i: int|
                before.entries.len() <= i < after.entries.len() && (
                #[trigger] after.entries[i]).dependencies.contains(j);
            assert(after.entries[i].dependencies.contains(j));
        }
    }
}

/// The first file that a new bundler loads is without conditions, unless it is itself imported.
proof fn lemma_first_file_unconditional<P: SourceProvider, T: StyleSheetParser>(
    fs: P,
    parser: T,
    st: StateView,
    file: PathView,
    reply: Reply,
)
    requires
        st.wf(),
        st.entries.len() == 0,
        answers(fs, parser, st, file, entry_rule(), reply),
        loaded(st, file, entry_rule(), reply).1 is Ok,
    ensures
        ({
            let entries = loaded(st, file, entry_rule(), reply).0.entries;
            entries[0].conditions == unconditional() || newly_imported(entries, 0, 0)
        }),
{
    let rule = entry_rule();
    let (found, place) = entered(st, file, rule);
    lemma_entered(st, file, rule);
    if st.indexes.contains_key(file.components) {
        assert(st.indexes[file.components] < st.entries.len());
    }
    if let Reply::Parsed { code, rules, imports } = reply {
        let list = imports_of(rules);
        let read = with_source(found, file.text, code);
        assert(read.wf());
        lemma_imported(fs, parser, read, file, 0, rule, list, imports, list.len());
        lemma_imports_keep_conditions(
            fs,
            parser,
            read,
            file,
            0,
            rule,
            list,
            imports,
            list.len(),
            0,
        );
        let (last, dependencies) = imported(read, 0, rule, list, imports, list.len());
        let entries = loaded(st, file, rule, reply).0.entries;
        assert(read.entries[0].conditions =~= unconditional());
        assert(entries[0].conditions == last.entries[0].conditions);
        if dependencies->Ok_0.contains(0) {
            assert(entries[0].dependencies.contains(0));
        } else if newly_imported(last.entries, 1, 0) {
            let i = choose|i: int|
                1 <= i < last.entries.len() && (#[trigger] last.entries[i]).dependencies.contains(
                    0,
                );
            assert(entries[i].dependencies.contains(0));
        }
    }
}

/// What a new bundler makes of a file, where no file imports itself, directly or through others,
/// and in each file the imports stand first. Each file that imports lead to stands in the bundle
/// exactly once, where it is imported last: the rules are those of the tree that the last imports
/// make, the last of them the file's own rules, as they are, and no import is left among them.
pub proof fn law_new_bundle_without_cycles<P: SourceProvider, T: StyleSheetParser>(
    fs: P,
    parser: T,
    st: StateView,
    file: PathView,
    reply: Reply,
    medium: Medium,
    supported: spec_fn(ConditionView) -> bool,
)
    requires
        st.wf(),
        st.entries.len() == 0,
        has_components(file.text, file.components),
        answers(fs, parser, st, file, entry_rule(), reply),
        bundled(st, file, reply).1 is Ok,
        countable(dependencies_of(loaded(st, file, entry_rule(), reply).0.entries)),
        acyclic(dependencies_of(loaded(st, file, entry_rule(), reply).0.entries)),
        forall|i: int|
            0 <= i < loaded(st, file, entry_rule(), reply).0.entries.len()
                ==> imports_stand_first(
                rules_of(#[trigger] loaded(st, file, entry_rule(), reply).0.entries[i]),
            ),
    ensures
        ({
            let entries = loaded(st, file, entry_rule(), reply).0.entries;
            let r = bundled(st, file, reply).1->Ok_0;
            let last = last_met(entries);
            let own = rules_of(entries[0]);
            let list = tree_files(last, 0, last.len() + 1);
            &&& r.rules == tree(last, 0, last.len() + 1)
            &&& r.rules == tree_head(last, 0, head_end(own, 0), last.len()) + own_rules(own)
            &&& forall|k: int| 0 <= k < r.rules.len() ==> !(#[trigger] r.rules[k] is Import)
            &&& list.no_duplicates()
            &&& forall|j: u32| #[trigger] list.contains(j) <==> j < entries.len()
            &&& in_force(r.rules, medium, supported) == files_in_force(
                entries,
                list,
                medium,
                supported,
            )
        }),
{
    let after = loaded(st, file, entry_rule(), reply).0;
    let entries = after.entries;
    let deps = dependencies_of(entries);
    let last = last_met(entries);
    law_loaded(fs, parser, st, file, entry_rule(), reply);
    law_new_bundle(fs, parser, st, file, reply, medium, supported);
    lemma_first_file(fs, parser, st, file, reply);
    lemma_first_file_unconditional(fs, parser, st, file, reply);
    assert(in_range(deps));
    law_last_imports_count_without_cycles(entries);
    lemma_ordered(entries);
    assert(ready(entries)) by {
        assert forall|i: int| 0 <= i < entries.len() implies (
        #[trigger] entries[i]).stylesheet is Some && imports_of(rules_of(entries[i])).len()
            <= entries[i].dependencies.len() by {
            assert(complete(entries[i]));
        }
    }
    lemma_ordered_ready(entries);
    assert forall|i: u32| i < entries.len() implies !(#[trigger] deps[i as int].contains(0)) by {
        assert(reachable(deps, 0, i));
    }
    assert(!newly_imported(entries, 0, 0)) by {
        if newly_imported(entries, 0, 0) {
            let i = choose|i: int|
                0 <= i < entries.len() && (#[trigger] entries[i]).dependencies.contains(0);
            assert(deps[i as u32 as int].contains(0));
        }
    }
    assert(!leads_back(last)) by {
        if leads_back(last) {
            let p = last[0].parent_source_index;
            assert(last[p as int].dependencies == entries[p as int].dependencies);
            assert(deps[p as int][last[0].parent_dep_index as int] == 0);
            assert(deps[p as int].contains(0));
        }
    }
    assert(imports_first(last)) by {
        assert forall|p: u32, c: u32| #[trigger] child(last, p, c) implies {
            let rules = rules_of(last[p as int]);
            last[c as int].parent_dep_index < imports_of(
                rules.take(head_end(rules, 0) as int),
            ).len()
        } by {
            let rules = rules_of(last[p as int]);
            assert(last[p as int].stylesheet == entries[p as int].stylesheet);
            assert(last[p as int].dependencies == entries[p as int].dependencies);
            assert(complete(entries[p as int]));
            assert(imports_stand_first(rules_of(entries[p as int])));
            lemma_head_end(rules, 0);
            lemma_no_more_imports(rules, head_end(rules, 0) as int);
        }
    }
    assert forall|j: int| 0 <= j < last.len() implies imports_stand_first(
        rules_of(#[trigger] last[j]),
    ) by {
        assert(last[j].stylesheet == entries[j].stylesheet);
        assert(imports_stand_first(rules_of(entries[j])));
    }
    lemma_no_imports_left(last, 0, last.len() + 1);
    assert(last[0].conditions == unconditional());
    assert(rules_of(last[0]) == rules_of(entries[0]));
}

} // verus!
