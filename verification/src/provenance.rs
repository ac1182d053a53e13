//! Where the rules, the imports and the conditions of loaded files come from.
use crate::bundle_state::{entered, lemma_entered, with_source, Entered, StateView};
use crate::conditions::{
    applies, kept, law_merged, law_merged_is_disjunction, law_prefixed, merged, nested,
    ConditionsView,
};
use crate::entry::EntryView;
use crate::inline::rules_of;
use crate::load::{
    answer_imports, answers, imported, imports_of, law_loaded, lemma_imported,
    lemma_prefixed_imports, loaded, parses, reads, sheet_of, ImportReply, Reply, SourceProvider,
    StyleSheetParser,
};
use crate::media::Medium;
use crate::path::PathView;
use crate::rules::{ImportView, RuleView};
use crate::supports::ConditionView;
use vstd::prelude::*;

verus! {

/// Whether a file of a state holds the rules that the parser gave for the text that the provider
/// gave for its path, where it was first loaded as `rule` says, and whether each of its imports
/// leads to the file at the path that the import refers to from there.
pub open spec fn came_from<P: SourceProvider, T: StyleSheetParser>(
    fs: P,
    parser: T,
    st: StateView,
    j: int,
    rule: ImportView,
    code: Seq<char>,
    rules: Seq<RuleView>,
    paths: Seq<PathView>,
) -> bool {
    let e = st.entries[j];
    &&& reads(fs, e.file, Ok(code))
    &&& parses(parser, e.file, code, j as u32, Ok(rules))
    &&& e.stylesheet is Some
    &&& rules_of(e).len() == rules.len()
    &&& forall|k: int|
        0 <= k < rules.len() ==> kept(rules[k], #[trigger] rules_of(e)[k], rule.layer)
    &&& e.dependencies.len() == imports_of(rules).len()
    &&& paths.len() == imports_of(rules).len()
    &&& forall|d: int|
        0 <= d < paths.len() ==> {
            &&& (#[trigger] paths[d]).is_reference(e.file, imports_of(rules)[d].url)
            &&& st.indexes.contains_key(paths[d].components)
            &&& st.indexes[paths[d].components] == e.dependencies[d]
        }
}

/// The same, of some text, rules and paths.
pub open spec fn came<P: SourceProvider, T: StyleSheetParser>(
    fs: P,
    parser: T,
    st: StateView,
    j: int,
    rule: ImportView,
) -> bool {
    exists|code: Seq<char>, rules: Seq<RuleView>, paths: Seq<PathView>| #[trigger]
        came_from(fs, parser, st, j, rule, code, rules, paths)
}

/// The import that the import at place `d` of file `i` amounts to, where the files from `base` on
/// were first loaded as `under` says.
pub open spec fn request(
    entries: Seq<EntryView>,
    base: int,
    under: Seq<ImportView>,
    i: int,
    d: int,
) -> Option<ImportView> {
    match nested(under[i - base], imports_of(rules_of(entries[i]))[d], i as u32) {
        Ok(inner) => Some(inner),
        Err(_) => None,
    }
}

/// Whether one of the files from `base` on has an import that leads to file `t` and amounts to one
/// of which `p` holds.
pub open spec fn wanted(
    entries: Seq<EntryView>,
    base: int,
    under: Seq<ImportView>,
    t: int,
    p: spec_fn(ImportView) -> bool,
) -> bool {
    exists|i: int, d: int|
        base <= i < entries.len() && 0 <= d < entries[i].dependencies.len()
            && #[trigger] entries[i].dependencies[d] == t && (request(entries, base, under, i, d)
            matches Some(inner) && p(inner))
}

/// Whether an import of a list leads to file `t` and amounts, in a file that was loaded as `rule`
/// says, to one of which `p` holds.
pub open spec fn listed(
    list: Seq<u32>,
    rule: ImportView,
    imports: Seq<ImportView>,
    index: u32,
    t: int,
    p: spec_fn(ImportView) -> bool,
) -> bool {
    exists|d: int|
        0 <= d < list.len() && #[trigger] list[d] == t && (nested(rule, imports[d], index)
            matches Ok(inner) && p(inner))
}

/// Whether of the conditions of a file `q` holds where `p` holds of one of its imports.
pub open spec fn gathers(
    p: spec_fn(ImportView) -> bool,
    q: spec_fn(ConditionsView) -> bool,
) -> bool {
    &&& forall|c: ConditionsView, rule: ImportView|
        (#[trigger] merged(c, rule)).1 is None ==> q(merged(c, rule).0) == (q(c) || p(rule))
    &&& forall|rule: ImportView| #[trigger]
        p(rule) == q(
            ConditionsView { layer: rule.layer, supports: rule.supports, media: rule.media },
        )
}

/// A file that is there stays as it came.
proof fn lemma_still_came<P: SourceProvider, T: StyleSheetParser>(
    fs: P,
    parser: T,
    a: StateView,
    b: StateView,
    j: int,
    rule: ImportView,
)
    requires
        came(fs, parser, a, j, rule),
        b.entries[j] == (EntryView { conditions: b.entries[j].conditions, ..a.entries[j] }),
        forall|key: Seq<Seq<char>>| #[trigger]
            a.indexes.contains_key(key) ==> b.indexes.contains_key(key) && b.indexes[key]
                == a.indexes[key],
    ensures
        came(fs, parser, b, j, rule),
{
    let (code, rules, paths) = choose|
        code: Seq<char>,
        rules: Seq<RuleView>,
        paths: Seq<PathView>,
    | #[trigger] came_from(fs, parser, a, j, rule, code, rules, paths);
    assert(rules_of(b.entries[j]) == rules_of(a.entries[j]));
    assert forall|d: int| 0 <= d < paths.len() implies {
        &&& (#[trigger] paths[d]).is_reference(b.entries[j].file, imports_of(rules)[d].url)
        &&& b.indexes.contains_key(paths[d].components)
        &&& b.indexes[paths[d].components] == b.entries[j].dependencies[d]
    } by {
        assert(a.indexes.contains_key(paths[d].components));
    }
    assert(came_from(fs, parser, b, j, rule, code, rules, paths));
}

/// Imports of the files of two parts are those of each part.
proof fn lemma_wanted_parts(
    before: Seq<EntryView>,
    after: Seq<EntryView>,
    base: int,
    a: Seq<ImportView>,
    b: Seq<ImportView>,
    t: int,
    p: spec_fn(ImportView) -> bool,
)
    requires
        0 <= base,
        base + a.len() == before.len(),
        base + a.len() + b.len() == after.len(),
        forall|i: int|
            0 <= i < before.len() ==> #[trigger] after[i] == (EntryView {
                conditions: after[i].conditions,
                ..before[i]
            }),
    ensures
        wanted(after, base, a + b, t, p) <==> wanted(before, base, a, t, p) || wanted(
            after,
            before.len() as int,
            b,
            t,
            p,
        ),
{
    let all = a + b;
    if wanted(after, base, all, t, p) {
        let (i, d) = choose|i: int, d: int|
            base <= i < after.len() && 0 <= d < after[i].dependencies.len()
                && #[trigger] after[i].dependencies[d] == t && (request(after, base, all, i, d)
                matches Some(inner) && p(inner));
        if i < before.len() {
            assert(rules_of(after[i]) == rules_of(before[i]));
            assert(all[i - base] == a[i - base]);
            assert(before[i].dependencies[d] == t);
            assert(request(before, base, a, i, d) == request(after, base, all, i, d));
        } else {
            assert(all[i - base] == b[i - before.len()]);
            assert(after[i].dependencies[d] == t);
            assert(request(after, before.len() as int, b, i, d) == request(after, base, all, i, d));
        }
    }
    if wanted(before, base, a, t, p) {
        let (i, d) = choose|i: int, d: int|
            base <= i < before.len() && 0 <= d < before[i].dependencies.len()
                && #[trigger] before[i].dependencies[d] == t && (request(before, base, a, i, d)
                matches Some(inner) && p(inner));
        assert(rules_of(after[i]) == rules_of(before[i]));
        assert(all[i - base] == a[i - base]);
        assert(after[i].dependencies[d] == t);
        assert(request(before, base, a, i, d) == request(after, base, all, i, d));
    }
    if wanted(after, before.len() as int, b, t, p) {
        let (i, d) = choose|i: int, d: int|
            before.len() <= i < after.len() && 0 <= d < after[i].dependencies.len()
                && #[trigger] after[i].dependencies[d] == t && (request(
                after,
                before.len() as int,
                b,
                i,
                d,
            ) matches Some(inner) && p(inner));
        assert(all[i - base] == b[i - before.len()]);
        assert(after[i].dependencies[d] == t);
        assert(request(after, before.len() as int, b, i, d) == request(after, base, all, i, d));
    }
}

/// Whether file `j` was first loaded for an import of one of the files from `base` on, as that
/// import amounts to.
pub open spec fn first_loaded(
    entries: Seq<EntryView>,
    base: int,
    under: Seq<ImportView>,
    j: int,
) -> bool {
    wanted(entries, base, under, j, |rule: ImportView| rule == under[j - base])
}

/// What comes of loading a file and all that it imports. The files that are new hold the rules that
/// the parser gave for what the provider gave, and their imports lead to the files that they refer
/// to. Each was first loaded for an import of another of them, as that import amounts to in its own
/// file, but for the file itself, which was loaded as `rule` says. And of the conditions of a file
/// there holds what holds of one of its imports, as they amount to in their files: `q` of the
/// conditions exactly where it did before, or `p` holds of one of these.
pub proof fn law_files_come_from_imports<P: SourceProvider, T: StyleSheetParser>(
    fs: P,
    parser: T,
    st: StateView,
    file: PathView,
    rule: ImportView,
    reply: Reply,
    p: spec_fn(ImportView) -> bool,
    q: spec_fn(ConditionsView) -> bool,
) -> (under: Seq<ImportView>)
    requires
        st.wf(),
        st.has_place(rule.loc),
        answers(fs, parser, st, file, rule, reply),
        loaded(st, file, rule, reply).1 is Ok,
        gathers(p, q),
    ensures
        ({
            let (after, r) = loaded(st, file, rule, reply);
            let base = st.entries.len() as int;
            let index = r->Ok_0;
            &&& base + under.len() == after.entries.len()
            &&& under.len() > 0 ==> index == base && under[0] == rule
            &&& forall|j: int|
                base <= j < after.entries.len() ==> #[trigger] came(
                    fs,
                    parser,
                    after,
                    j,
                    under[j - base],
                )
            &&& forall|j: int|
                base < j < after.entries.len() ==> #[trigger] first_loaded(
                    after.entries,
                    base,
                    under,
                    j,
                )
            &&& forall|t: int|
                0 <= t < after.entries.len() ==> (q((#[trigger] after.entries[t]).conditions)
                    <==> (t < base && q(st.entries[t].conditions)) || (t == index && p(rule))
                    || wanted(after.entries, base, under, t, p))
        }),
    decreases reply, 1int,
{
    let (found, place) = entered(st, file, rule);
    let (after, r) = loaded(st, file, rule, reply);
    let base = st.entries.len() as int;
    lemma_entered(st, file, rule);
    match place {
        Ok(Entered::Loaded(index)) => {
            let none = Seq::<ImportView>::empty();
            let c = st.entries[index as int].conditions;
            assert(merged(c, rule).1 is None);
            assert forall|t: int| 0 <= t < after.entries.len() implies (q(
                (#[trigger] after.entries[t]).conditions,
            ) <==> (t < base && q(st.entries[t].conditions)) || (t == index && p(rule)) || wanted(
                after.entries,
                base,
                none,
                t,
                p,
            )) by {
                if t == index {
                    assert(q(merged(c, rule).0) == (q(c) || p(rule)));
                }
            }
            none
        },
        Ok(Entered::New(index)) => {
            let code = reply->Parsed_code;
            let rules = reply->Parsed_rules;
            let imports = reply->Parsed_imports;
            let list = imports_of(rules);
            let read = with_source(found, file.text, code);
            assert(read.wf());
            lemma_imported(fs, parser, read, file, index, rule, list, imports, list.len());
            let (last, dependencies) = imported(read, index, rule, list, imports, list.len());
            let d = dependencies->Ok_0;
            let more = lemma_imports_come_from(
                fs,
                parser,
                read,
                file,
                index,
                rule,
                list,
                imports,
                list.len(),
                p,
                q,
            );
            let under = seq![rule] + more;
            let e = after.entries[index as int];
            lemma_prefixed_imports(rules, rule.layer);
            assert(imports_of(rules_of(e)) == list);
            assert(after.indexes == last.indexes);
            lemma_root_came(fs, parser, read, file, index, rule, code, rules, imports, after);
            assert(came(fs, parser, after, index as int, rule));
            assert forall|j: int| base <= j < after.entries.len() implies #[trigger] came(
                fs,
                parser,
                after,
                j,
                under[j - base],
            ) by {
                if j > base {
                    assert(came(fs, parser, last, j, more[j - (base + 1)]));
                    assert(after.entries[j] == last.entries[j]);
                    lemma_still_came(fs, parser, last, after, j, more[j - (base + 1)]);
                }
            }
            assert forall|t: int, pred: spec_fn(ImportView) -> bool|
                #![trigger wanted(after.entries, base, under, t, pred)]
                wanted(after.entries, base, under, t, pred) <==> listed(
                    d,
                    rule,
                    list,
                    index,
                    t,
                    pred,
                ) || wanted(last.entries, base + 1, more, t, pred) by {
                lemma_root_wanted(last.entries, after.entries, rule, more, d, list, t, pred, index);
            }
            assert forall|j: int| base < j < after.entries.len() implies #[trigger] first_loaded(
                after.entries,
                base,
                under,
                j,
            ) by {
                let same = |x: ImportView| x == more[j - (base + 1)];
                let also = |x: ImportView| x == under[j - base];
                assert(same =~= also);
                assert(listed(d, rule, list, index, j, same) || wanted(
                    last.entries,
                    base + 1,
                    more,
                    j,
                    same,
                ));
                assert(wanted(after.entries, base, under, j, also));
            }
            assert forall|t: int| 0 <= t < after.entries.len() implies (q(
                (#[trigger] after.entries[t]).conditions,
            ) <==> (t < base && q(st.entries[t].conditions)) || (t == index && p(rule)) || wanted(
                after.entries,
                base,
                under,
                t,
                p,
            )) by {
                assert(after.entries[t].conditions == last.entries[t].conditions);
                if t < base {
                    assert(read.entries[t] == st.entries[t]);
                } else if t == base {
                    assert(p(rule) == q(read.entries[t].conditions));
                }
            }
            under
        },
        Err(_) => Seq::empty(),
    }
}

/// The file itself holds what the parser gave.
proof fn lemma_root_came<P: SourceProvider, T: StyleSheetParser>(
    fs: P,
    parser: T,
    read: StateView,
    file: PathView,
    index: u32,
    rule: ImportView,
    code: Seq<char>,
    rules: Seq<RuleView>,
    imports: Seq<ImportReply>,
    after: StateView,
)
    requires
        read.wf(),
        index < read.entries.len(),
        read.entries[index as int].file == file.text,
        reads(fs, file.text, Ok(code)),
        parses(parser, file.text, code, index, Ok(rules)),
        imports.len() == imports_of(rules).len(),
        answer_imports(
            fs,
            parser,
            read,
            file,
            index,
            rule,
            imports_of(rules),
            imports,
            imports.len(),
        ),
        ({
            let list = imports_of(rules);
            let (last, d) = imported(read, index, rule, list, imports, list.len());
            &&& d is Ok
            &&& after.indexes == last.indexes
            &&& after.entries[index as int].file == file.text
            &&& after.entries[index as int].stylesheet == Some(sheet_of(file.text, rules, rule))
            &&& after.entries[index as int].dependencies == d->Ok_0
        }),
    ensures
        came(fs, parser, after, index as int, rule),
{
    let list = imports_of(rules);
    let (last, d) = imported(read, index, rule, list, imports, list.len());
    let paths = Seq::new(list.len(), |k: int| imports[k].file);
    let e = after.entries[index as int];
    lemma_imported(fs, parser, read, file, index, rule, list, imports, list.len());
    assert forall|k: int| 0 <= k < rules.len() implies kept(
        rules[k],
        #[trigger] rules_of(e)[k],
        rule.layer,
    ) by {
        law_prefixed(rules[k], rule.layer);
    }
    assert forall|k: int| 0 <= k < paths.len() implies {
        &&& (#[trigger] paths[k]).is_reference(e.file, list[k].url)
        &&& after.indexes.contains_key(paths[k].components)
        &&& after.indexes[paths[k].components] == e.dependencies[k]
    } by {
        lemma_import_led(fs, parser, read, file, index, rule, list, imports, list.len(), k);
    }
    assert(came_from(fs, parser, after, index as int, rule, code, rules, paths));
}

/// Each import leads to the file that it refers to.
proof fn lemma_import_led<P: SourceProvider, T: StyleSheetParser>(
    fs: P,
    parser: T,
    st: StateView,
    file: PathView,
    index: u32,
    rule: ImportView,
    imports: Seq<ImportView>,
    replies: Seq<ImportReply>,
    n: nat,
    k: int,
)
    requires
        st.wf(),
        index < st.entries.len(),
        n <= replies.len(),
        answer_imports(fs, parser, st, file, index, rule, imports, replies, n),
        imported(st, index, rule, imports, replies, n).1 is Ok,
        0 <= k < n,
    ensures
        ({
            let (after, r) = imported(st, index, rule, imports, replies, n);
            &&& replies[k].file.is_reference(file.text, imports[k].url)
            &&& after.indexes.contains_key(replies[k].file.components)
            &&& after.indexes[replies[k].file.components] == r->Ok_0[k]
        }),
    decreases n,
{
    let m = (n - 1) as nat;
    let (before, others) = imported(st, index, rule, imports, replies, m);
    lemma_imported(fs, parser, st, file, index, rule, imports, replies, m);
    let inner = nested(rule, imports[n - 1], index)->Ok_0;
    let answer = replies[n - 1];
    law_loaded(fs, parser, before, answer.file, inner, answer.reply);
    if k < m {
        lemma_import_led(fs, parser, st, file, index, rule, imports, replies, m, k);
        assert(before.indexes.contains_key(replies[k].file.components));
    }
}

/// The imports that are wanted are those of the file itself and those of the others.
proof fn lemma_root_wanted(
    last: Seq<EntryView>,
    after: Seq<EntryView>,
    rule: ImportView,
    more: Seq<ImportView>,
    d: Seq<u32>,
    list: Seq<ImportView>,
    t: int,
    p: spec_fn(ImportView) -> bool,
    index: u32,
)
    requires
        last.len() == after.len(),
        index + 1 + more.len() == after.len(),
        forall|i: int| 0 <= i < after.len() && i != index ==> #[trigger] after[i] == last[i],
        after[index as int].dependencies == d,
        imports_of(rules_of(after[index as int])) == list,
    ensures
        wanted(after, index as int, seq![rule] + more, t, p) <==> listed(
            d,
            rule,
            list,
            index,
            t,
            p,
        ) || wanted(last, index + 1, more, t, p),
{
    let base = index as int;
    let under = seq![rule] + more;
    if wanted(after, base, under, t, p) {
        let (i, k) = choose|i: int, k: int|
            base <= i < after.len() && 0 <= k < after[i].dependencies.len()
                && #[trigger] after[i].dependencies[k] == t && (request(after, base, under, i, k)
                matches Some(inner) && p(inner));
        if i == base {
            assert(under[0] == rule);
            assert(d[k] == t);
        } else {
            assert(last[i] == after[i]);
            assert(under[i - base] == more[i - (base + 1)]);
            assert(last[i].dependencies[k] == t);
            assert(request(last, base + 1, more, i, k) == request(after, base, under, i, k));
        }
    }
    if listed(d, rule, list, index, t, p) {
        let k = choose|k: int|
            0 <= k < d.len() && #[trigger] d[k] == t && (nested(rule, list[k], index) matches Ok(
                inner,
            ) && p(inner));
        assert(under[0] == rule);
        assert(after[base].dependencies[k] == t);
        assert(request(after, base, under, base, k) matches Some(inner) && p(inner));
    }
    if wanted(last, base + 1, more, t, p) {
        let (i, k) = choose|i: int, k: int|
            base + 1 <= i < last.len() && 0 <= k < last[i].dependencies.len()
                && #[trigger] last[i].dependencies[k] == t && (request(last, base + 1, more, i, k)
                matches Some(inner) && p(inner));
        assert(last[i] == after[i]);
        assert(under[i - base] == more[i - (base + 1)]);
        assert(after[i].dependencies[k] == t);
        assert(request(last, base + 1, more, i, k) == request(after, base, under, i, k));
    }
}

/// The same of the first imports of a file.
proof fn lemma_imports_come_from<P: SourceProvider, T: StyleSheetParser>(
    fs: P,
    parser: T,
    st: StateView,
    file: PathView,
    index: u32,
    rule: ImportView,
    imports: Seq<ImportView>,
    replies: Seq<ImportReply>,
    n: nat,
    p: spec_fn(ImportView) -> bool,
    q: spec_fn(ConditionsView) -> bool,
) -> (under: Seq<ImportView>)
    requires
        st.wf(),
        index < st.entries.len(),
        n <= replies.len(),
        answer_imports(fs, parser, st, file, index, rule, imports, replies, n),
        imported(st, index, rule, imports, replies, n).1 is Ok,
        gathers(p, q),
    ensures
        ({
            let (after, r) = imported(st, index, rule, imports, replies, n);
            let base = st.entries.len() as int;
            let list = r->Ok_0;
            &&& base + under.len() == after.entries.len()
            &&& forall|j: int|
                base <= j < after.entries.len() ==> #[trigger] came(
                    fs,
                    parser,
                    after,
                    j,
                    under[j - base],
                )
            &&& forall|j: int|
                #![trigger under[j - base]]
                base <= j < after.entries.len() ==> {
                    let same = |x: ImportView| x == under[j - base];
                    listed(list, rule, imports, index, j, same) || wanted(
                        after.entries,
                        base,
                        under,
                        j,
                        same,
                    )
                }
            &&& forall|t: int|
                0 <= t < after.entries.len() ==> (q((#[trigger] after.entries[t]).conditions)
                    <==> (t < base && q(st.entries[t].conditions)) || listed(
                    list,
                    rule,
                    imports,
                    index,
                    t,
                    p,
                ) || wanted(after.entries, base, under, t, p))
        }),
    decreases replies, n,
{
    let (after, r) = imported(st, index, rule, imports, replies, n);
    let base = st.entries.len() as int;
    if n == 0 {
        Seq::empty()
    } else {
        let m = (n - 1) as nat;
        let (before, others) = imported(st, index, rule, imports, replies, m);
        lemma_imported(fs, parser, st, file, index, rule, imports, replies, m);
        let a = lemma_imports_come_from(
            fs,
            parser,
            st,
            file,
            index,
            rule,
            imports,
            replies,
            m,
            p,
            q,
        );
        let inner = nested(rule, imports[n - 1], index)->Ok_0;
        let answer = replies[n - 1];
        law_loaded(fs, parser, before, answer.file, inner, answer.reply);
        let b = law_files_come_from_imports(
            fs,
            parser,
            before,
            answer.file,
            inner,
            answer.reply,
            p,
            q,
        );
        let under = a + b;
        let list = others->Ok_0;
        let more = r->Ok_0;
        let mid = before.entries.len() as int;
        assert(more == list.push(more[m as int]));
        assert forall|j: int| base <= j < after.entries.len() implies #[trigger] came(
            fs,
            parser,
            after,
            j,
            under[j - base],
        ) by {
            if j < mid {
                assert(came(fs, parser, before, j, a[j - base]));
                lemma_still_came(fs, parser, before, after, j, a[j - base]);
            } else {
                assert(came(fs, parser, after, j, b[j - mid]));
            }
        }
        assert forall|t: int, pred: spec_fn(ImportView) -> bool|
            #![trigger listed(more, rule, imports, index, t, pred)]
            listed(more, rule, imports, index, t, pred) <==> listed(
                list,
                rule,
                imports,
                index,
                t,
                pred,
            ) || (t == more[m as int] && pred(inner)) by {
            if listed(more, rule, imports, index, t, pred) {
                let d = choose|d: int|
                    0 <= d < more.len() && #[trigger] more[d] == t && (nested(
                        rule,
                        imports[d],
                        index,
                    ) matches Ok(inner) && pred(inner));
                if d < m {
                    assert(list[d] == t);
                }
            }
            if listed(list, rule, imports, index, t, pred) {
                let d = choose|d: int|
                    0 <= d < list.len() && #[trigger] list[d] == t && (nested(
                        rule,
                        imports[d],
                        index,
                    ) matches Ok(inner) && pred(inner));
                assert(more[d] == t);
            }
            if t == more[m as int] && pred(inner) {
                assert(more[m as int] == t);
            }
        }
        assert forall|j: int|
            #![trigger under[j - base]]
            base <= j < after.entries.len() implies {
            let same = |x: ImportView| x == under[j - base];
            listed(more, rule, imports, index, j, same) || wanted(
                after.entries,
                base,
                under,
                j,
                same,
            )
        } by {
            let same = |x: ImportView| x == under[j - base];
            lemma_wanted_parts(before.entries, after.entries, base, a, b, j, same);
            if j < mid {
                let also = |x: ImportView| x == a[j - base];
                assert(same =~= also);
                assert(listed(list, rule, imports, index, j, also) || wanted(
                    before.entries,
                    base,
                    a,
                    j,
                    also,
                ));
            } else if j == mid {
                assert(b[0] == inner);
                assert(more[m as int] == mid);
                assert(same(inner));
            } else {
                let also = |x: ImportView| x == b[j - mid];
                assert(same =~= also);
                assert(first_loaded(after.entries, mid, b, j));
            }
            assert(listed(more, rule, imports, index, j, same) <==> listed(
                list,
                rule,
                imports,
                index,
                j,
                same,
            ) || (j == more[m as int] && same(inner)));
        }
        assert forall|t: int| 0 <= t < after.entries.len() implies (q(
            (#[trigger] after.entries[t]).conditions,
        ) <==> (t < base && q(st.entries[t].conditions)) || listed(
            more,
            rule,
            imports,
            index,
            t,
            p,
        ) || wanted(after.entries, base, under, t, p)) by {
            lemma_wanted_parts(before.entries, after.entries, base, a, b, t, p);
            assert(listed(more, rule, imports, index, t, p) <==> listed(
                list,
                rule,
                imports,
                index,
                t,
                p,
            ) || (t == more[m as int] && p(inner)));
            if t < mid {
                assert(q(before.entries[t].conditions) <==> (t < base && q(
                    st.entries[t].conditions,
                )) || listed(list, rule, imports, index, t, p) || wanted(
                    before.entries,
                    base,
                    a,
                    t,
                    p,
                ));
            } else {
                assert(!listed(list, rule, imports, index, t, p)) by {
                    if listed(list, rule, imports, index, t, p) {
                        let d = choose|d: int|
                            0 <= d < list.len() && #[trigger] list[d] == t && (nested(
                                rule,
                                imports[d],
                                index,
                            ) matches Ok(inner) && p(inner));
                        assert(list[d] < before.entries.len());
                    }
                }
                assert(!wanted(before.entries, base, a, t, p)) by {
                    if wanted(before.entries, base, a, t, p) {
                        let (i, d) = choose|i: int, d: int|
                            base <= i < before.entries.len() && 0 <= d
                                < before.entries[i].dependencies.len()
                                && #[trigger] before.entries[i].dependencies[d] == t && (request(
                                before.entries,
                                base,
                                a,
                                i,
                                d,
                            ) matches Some(inner) && p(inner));
                        assert(before.entries[i].dependencies[d] < before.entries.len());
                    }
                }
            }
        }
        under
    }
}

/// Where a file applies: once a file and all that it imports is loaded, each file applies exactly
/// where it did before, or where one of the imports that lead to it does, as it amounts to in its
/// file.
pub proof fn law_files_apply_where_imports_do<P: SourceProvider, T: StyleSheetParser>(
    fs: P,
    parser: T,
    st: StateView,
    file: PathView,
    rule: ImportView,
    reply: Reply,
    medium: Medium,
    supported: spec_fn(ConditionView) -> bool,
) -> (under: Seq<ImportView>)
    requires
        st.wf(),
        st.has_place(rule.loc),
        answers(fs, parser, st, file, rule, reply),
        loaded(st, file, rule, reply).1 is Ok,
    ensures
        ({
            let (after, r) = loaded(st, file, rule, reply);
            let base = st.entries.len() as int;
            let here = |x: ImportView| applies(x.media, x.supports, medium, supported);
            &&& base + under.len() == after.entries.len()
            &&& under.len() > 0 ==> r->Ok_0 == base && under[0] == rule
            &&& forall|j: int|
                base < j < after.entries.len() ==> #[trigger] first_loaded(
                    after.entries,
                    base,
                    under,
                    j,
                )
            &&& forall|t: int|
                0 <= t < after.entries.len() ==> {
                    let c = (#[trigger] after.entries[t]).conditions;
                    applies(c.media, c.supports, medium, supported) <==> (t < base && applies(
                        st.entries[t].conditions.media,
                        st.entries[t].conditions.supports,
                        medium,
                        supported,
                    )) || (t == r->Ok_0 && here(rule)) || wanted(
                        after.entries,
                        base,
                        under,
                        t,
                        here,
                    )
                }
        }),
{
    let here = |x: ImportView| applies(x.media, x.supports, medium, supported);
    let there = |c: ConditionsView| applies(c.media, c.supports, medium, supported);
    assert(gathers(here, there)) by {
        assert forall|c: ConditionsView, x: ImportView|
            (#[trigger] merged(c, x)).1 is None implies there(merged(c, x).0) == (there(c)
            || here(x)) by {
            law_merged_is_disjunction(c, x, medium, supported);
        }
    }
    let (after, r) = loaded(st, file, rule, reply);
    let base = st.entries.len() as int;
    let under = law_files_come_from_imports(fs, parser, st, file, rule, reply, here, there);
    assert forall|t: int| 0 <= t < after.entries.len() implies {
        let c = (#[trigger] after.entries[t]).conditions;
        applies(c.media, c.supports, medium, supported) <==> (t < base && applies(
            st.entries[t].conditions.media,
            st.entries[t].conditions.supports,
            medium,
            supported,
        )) || (t == r->Ok_0 && here(rule)) || wanted(after.entries, base, under, t, here)
    } by {
        assert(there(after.entries[t].conditions) <==> (t < base && there(st.entries[t].conditions))
            || (t == r->Ok_0 && here(rule)) || wanted(after.entries, base, under, t, here));
    }
    under
}

/// In which layer a file lies: once a file and all that it imports is loaded, each file lies in a
/// layer exactly where it did before, or where one of the imports that lead to it is into that
/// layer, as it amounts to in its file.
pub proof fn law_files_lie_in_layers_of_imports<P: SourceProvider, T: StyleSheetParser>(
    fs: P,
    parser: T,
    st: StateView,
    file: PathView,
    rule: ImportView,
    reply: Reply,
    layer: Option<Seq<Seq<char>>>,
) -> (under: Seq<ImportView>)
    requires
        st.wf(),
        st.has_place(rule.loc),
        answers(fs, parser, st, file, rule, reply),
        loaded(st, file, rule, reply).1 is Ok,
    ensures
        ({
            let (after, r) = loaded(st, file, rule, reply);
            let base = st.entries.len() as int;
            let into = |x: ImportView| x.layer == Some(layer);
            &&& base + under.len() == after.entries.len()
            &&& under.len() > 0 ==> r->Ok_0 == base && under[0] == rule
            &&& forall|j: int|
                base < j < after.entries.len() ==> #[trigger] first_loaded(
                    after.entries,
                    base,
                    under,
                    j,
                )
            &&& forall|t: int|
                0 <= t < after.entries.len() ==> ((#[trigger] after.entries[t]).conditions.layer
                    == Some(layer) <==> (t < base && st.entries[t].conditions.layer == Some(layer))
                    || (t == r->Ok_0 && rule.layer == Some(layer)) || wanted(
                    after.entries,
                    base,
                    under,
                    t,
                    into,
                ))
        }),
{
    let into = |x: ImportView| x.layer == Some(layer);
    let inside = |c: ConditionsView| c.layer == Some(layer);
    assert(gathers(into, inside)) by {
        assert forall|c: ConditionsView, x: ImportView|
            (#[trigger] merged(c, x)).1 is None implies inside(merged(c, x).0) == (inside(c)
            || into(x)) by {
            law_merged(c, x);
        }
    }
    let (after, r) = loaded(st, file, rule, reply);
    let base = st.entries.len() as int;
    let under = law_files_come_from_imports(fs, parser, st, file, rule, reply, into, inside);
    assert forall|t: int| 0 <= t < after.entries.len() implies ((
    #[trigger] after.entries[t]).conditions.layer == Some(layer) <==> (t < base
        && st.entries[t].conditions.layer == Some(layer)) || (t == r->Ok_0 && rule.layer == Some(
        layer,
    )) || wanted(after.entries, base, under, t, into)) by {
        assert(inside(after.entries[t].conditions) <==> (t < base && inside(
            st.entries[t].conditions,
        )) || (t == r->Ok_0 && into(rule)) || wanted(after.entries, base, under, t, into));
    }
    under
}

} // verus!
