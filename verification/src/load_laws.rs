//! What holds of files as they are loaded.
use crate::bundle_state::{
    entered, lemma_entered, with_dependencies, with_sheet, with_source, StateView,
};
use crate::bundler::{bundled, entry_rule};
use crate::conditions::{kept, law_prefixed, nested};
use crate::error::{
    BundleErrorView, Error, ErrorLocationView, ErrorView, ParserError, ParserErrorView,
};
use crate::in_force::{in_force, lemma_same_in_force, rule_in_force};
use crate::layers::{in_layers, lemma_same_in_layers, rule_in_layers};
use crate::load::{
    answer_imports, answers, imported, imports_of, lemma_imported, lemma_prefixed_imports, loaded,
    parses, reads, sheet_of, ImportReply, Reply, SourceProvider, StyleSheetParser,
};
use crate::media::Medium;
use crate::path::PathView;
use crate::rules::{CssRuleList, ImportView, RuleView};
use crate::source_map::recorded;
use crate::supports::ConditionView;
use vstd::prelude::*;

verus! {

/// The rules of a loaded file are, place by place, those that the parser gave, except that in each
/// `@layer` statement of a file that is imported into a named layer the name of that layer stands
/// before each name. So the rules in force are those in force of the parser's rules, in the layers
/// that they lie in there, and the imports are those that the parser gave.
pub proof fn law_loaded_rules_are_kept(
    file: Seq<char>,
    rules: Seq<RuleView>,
    rule: ImportView,
    medium: Medium,
    supported: spec_fn(ConditionView) -> bool,
    outer: Seq<Option<Seq<Seq<char>>>>,
)
    ensures
        ({
            let sheet = sheet_of(file, rules, rule);
            &&& sheet.sources == seq![file]
            &&& sheet.rules.len() == rules.len()
            &&& forall|k: int|
                0 <= k < rules.len() ==> kept(rules[k], #[trigger] sheet.rules[k], rule.layer)
            &&& in_force(sheet.rules, medium, supported) == in_force(rules, medium, supported)
            &&& in_layers(sheet.rules, medium, supported, outer) == in_layers(
                rules,
                medium,
                supported,
                outer,
            )
            &&& imports_of(sheet.rules) == imports_of(rules)
        }),
{
    let sheet = sheet_of(file, rules, rule);
    assert forall|k: int| 0 <= k < rules.len() implies kept(
        rules[k],
        #[trigger] sheet.rules[k],
        rule.layer,
    ) && rule_in_force(sheet.rules[k], medium, supported) == rule_in_force(
        rules[k],
        medium,
        supported,
    ) && rule_in_layers(sheet.rules[k], medium, supported, outer) == rule_in_layers(
        rules[k],
        medium,
        supported,
        outer,
    ) by {
        law_prefixed(rules[k], rule.layer);
        if rules[k] is LayerStatement {
            assert(rule_in_force(sheet.rules[k], medium, supported) =~= Seq::empty());
            assert(rule_in_force(rules[k], medium, supported) =~= Seq::empty());
            assert(rule_in_layers(sheet.rules[k], medium, supported, outer) =~= Seq::empty());
            assert(rule_in_layers(rules[k], medium, supported, outer) =~= Seq::empty());
        }
    }
    lemma_same_in_force(sheet.rules, rules, medium, supported);
    lemma_same_in_layers(sheet.rules, rules, medium, supported, outer);
    lemma_prefixed_imports(rules, rule.layer);
}

/// The imports of a file are all of its `@import` rules, in their order, wherever they stand among
/// its rules.
pub proof fn law_imports_of(a: Seq<RuleView>, b: Seq<RuleView>, rule: RuleView)
    ensures
        imports_of(a + b) == imports_of(a) + imports_of(b),
        rule matches RuleView::Import(import) ==> imports_of(seq![rule]) == seq![import],
        !(rule is Import) ==> imports_of(seq![rule]) == Seq::<ImportView>::empty(),
        imports_of(Seq::empty()) == Seq::<ImportView>::empty(),
    decreases b.len(),
{
    let none = Seq::<RuleView>::empty();
    assert(seq![rule].drop_last() =~= none);
    assert(imports_of(none) =~= Seq::empty());
    if let RuleView::Import(import) = rule {
        assert(imports_of(seq![rule]) =~= seq![import]);
    }
    if b.len() > 0 {
        law_imports_of(a, b.drop_last(), rule);
        assert((a + b).drop_last() =~= a + b.drop_last());
        assert(imports_of(a + b) =~= imports_of(a) + imports_of(b));
    } else {
        assert(a + b =~= a);
        assert(imports_of(a + b) =~= imports_of(a) + imports_of(b));
    }
}

/// A file that is new gets the next index, and keeps its path. Where it cannot be read, that is
/// reported at its import, for the reason that the provider gives, and nothing goes to the source
/// map. Where it cannot be parsed, what the parser reports is reported, and the text of the file is
/// part of the source map.
pub proof fn law_new_file_fails(st: StateView, file: PathView, rule: ImportView, reply: Reply)
    requires
        st.wf(),
        st.has_place(rule.loc),
        !st.indexes.contains_key(file.components),
        st.entries.len() <= u32::MAX,
    ensures
        ({
            let (after, r) = loaded(st, file, rule, reply);
            let name = if rule.loc.source_index < st.entries.len() {
                st.entries[rule.loc.source_index as int].file
            } else {
                file.text
            };
            &&& reply matches Reply::ReadFailed(reason) ==> {
                &&& r == Err::<u32, ErrorView<BundleErrorView>>(
                    ErrorView {
                        kind: BundleErrorView::IOError(reason),
                        loc: Some(
                            ErrorLocationView {
                                filename: name,
                                line: rule.loc.line,
                                column: rule.loc.column,
                            },
                        ),
                    },
                )
                &&& after.source_map == st.source_map
            }
            &&& reply matches Reply::ParseFailed { code, error } ==> {
                &&& r == Err::<u32, ErrorView<BundleErrorView>>(
                    ErrorView { kind: BundleErrorView::ParserError(error.kind), loc: error.loc },
                )
                &&& after.source_map == match st.source_map {
                    Some(map) => Some(recorded(map, file.text, code)),
                    None => None,
                }
            }
            &&& !(reply is Parsed) ==> {
                &&& after.indexes == st.indexes.insert(file.components, st.entries.len() as u32)
                &&& after.entries.len() == st.entries.len() + 1
                &&& after.entries.last().file == file.text
            }
        }),
{
}

/// A file that is new and can be parsed has the rules that the parser gave, whether all of its
/// imports can be loaded or not. Where they can, it has the next index, and the indexes of the
/// files of its imports; otherwise the first import that fails is reported.
pub proof fn law_new_file_is_loaded<P: SourceProvider, T: StyleSheetParser>(
    fs: P,
    parser: T,
    st: StateView,
    file: PathView,
    rule: ImportView,
    code: Seq<char>,
    rules: Seq<RuleView>,
    imports: Seq<ImportReply>,
)
    requires
        st.wf(),
        !st.indexes.contains_key(file.components),
        st.entries.len() <= u32::MAX,
        answers(fs, parser, st, file, rule, Reply::Parsed { code, rules, imports }),
    ensures
        ({
            let index = st.entries.len() as u32;
            let (found, _) = entered(st, file, rule);
            let read = StateView {
                source_map: match st.source_map {
                    Some(map) => Some(recorded(map, file.text, code)),
                    None => None,
                },
                ..found
            };
            let list = imports_of(rules);
            let (last, dependencies) = imported(read, index, rule, list, imports, list.len());
            let (after, r) = loaded(st, file, rule, Reply::Parsed { code, rules, imports });
            &&& found.entries.len() == index + 1
            &&& found.entries.last().conditions.layer == rule.layer
            &&& found.entries.last().conditions.supports == rule.supports
            &&& found.entries.last().conditions.media == rule.media
            &&& found.entries.last().loc == rule.loc
            &&& found.entries.last().file == file.text
            &&& found.indexes == st.indexes.insert(file.components, index)
            &&& dependencies matches Ok(d) ==> r == Ok::<u32, ErrorView<BundleErrorView>>(index)
            &&& dependencies matches Err(e) ==> r == Err::<u32, ErrorView<BundleErrorView>>(e)
            &&& after.indexes == last.indexes
            &&& after.source_map == last.source_map
            &&& after.entries.len() == last.entries.len()
            &&& forall|j: int|
                0 <= j < last.entries.len() && j != index ==> #[trigger] after.entries[j]
                    == last.entries[j]
            &&& {
                let e = after.entries[index as int];
                &&& e.conditions == last.entries[index as int].conditions
                &&& e.file == last.entries[index as int].file
                &&& dependencies matches Ok(d) ==> e.dependencies == d
                &&& e.stylesheet matches Some(sheet) && sheet.sources == seq![file.text]
                    && sheet.rules.len() == rules.len() && forall|k: int|
                    0 <= k < rules.len() ==> kept(rules[k], #[trigger] sheet.rules[k], rule.layer)
            }
        }),
{
    let index = st.entries.len() as u32;
    let sheet = sheet_of(file.text, rules, rule);
    assert forall|k: int| 0 <= k < rules.len() implies kept(
        rules[k],
        #[trigger] sheet.rules[k],
        rule.layer,
    ) by {
        law_prefixed(rules[k], rule.layer);
    }
    let list = imports_of(rules);
    let read = with_source(entered(st, file, rule).0, file.text, code);
    let (last, dependencies) = imported(read, index, rule, list, imports, list.len());
    let (after, r) = loaded(st, file, rule, Reply::Parsed { code, rules, imports });
    let parsed = with_sheet(last, index, sheet);
    lemma_entered(st, file, rule);
    assert(read.wf());
    lemma_imported(fs, parser, read, file, index, rule, list, imports, list.len());
    assert(parsed.entries.len() == last.entries.len());
    match dependencies {
        Ok(d) => {
            assert(after == with_dependencies(parsed, index, d));
        },
        Err(_) => {
            assert(after == parsed);
        },
    }
}

/// The imports of a file are loaded in turn. Each of them is loaded as the import that it amounts
/// to in its file, and adds the index of its file; one that cannot be joined to the import of its file
/// is reported where it stands. After one that fails none is loaded.
pub proof fn law_imports_in_turn(
    st: StateView,
    index: u32,
    rule: ImportView,
    imports: Seq<ImportView>,
    replies: Seq<ImportReply>,
    n: nat,
)
    requires
        n < replies.len(),
    ensures
        ({
            let (before, others) = imported(st, index, rule, imports, replies, n);
            let (after, r) = imported(st, index, rule, imports, replies, n + 1);
            let import = imports[n as int];
            &&& n == 0 ==> before == st && others == Ok::<Seq<u32>, ErrorView<BundleErrorView>>(
                Seq::empty(),
            )
            &&& others is Err ==> (after, r) == (before, others)
            &&& others matches Ok(list) ==> match nested(rule, import, index) {
                Err(kind) => {
                    &&& after == before
                    &&& r == Err::<Seq<u32>, ErrorView<BundleErrorView>>(
                        ErrorView {
                            kind,
                            loc: Some(
                                ErrorLocationView {
                                    filename: before.entries[index as int].file,
                                    line: import.loc.line,
                                    column: import.loc.column,
                                },
                            ),
                        },
                    )
                },
                Ok(inner) => {
                    let reply = replies[n as int];
                    let one = loaded(before, reply.file, inner, reply.reply);
                    &&& after == one.0
                    &&& one.1 matches Ok(d) ==> r == Ok::<Seq<u32>, ErrorView<BundleErrorView>>(
                        list.push(d),
                    )
                    &&& one.1 matches Err(e) ==> r == Err::<
                        Seq<u32>,
                        ErrorView<BundleErrorView>,
                    >(e)
                },
            }
        }),
{
}

/// What is asked for a file that is new: the provider for the text at its path, the parser for the
/// rules of that text, with the next index, and then, import by import, up to the first one that
/// fails, what is asked for the file that the import refers to from the path of its own file.
pub proof fn law_asked_for_new_file<P: SourceProvider, T: StyleSheetParser>(
    fs: P,
    parser: T,
    st: StateView,
    file: PathView,
    rule: ImportView,
    reply: Reply,
    n: int,
)
    requires
        !st.indexes.contains_key(file.components),
        st.entries.len() <= u32::MAX,
        answers(fs, parser, st, file, rule, reply),
    ensures
        reply matches Reply::ReadFailed(reason) ==> reads(fs, file.text, Err(reason)),
        reply matches Reply::ParseFailed { code, error } ==> reads(fs, file.text, Ok(code))
            && parses(parser, file.text, code, st.entries.len() as u32, Err(error)),
        reply matches Reply::Parsed { code, rules, imports } ==> {
            let index = st.entries.len() as u32;
            let list = imports_of(rules);
            let read = StateView {
                source_map: match st.source_map {
                    Some(map) => Some(recorded(map, file.text, code)),
                    None => None,
                },
                ..entered(st, file, rule).0
            };
            &&& reads(fs, file.text, Ok(code))
            &&& parses(parser, file.text, code, index, Ok(rules))
            &&& imports.len() == list.len()
            &&& 0 <= n < list.len() ==> {
                let (before, others) = imported(read, index, rule, list, imports, n as nat);
                others is Ok ==> (nested(rule, list[n], index) matches Ok(inner) ==> {
                    &&& imports[n].file.is_reference(file.text, list[n].url)
                    &&& answers(fs, parser, before, imports[n].file, inner, imports[n].reply)
                })
            }
        },
{
    if let Reply::Parsed { code, rules, imports } = reply {
        let index = st.entries.len() as u32;
        let list = imports_of(rules);
        let read = with_source(entered(st, file, rule).0, file.text, code);
        if 0 <= n < list.len() {
            lemma_answers_of_first(
                fs,
                parser,
                read,
                file,
                index,
                rule,
                list,
                imports,
                (n + 1) as nat,
                list.len(),
            );
        }
    }
}

/// Answers for the first imports are among those for more of them.
proof fn lemma_answers_of_first<P: SourceProvider, T: StyleSheetParser>(
    fs: P,
    parser: T,
    st: StateView,
    file: PathView,
    index: u32,
    rule: ImportView,
    imports: Seq<ImportView>,
    replies: Seq<ImportReply>,
    m: nat,
    n: nat,
)
    requires
        m <= n <= replies.len(),
        answer_imports(fs, parser, st, file, index, rule, imports, replies, n),
    ensures
        answer_imports(fs, parser, st, file, index, rule, imports, replies, m),
    decreases n,
{
    if m < n {
        lemma_answers_of_first(
            fs,
            parser,
            st,
            file,
            index,
            rule,
            imports,
            replies,
            m,
            (n - 1) as nat,
        );
    }
}

/// A file for which there is no index left is reported at its import, and nothing changes.
pub proof fn law_too_many_files(st: StateView, file: PathView, rule: ImportView, reply: Reply)
    requires
        !st.indexes.contains_key(file.components),
        st.entries.len() > u32::MAX,
    ensures
        ({
            let (after, r) = loaded(st, file, rule, reply);
            &&& after == st
            &&& r matches Err(e) && e.kind is TooManyFiles && e.loc == Some(
                ErrorLocationView {
                    filename: st.entries[rule.loc.source_index as int].file,
                    line: rule.loc.line,
                    column: rule.loc.column,
                },
            )
        }),
{
}

/// The answers for a file are those that the provider gives for its path, and that the parser gives
/// for its path, its text and its index.
pub proof fn law_answers_are_given<P: SourceProvider, T: StyleSheetParser>(
    fs: P,
    parser: T,
    file: Seq<char>,
    code: Seq<char>,
    index: u32,
    rules: Seq<RuleView>,
    reason: Seq<char>,
    error: ErrorView<ParserErrorView>,
)
    ensures
        reads(fs, file, Ok(code)) ==> exists|name: &str, text: String|
            #![trigger call_ensures(P::read, (&fs, name), Ok(text))]
            name@ == file && text@ == code && call_ensures(P::read, (&fs, name), Ok(text)),
        reads(fs, file, Err(reason)) ==> exists|name: &str, text: String|
            #![trigger call_ensures(P::read, (&fs, name), Err(text))]
            name@ == file && text@ == reason && call_ensures(P::read, (&fs, name), Err(text)),
        parses(parser, file, code, index, Ok(rules)) ==> exists|
            name: &str,
            text: &str,
            list: CssRuleList,
        |
            #![trigger call_ensures(T::parse, (&parser, name, text, index), Ok(list))]
            name@ == file && text@ == code && list@ == rules && call_ensures(
                T::parse,
                (&parser, name, text, index),
                Ok(list),
            ),
        parses(parser, file, code, index, Err(error)) ==> exists|
            name: &str,
            text: &str,
            e: Error<ParserError>,
        |
            #![trigger call_ensures(T::parse, (&parser, name, text, index), Err(e))]
            name@ == file && text@ == code && e@ == error && call_ensures(
                T::parse,
                (&parser, name, text, index),
                Err(e),
            ),
{
    if reads(fs, file, Ok(code)) {
        let (name, r) = choose|name: &str, r: Result<String, String>| #[trigger]
            call_ensures(P::read, (&fs, name), r) && name@ == file && Ok::<Seq<char>, Seq<char>>(
                code,
            ) == match r {
                Ok(code) => Ok::<Seq<char>, Seq<char>>(code@),
                Err(reason) => Err(reason@),
            };
        let text = r->Ok_0;
        assert(call_ensures(P::read, (&fs, name), Ok(text)));
    }
    if reads(fs, file, Err(reason)) {
        let (name, r) = choose|name: &str, r: Result<String, String>| #[trigger]
            call_ensures(P::read, (&fs, name), r) && name@ == file && Err::<Seq<char>, Seq<char>>(
                reason,
            ) == match r {
                Ok(code) => Ok::<Seq<char>, Seq<char>>(code@),
                Err(reason) => Err(reason@),
            };
        let text = r->Err_0;
        assert(call_ensures(P::read, (&fs, name), Err(text)));
    }
    if parses(parser, file, code, index, Ok(rules)) {
        let (name, text, r) = choose|
            name: &str,
            text: &str,
            r: Result<CssRuleList, Error<ParserError>>,
        | #[trigger]
            call_ensures(T::parse, (&parser, name, text, index), r) && name@ == file && text@
                == code && Ok::<Seq<RuleView>, ErrorView<ParserErrorView>>(rules) == match r {
                Ok(rules) => Ok::<Seq<RuleView>, ErrorView<ParserErrorView>>(rules@),
                Err(e) => Err(e@),
            };
        let list = r->Ok_0;
        assert(call_ensures(T::parse, (&parser, name, text, index), Ok(list)));
    }
    if parses(parser, file, code, index, Err(error)) {
        let (name, text, r) = choose|
            name: &str,
            text: &str,
            r: Result<CssRuleList, Error<ParserError>>,
        | #[trigger]
            call_ensures(T::parse, (&parser, name, text, index), r) && name@ == file && text@
                == code && Err::<Seq<RuleView>, ErrorView<ParserErrorView>>(error) == match r {
                Ok(rules) => Ok::<Seq<RuleView>, ErrorView<ParserErrorView>>(rules@),
                Err(e) => Err(e@),
            };
        let e = r->Err_0;
        assert(call_ensures(T::parse, (&parser, name, text, index), Err(e)));
    }
}

/// A bundle starts with its file, without conditions: where the file of a new bundler cannot be
/// read, that is reported at the start of the file itself.
pub proof fn law_bundle_of_missing_file(st: StateView, file: PathView, reason: Seq<char>)
    requires
        st.wf(),
        st.entries.len() == 0,
    ensures
        bundled(st, file, Reply::ReadFailed(reason)).1 matches Err(e) && e.kind
            == BundleErrorView::IOError(reason) && e.loc == Some(
            ErrorLocationView { filename: file.text, line: 1, column: 0 },
        ),
        entry_rule().layer is None,
        entry_rule().supports is None,
        entry_rule().media.len() == 0,
{
    assert(!st.indexes.contains_key(file.components)) by {
        if st.indexes.contains_key(file.components) {
            assert(st.indexes[file.components] < st.entries.len());
        }
    }
}

} // verus!
