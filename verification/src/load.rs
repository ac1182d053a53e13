//! Loading a file and the files that it imports.
use crate::bundle_state::{
    entered, error_of, lemma_entered, with_dependencies, with_sheet, with_source, BundleState, Entered, StateView,
};
use crate::conditions::{merged, nested, prefixed};
use crate::entry::{EntryView, StyleSheet, StyleSheetView};
use crate::error::{
    BundleErrorKind, BundleErrorView, Error, ErrorView, ParserError, ParserErrorView,
};
use crate::location::Location;
use crate::path::{FilePath, PathView};
use crate::rules::{
    layer_view, lemma_rule_views, rule_views, CssRule, CssRuleList, ImportRule, ImportView,
    LayerName, RuleView,
};
use crate::text::texts;
use vstd::prelude::*;

verus! {

/// Where the text of files comes from.
pub trait SourceProvider: Send + Sync {
    /// The text of a file, or the reason why it cannot be read.
    fn read(&self, file: &str) -> Result<String, String>;
}

/// What turns the text of a file into rules.
pub trait StyleSheetParser {
    /// The rules of the file with the given name, text and index.
    fn parse(&self, filename: &str, code: &str, source_index: u32) -> Result<
        CssRuleList,
        Error<ParserError>,
    >;
}

/// What the provider and the parser answered when a file was loaded, and where its imports led.
pub enum Reply {
    /// The file could not be read.
    ReadFailed(Seq<char>),
    /// The file could not be parsed.
    ParseFailed { code: Seq<char>, error: ErrorView<ParserErrorView> },
    /// The file has these rules; its imports led to these files, of which each was answered in
    /// its turn.
    Parsed { code: Seq<char>, rules: Seq<RuleView>, imports: Seq<ImportReply> },
}

/// The file that an import led to, and what was answered when it was loaded. Where the file had
/// been loaded before, or was never asked for, the answer means nothing.
pub struct ImportReply {
    pub file: PathView,
    pub reply: Reply,
}

/// Whether the provider may answer like this when it is asked for a file.
pub open spec fn reads<P: SourceProvider>(
    fs: P,
    file: Seq<char>,
    answer: Result<Seq<char>, Seq<char>>,
) -> bool {
    exists|name: &str, r: Result<String, String>| #[trigger]
        call_ensures(P::read, (&fs, name), r) && name@ == file && answer == match r {
            Ok(code) => Ok::<Seq<char>, Seq<char>>(code@),
            Err(reason) => Err(reason@),
        }
}

/// Whether the parser may answer like this when it is handed the text of a file.
pub open spec fn parses<T: StyleSheetParser>(
    parser: T,
    file: Seq<char>,
    code: Seq<char>,
    source_index: u32,
    answer: Result<Seq<RuleView>, ErrorView<ParserErrorView>>,
) -> bool {
    exists|name: &str, text: &str, r: Result<CssRuleList, Error<ParserError>>| #[trigger]
        call_ensures(T::parse, (&parser, name, text, source_index), r) && name@ == file && text@
            == code && answer == match r {
            Ok(rules) => Ok::<Seq<RuleView>, ErrorView<ParserErrorView>>(rules@),
            Err(e) => Err(e@),
        }
}

/// The imports among the rules of a file.
pub open spec fn imports_of(rules: Seq<RuleView>) -> Seq<ImportView>
    decreases rules.len(),
{
    if rules.len() == 0 {
        Seq::empty()
    } else {
        let others = imports_of(rules.drop_last());
        match rules.last() {
            RuleView::Import(import) => others.push(import),
            _ => others,
        }
    }
}

/// An error of the parser as an error of the bundle.
pub open spec fn parser_error(e: ErrorView<ParserErrorView>) -> ErrorView<BundleErrorView> {
    ErrorView { kind: BundleErrorView::ParserError(e.kind), loc: e.loc }
}

/// The parsed form of a file that is imported as `rule` says.
pub open spec fn sheet_of(file: Seq<char>, rules: Seq<RuleView>, rule: ImportView) -> StyleSheetView {
    StyleSheetView {
        sources: seq![file],
        rules: rules.map_values(|r: RuleView| prefixed(r, rule.layer)),
    }
}

/// The state in which a file and all that it imports is loaded, and the index of the file, where
/// the file is imported as `rule` says and the provider and the parser answer as `reply` says.
pub open spec fn loaded(st: StateView, file: PathView, rule: ImportView, reply: Reply) -> (
    StateView,
    Result<u32, ErrorView<BundleErrorView>>,
)
    decreases reply, 1int,
{
    let (found, place) = entered(st, file, rule);
    match place {
        Err(e) => (found, Err(e)),
        Ok(Entered::Loaded(index)) => (found, Ok(index)),
        Ok(Entered::New(index)) => match reply {
            Reply::ReadFailed(reason) => (
                found,
                Err(found.error_at(BundleErrorView::IOError(reason), rule.loc)),
            ),
            Reply::ParseFailed { code, error } => (
                with_source(found, file.text, code),
                Err(parser_error(error)),
            ),
            Reply::Parsed { code, rules, imports } => {
                let read = with_source(found, file.text, code);
                let (st, dependencies) = imported(
                    read,
                    index,
                    rule,
                    imports_of(rules),
                    imports,
                    imports_of(rules).len(),
                );
                let parsed = with_sheet(st, index, sheet_of(file.text, rules, rule));
                match dependencies {
                    Err(e) => (parsed, Err(e)),
                    Ok(d) => (with_dependencies(parsed, index, d), Ok(index)),
                }
            },
        },
    }
}

/// The state in which the first `n` imports of the file with the given index are loaded, and the
/// indexes of their files, where that file is itself imported as `rule` says. The first import
/// that fails is the last one that is tried.
pub open spec fn imported(
    st: StateView,
    index: u32,
    rule: ImportView,
    imports: Seq<ImportView>,
    replies: Seq<ImportReply>,
    n: nat,
) -> (StateView, Result<Seq<u32>, ErrorView<BundleErrorView>>)
    decreases replies, n,
{
    if n == 0 || n > replies.len() {
        (st, Ok(Seq::empty()))
    } else {
        let (before, others) = imported(st, index, rule, imports, replies, (n - 1) as nat);
        match others {
            Err(e) => (before, Err(e)),
            Ok(dependencies) => {
                let import = imports[n - 1];
                match nested(rule, import, index) {
                    Err(kind) => (
                        before,
                        Err(
                            before.error_at(kind, Location { source_index: index, ..import.loc }),
                        ),
                    ),
                    Ok(inner) => {
                        let (after, dependency) = loaded(
                            before,
                            replies[n - 1].file,
                            inner,
                            replies[n - 1].reply,
                        );
                        match dependency {
                            Err(e) => (after, Err(e)),
                            Ok(d) => (after, Ok(dependencies.push(d))),
                        }
                    },
                }
            },
        }
    }
}


/// Whether the provider and the parser may answer as `reply` says when a file and all that it
/// imports is loaded, each being asked for what loading needs.
pub open spec fn answers<P: SourceProvider, T: StyleSheetParser>(
    fs: P,
    parser: T,
    st: StateView,
    file: PathView,
    rule: ImportView,
    reply: Reply,
) -> bool
    decreases reply, 1int,
{
    let (found, place) = entered(st, file, rule);
    match place {
        Ok(Entered::New(index)) => match reply {
            Reply::ReadFailed(reason) => reads(fs, file.text, Err(reason)),
            Reply::ParseFailed { code, error } => {
                &&& reads(fs, file.text, Ok(code))
                &&& parses(parser, file.text, code, index, Err(error))
            },
            Reply::Parsed { code, rules, imports } => {
                &&& reads(fs, file.text, Ok(code))
                &&& parses(parser, file.text, code, index, Ok(rules))
                &&& imports.len() == imports_of(rules).len()
                &&& answer_imports(
                    fs,
                    parser,
                    with_source(found, file.text, code),
                    file,
                    index,
                    rule,
                    imports_of(rules),
                    imports,
                    imports.len(),
                )
            },
        },
        _ => true,
    }
}

/// Whether the provider and the parser may answer as `replies` says when the first `n` imports of
/// a file are loaded.
pub open spec fn answer_imports<P: SourceProvider, T: StyleSheetParser>(
    fs: P,
    parser: T,
    st: StateView,
    file: PathView,
    index: u32,
    rule: ImportView,
    imports: Seq<ImportView>,
    replies: Seq<ImportReply>,
    n: nat,
) -> bool
    decreases replies, n,
{
    0 < n <= replies.len() ==> {
        let (before, others) = imported(st, index, rule, imports, replies, (n - 1) as nat);
        &&& answer_imports(fs, parser, st, file, index, rule, imports, replies, (n - 1) as nat)
        &&& others is Ok ==> match nested(rule, imports[n - 1], index) {
            Ok(inner) => {
                &&& replies[n - 1].file.is_reference(file.text, imports[n - 1].url)
                &&& answers(
                    fs,
                    parser,
                    before,
                    replies[n - 1].file,
                    inner,
                    replies[n - 1].reply,
                )
            },
            Err(_) => true,
        }
    }
}

/// Whether a file is there as a whole: with its rules and its path, and with the index of a file
/// for each of its imports.
pub open spec fn complete(e: EntryView) -> bool {
    e.stylesheet matches Some(sheet) && sheet.sources == seq![e.file] && e.dependencies.len()
        == imports_of(sheet.rules).len()
}

/// Whether a file applies everywhere, without media queries and without an `@supports` condition.
pub open spec fn plain(e: EntryView) -> bool {
    e.conditions.media.len() == 0 && e.conditions.supports is None
}

/// Whether nothing but the conditions of files that were there has changed on the way to `after`,
/// and files that applied everywhere do so still.
pub open spec fn extends(before: StateView, after: StateView) -> bool {
    &&& before.entries.len() <= after.entries.len()
    &&& forall|i: int|
        0 <= i < before.entries.len() ==> #[trigger] after.entries[i] == (EntryView {
            conditions: after.entries[i].conditions,
            ..before.entries[i]
        }) && (plain(before.entries[i]) ==> plain(after.entries[i]))
    &&& forall|key: Seq<Seq<char>>| #[trigger]
        before.indexes.contains_key(key) ==> after.indexes.contains_key(key)
            && after.indexes[key] == before.indexes[key]
}

/// Whether the files that have come on the way to `after` are there as a whole.
pub open spec fn completes(before: StateView, after: StateView) -> bool {
    forall|i: int|
        before.entries.len() <= i < after.entries.len() ==> complete(#[trigger] after.entries[i])
}

/// Putting the layers that a file names into another does not touch its imports.
pub proof fn lemma_prefixed_imports(rules: Seq<RuleView>, layer: Option<Option<Seq<Seq<char>>>>)
    ensures
        imports_of(rules.map_values(|r: RuleView| prefixed(r, layer))) == imports_of(rules),
    decreases rules.len(),
{
    let mapped = rules.map_values(|r: RuleView| prefixed(r, layer));
    if rules.len() > 0 {
        lemma_prefixed_imports(rules.drop_last(), layer);
        assert(mapped.drop_last() =~= rules.drop_last().map_values(
            |r: RuleView| prefixed(r, layer),
        ));
    }
}

/// Loading a file leaves the files that were there as they are, up to their conditions; where it
/// succeeds, the file has the index that is returned, and it and all that came with it are there
/// as a whole.
pub proof fn law_loaded<P: SourceProvider, T: StyleSheetParser>(
    fs: P,
    parser: T,
    st: StateView,
    file: PathView,
    rule: ImportView,
    reply: Reply,
)
    requires
        st.wf(),
        st.has_place(rule.loc),
        answers(fs, parser, st, file, rule, reply),
    ensures
        ({
            let (after, r) = loaded(st, file, rule, reply);
            &&& after.wf()
            &&& extends(st, after)
            &&& r matches Ok(index) ==> {
                &&& index < after.entries.len()
                &&& after.indexes.contains_key(file.components)
                &&& after.indexes[file.components] == index
                &&& completes(st, after)
            }
        }),
    decreases reply, 1int,
{
    let (found, place) = entered(st, file, rule);
    lemma_entered(st, file, rule);
    if let Ok(Entered::New(index)) = place {
        if let Reply::Parsed { code, rules, imports } = reply {
            let list = imports_of(rules);
            let read = with_source(found, file.text, code);
            lemma_imported(fs, parser, read, file, index, rule, list, imports, list.len());
            lemma_prefixed_imports(rules, rule.layer);
            let (last, dependencies) = imported(read, index, rule, list, imports, list.len());
            let (after, r) = loaded(st, file, rule, reply);
            assert(read.wf());
            assert(read.indexes.contains_key(file.components));
            assert(after.indexes == last.indexes);
            assert(after.wf());
            assert forall|key: Seq<Seq<char>>| #[trigger]
                st.indexes.contains_key(key) implies after.indexes.contains_key(key)
                && after.indexes[key] == st.indexes[key] by {
                assert(read.indexes.contains_key(key));
            }
            assert forall|i: int| 0 <= i < st.entries.len() implies #[trigger] after.entries[i] == (
            EntryView { conditions: after.entries[i].conditions, ..st.entries[i] }) && (plain(
                st.entries[i],
            ) ==> plain(after.entries[i])) by {
                assert(read.entries[i] == st.entries[i]);
                assert(last.entries[i] == after.entries[i]);
            }
            assert(extends(st, after));
            assert(r is Ok ==> completes(st, after));
        }
    }
}

/// What [`law_loaded`] says, of the first imports of a file.
pub proof fn lemma_imported<P: SourceProvider, T: StyleSheetParser>(
    fs: P,
    parser: T,
    st: StateView,
    file: PathView,
    index: u32,
    rule: ImportView,
    imports: Seq<ImportView>,
    replies: Seq<ImportReply>,
    n: nat,
)
    requires
        st.wf(),
        index < st.entries.len(),
        n <= replies.len(),
        answer_imports(fs, parser, st, file, index, rule, imports, replies, n),
    ensures
        ({
            let (after, r) = imported(st, index, rule, imports, replies, n);
            &&& after.wf()
            &&& extends(st, after)
            &&& r matches Ok(dependencies) ==> {
                &&& dependencies.len() == n
                &&& forall|d: int|
                    0 <= d < n ==> #[trigger] dependencies[d] < after.entries.len()
                &&& completes(st, after)
            }
        }),
    decreases replies, n,
{
    if n > 0 {
        lemma_imported(fs, parser, st, file, index, rule, imports, replies, (n - 1) as nat);
        let (before, others) = imported(st, index, rule, imports, replies, (n - 1) as nat);
        if others is Ok {
            if let Ok(inner) = nested(rule, imports[n - 1], index) {
                law_loaded(fs, parser, before, replies[n - 1].file, inner, replies[n - 1].reply);
            }
        }
    }
}

/// Loading a file that has an index asks for nothing: any answers will do, and the outcome is the
/// same for all of them. The file takes on the conditions of this import, and keeps its index;
/// nothing else changes, and nothing goes to the source map.
pub proof fn law_loaded_before<P: SourceProvider, T: StyleSheetParser>(
    fs: P,
    parser: T,
    st: StateView,
    file: PathView,
    rule: ImportView,
    a: Reply,
    b: Reply,
)
    requires
        st.wf(),
        st.indexes.contains_key(file.components),
    ensures
        answers(fs, parser, st, file, rule, a),
        loaded(st, file, rule, a) == loaded(st, file, rule, b),
        ({
            let index = st.indexes[file.components];
            let e = st.entries[index as int];
            let (conditions, error) = merged(e.conditions, rule);
            let (after, r) = loaded(st, file, rule, a);
            &&& after.entries == st.entries.update(
                index as int,
                EntryView { conditions, ..e },
            )
            &&& after.indexes == st.indexes
            &&& after.source_map == st.source_map
            &&& r == match error {
                None => Ok::<u32, ErrorView<BundleErrorView>>(index),
                Some(kind) => Err(st.error_at(kind, rule.loc)),
            }
        }),
{
}

/// Only the answers for the first imports matter to the first imports.
proof fn lemma_first_imports<P: SourceProvider, T: StyleSheetParser>(
    fs: P,
    parser: T,
    st: StateView,
    file: PathView,
    index: u32,
    rule: ImportView,
    imports: Seq<ImportView>,
    a: Seq<ImportReply>,
    b: Seq<ImportReply>,
    n: nat,
)
    requires
        n <= a.len(),
        n <= b.len(),
        forall|i: int| 0 <= i < n ==> a[i] == b[i],
    ensures
        imported(st, index, rule, imports, a, n) == imported(st, index, rule, imports, b, n),
        answer_imports(fs, parser, st, file, index, rule, imports, a, n) == answer_imports(
            fs,
            parser,
            st,
            file,
            index,
            rule,
            imports,
            b,
            n,
        ),
    decreases n,
{
    if n > 0 {
        lemma_first_imports(fs, parser, st, file, index, rule, imports, a, b, (n - 1) as nat);
    }
}

/// Nothing is loaded after an import that fails.
proof fn lemma_stops<P: SourceProvider, T: StyleSheetParser>(
    fs: P,
    parser: T,
    st: StateView,
    file: PathView,
    index: u32,
    rule: ImportView,
    imports: Seq<ImportView>,
    replies: Seq<ImportReply>,
    m: nat,
    n: nat,
)
    requires
        m <= n <= replies.len(),
        imported(st, index, rule, imports, replies, m).1 is Err,
        answer_imports(fs, parser, st, file, index, rule, imports, replies, m),
    ensures
        imported(st, index, rule, imports, replies, n) == imported(
            st,
            index,
            rule,
            imports,
            replies,
            m,
        ),
        answer_imports(fs, parser, st, file, index, rule, imports, replies, n),
    decreases n,
{
    if m < n {
        lemma_stops(fs, parser, st, file, index, rule, imports, replies, m, (n - 1) as nat);
    }
}

/// The imports among the first rules come first.
proof fn lemma_first_rules(rules: Seq<RuleView>, k: int)
    requires
        0 <= k <= rules.len(),
    ensures
        imports_of(rules.take(k)).len() <= imports_of(rules).len(),
        imports_of(rules.take(k)) == imports_of(rules).take(
            imports_of(rules.take(k)).len() as int,
        ),
    decreases rules.len(),
{
    if k == rules.len() {
        assert(rules.take(k) =~= rules);
        assert(imports_of(rules).take(imports_of(rules).len() as int) =~= imports_of(rules));
    } else {
        lemma_first_rules(rules.drop_last(), k);
        assert(rules.drop_last().take(k) =~= rules.take(k));
        let n = imports_of(rules.take(k)).len() as int;
        assert(imports_of(rules).take(n) =~= imports_of(rules.drop_last()).take(n));
    }
}

/// Puts the layers that the rules of a file name into the layer that the file is imported into.
fn prefix_layers(rules: &mut CssRuleList, layer: &Option<Option<LayerName>>)
    ensures
        final(rules)@ == old(rules)@.map_values(
            |r: RuleView| prefixed(r, layer_view(*layer)),
        ),
{
    let ghost before = rules.0@;
    let mut k: usize = 0;
    while k < rules.0.len()
        invariant
            k <= rules.0.len(),
            rules.0.len() == before.len(),
            forall|i: int|
                0 <= i < k ==> rules.0@[i]@ == prefixed(before[i]@, layer_view(*layer)),
            forall|i: int| k <= i < before.len() ==> rules.0@[i] == before[i],
        decreases rules.0.len() - k,
    {
        rules.0[k].prefix_layers(layer);
        k = k + 1;
    }
    proof {
        lemma_rule_views(before);
        lemma_rule_views(rules.0@);
        assert(rules@ =~= rule_views(before).map_values(
            |r: RuleView| prefixed(r, layer_view(*layer)),
        ));
    }
}

/// Reads a file.
fn read_file<P: SourceProvider>(fs: &P, file: &str) -> (r: Result<String, String>)
    ensures
        match r {
            Ok(code) => reads(*fs, file@, Ok(code@)),
            Err(reason) => reads(*fs, file@, Err(reason@)),
        },
{
    let r = fs.read(file);
    assert(call_ensures(P::read, (fs, file), r));
    r
}

/// Parses the text of a file.
fn parse_file<T: StyleSheetParser>(parser: &T, file: &str, code: &str, source_index: u32) -> (r: Result<
    CssRuleList,
    Error<ParserError>,
>)
    ensures
        match r {
            Ok(rules) => parses(*parser, file@, code@, source_index, Ok(rules@)),
            Err(e) => parses(*parser, file@, code@, source_index, Err(e@)),
        },
{
    let r = parser.parse(file, code, source_index);
    assert(call_ensures(T::parse, (parser, file, code, source_index), r));
    r
}


/// Loads a file and all that it imports, and returns the index of the file, with what the provider
/// and the parser answered.
pub(crate) fn load_file<P: SourceProvider, T: StyleSheetParser>(
    fs: &P,
    parser: &T,
    state: &mut BundleState,
    file: &FilePath,
    rule: &ImportRule,
) -> (r: (Result<u32, Error<BundleErrorKind>>, Ghost<Reply>))
    requires
        old(state)@.wf(),
        old(state)@.has_place(rule.loc),
    ensures
        answers(*fs, *parser, old(state)@, file@, rule@, r.1@),
        loaded(old(state)@, file@, rule@, r.1@) == (final(state)@, error_of(r.0)),
        final(state)@.wf(),
    decreases u32::MAX + 1 - old(state)@.entries.len(),
{
    let ghost st = state@;
    let ghost nothing = Reply::ReadFailed(Seq::empty());
    let index: u32 = match state.enter(file, rule) {
        Err(e) => {
            return (Err(e), Ghost(nothing));
        },
        Ok(Entered::Loaded(index)) => {
            return (Ok(index), Ghost(nothing));
        },
        Ok(Entered::New(index)) => index,
    };
    let code: String = match read_file(fs, file.text.as_str()) {
        Err(reason) => {
            let ghost reply = Reply::ReadFailed(reason@);
            return (Err(state.error_at(BundleErrorKind::IOError(reason), rule.loc)), Ghost(reply));
        },
        Ok(code) => code,
    };
    state.add_source(file.text.as_str(), code.as_str());
    let mut rules: CssRuleList = match parse_file(
        parser,
        file.text.as_str(),
        code.as_str(),
        index,
    ) {
        Err(error) => {
            let ghost reply = Reply::ParseFailed { code: code@, error: error@ };
            return (Err(Error::from(error)), Ghost(reply));
        },
        Ok(rules) => rules,
    };
    let ghost parsed = rules@;
    prefix_layers(&mut rules, &rule.layer);
    let ghost read = state@;
    let ghost views = rules@;
    let ghost list = imports_of(parsed);
    proof {
        lemma_prefixed_imports(parsed, rule@.layer);
        lemma_rule_views(rules.0@);
        assert(read.wf());
        assert(views.take(0) =~= Seq::empty());
    }
    let mut dependencies: Vec<u32> = Vec::new();
    let mut failed: Option<Error<BundleErrorKind>> = None;
    let ghost mut replies: Seq<ImportReply> = Seq::empty();
    let mut k: usize = 0;
    while k < rules.0.len() && failed.is_none()
        invariant
            k <= rules.0.len(),
            views == rules@,
            views.len() == rules.0.len(),
            forall|i: int| 0 <= i < views.len() ==> #[trigger] views[i] == rules.0@[i]@,
            list == imports_of(views),
            read.wf(),
            index < read.entries.len(),
            read.entries.len() == old(state)@.entries.len() + 1,
            read.entries.len() <= u32::MAX + 1,
            state@.wf(),
            replies.len() <= list.len(),
            failed is None ==> replies.len() == imports_of(views.take(k as int)).len(),
            imported(read, index, rule@, list, replies, replies.len()) == (
                state@,
                match failed {
                    None => Ok(dependencies@),
                    Some(e) => Err(e@),
                },
            ),
            answer_imports(
                *fs,
                *parser,
                read,
                file@,
                index,
                rule@,
                list,
                replies,
                replies.len(),
            ),
        decreases rules.0.len() - k,
    {
        let ghost m = replies.len();
        proof {
            lemma_imported(*fs, *parser, read, file@, index, rule@, list, replies, m);
            lemma_first_rules(views, k as int);
            lemma_first_rules(views, k + 1);
            assert(views.take(k + 1).drop_last() =~= views.take(k as int));
            assert(views.take(k + 1).last() == rules.0@[k as int]@);
        }
        if let CssRule::Import(import) = &rules.0[k] {
            proof {
                let first = imports_of(views.take(k + 1));
                assert(rules.0@[k as int]@ == RuleView::Import(import@));
                assert(first == imports_of(views.take(k as int)).push(import@));
                assert(list.take(first.len() as int)[m as int] == list[m as int]);
            }
            let path: FilePath = file.with_file_name(import.url.as_str());
            match rule.nested(import, index) {
                Err(kind) => {
                    let loc = Location {
                        source_index: index,
                        line: import.loc.line,
                        column: import.loc.column,
                    };
                    failed = Some(state.error_at(kind, loc));
                    proof {
                        let more = replies.push(ImportReply { file: path@, reply: nothing });
                        lemma_first_imports(
                            *fs,
                            *parser,
                            read,
                            file@,
                            index,
                            rule@,
                            list,
                            replies,
                            more,
                            m,
                        );
                        replies = more;
                    }
                },
                Ok(inner) => {
                    let (loaded_index, Ghost(reply)) = load_file(fs, parser, state, &path, &inner);
                    proof {
                        let more = replies.push(ImportReply { file: path@, reply });
                        lemma_first_imports(
                            *fs,
                            *parser,
                            read,
                            file@,
                            index,
                            rule@,
                            list,
                            replies,
                            more,
                            m,
                        );
                        replies = more;
                    }
                    match loaded_index {
                        Err(e) => {
                            failed = Some(e);
                        },
                        Ok(d) => {
                            dependencies.push(d);
                        },
                    }
                },
            }
        }
        k = k + 1;
    }
    let ghost m = replies.len();
    let ghost all = replies + Seq::new(
        (list.len() - m) as nat,
        |i: int| ImportReply { file: file@, reply: nothing },
    );
    let ghost reply = Reply::Parsed { code: code@, rules: parsed, imports: all };
    proof {
        lemma_imported(*fs, *parser, read, file@, index, rule@, list, replies, m);
        lemma_first_imports(*fs, *parser, read, file@, index, rule@, list, replies, all, m);
        if failed is None {
            assert(views.take(k as int) =~= views);
        } else {
            lemma_stops(*fs, *parser, read, file@, index, rule@, list, all, m, list.len());
        }
    }
    let mut sources: Vec<String> = Vec::new();
    sources.push(file.text.clone());
    let stylesheet = StyleSheet { sources, rules };
    assert(stylesheet@ =~= sheet_of(file@.text, parsed, rule@)) by {
        assert(texts(sources@) =~= seq![file@.text]);
    }
    state.set_stylesheet(index, stylesheet);
    match failed {
        Some(e) => (Err(e), Ghost(reply)),
        None => {
            state.set_dependencies(index, dependencies);
            (Ok(index), Ghost(reply))
        },
    }
}

} // verus!
