//! Making one style sheet of a file and all that it imports.
use crate::bundle_state::{entry_views, BundleState, StateView};
use crate::entry::{BundleStyleSheet, EntryView, StyleSheet, StyleSheetView};
use crate::error::{BundleErrorKind, BundleErrorView, Error, ErrorView};
use crate::inline::{bundled_rules, inlined, lemma_inlined, ready, rules_of};
use crate::load::{
    answers, imports_of, law_loaded, load_file, loaded, Reply, SourceProvider, StyleSheetParser,
};
use crate::location::Location;
use crate::media::MediaList;
use crate::order::{
    dependencies_of, in_range, lemma_ordered, lemma_ordered_ready, order, ordered,
};
use crate::path::{FilePath, PathView};
use crate::rules::{CssRule, CssRuleList, ImportRule, ImportView};
use crate::text::{copy_texts, texts};
use parcel_sourcemap::SourceMap;
use vstd::prelude::*;

verus! {

/// Makes one style sheet of a file and all that it imports.
pub struct Bundler<'a, P, T> {
    /// Where the text of files comes from.
    pub fs: &'a P,
    /// What turns the text of a file into rules.
    pub options: T,
    /// The files that have been loaded.
    pub state: BundleState,
}

impl<'a, P, T> View for Bundler<'a, P, T> {
    type V = StateView;

    open spec fn view(&self) -> StateView {
        self.state@
    }
}

/// The import that stands for the request for the entry file.
pub open spec fn entry_rule() -> ImportView {
    ImportView {
        url: Seq::empty(),
        layer: None,
        supports: None,
        media: Seq::empty(),
        loc: Location { source_index: 0, line: 1, column: 0 },
    }
}

/// The sources of a file.
pub open spec fn sources_of(e: EntryView) -> Seq<Seq<char>> {
    match e.stylesheet {
        Some(sheet) => sheet.sources,
        None => Seq::empty(),
    }
}

/// The sources of all files, in the order of their indexes.
pub open spec fn all_sources(entries: Seq<EntryView>) -> Seq<Seq<char>>
    decreases entries.len(),
{
    if entries.len() == 0 {
        Seq::empty()
    } else {
        all_sources(entries.drop_last()) + sources_of(entries.last())
    }
}

/// The style sheet that loaded files make.
pub open spec fn linked(entries: Seq<EntryView>) -> StyleSheetView {
    StyleSheetView { sources: all_sources(entries), rules: bundled_rules(ordered(entries)) }
}

/// The files once the style sheet is made of them.
pub open spec fn spent(entries: Seq<EntryView>) -> Seq<EntryView> {
    inlined(ordered(entries), 0, entries.len() + 1).0
}

/// The style sheet that is made of a file and all that it imports, and the state that is left,
/// where the provider and the parser answer as `reply` says.
pub open spec fn bundled(st: StateView, file: PathView, reply: Reply) -> (
    StateView,
    Result<StyleSheetView, ErrorView<BundleErrorView>>,
) {
    let (after, index) = loaded(st, file, entry_rule(), reply);
    match index {
        Err(e) => (after, Err(e)),
        Ok(_) => (
            StateView { entries: spent(after.entries), ..after },
            Ok(linked(after.entries)),
        ),
    }
}

/// What a bundle that may have failed stands for.
pub open spec fn bundle_view(r: Result<StyleSheet, Error<BundleErrorKind>>) -> Result<
    StyleSheetView,
    ErrorView<BundleErrorView>,
> {
    match r {
        Ok(sheet) => Ok(sheet@),
        Err(e) => Err(e@),
    }
}

/// Whether the state `after` and the result `r` are what bundling the file `entry` gives, for the
/// path `file` and for answers like `reply`.
pub open spec fn bundles<P: SourceProvider, T: StyleSheetParser>(
    fs: P,
    parser: T,
    st: StateView,
    entry: Seq<char>,
    file: PathView,
    reply: Reply,
    after: StateView,
    r: Result<StyleSheetView, ErrorView<BundleErrorView>>,
) -> bool {
    &&& file.is_path(entry)
    &&& answers(fs, parser, st, file, entry_rule(), reply)
    &&& bundled(st, file, reply) == (after, r)
}

/// Which import counts does not touch the sources.
pub proof fn lemma_same_sources(a: Seq<EntryView>, b: Seq<EntryView>)
    requires
        a.len() == b.len(),
        forall|i: int| 0 <= i < a.len() ==> sources_of(#[trigger] a[i]) == sources_of(b[i]),
    ensures
        all_sources(a) == all_sources(b),
    decreases a.len(),
{
    if a.len() > 0 {
        assert forall|i: int| 0 <= i < a.len() - 1 implies sources_of(
            #[trigger] a.drop_last()[i],
        ) == sources_of(b.drop_last()[i]) by {
            assert(sources_of(a[i]) == sources_of(b[i]));
        }
        lemma_same_sources(a.drop_last(), b.drop_last());
        assert(sources_of(a[a.len() - 1]) == sources_of(b[a.len() - 1]));
    }
}

/// The sources of all files.
fn collect_sources(stylesheets: &Vec<BundleStyleSheet>) -> (r: Vec<String>)
    ensures
        texts(r@) == all_sources(entry_views(stylesheets@)),
{
    let ghost entries = entry_views(stylesheets@);
    let mut sources: Vec<String> = Vec::new();
    let mut i: usize = 0;
    assert(entries.take(0) =~= Seq::empty());
    assert(texts(sources@) =~= Seq::empty());
    while i < stylesheets.len()
        invariant
            i <= stylesheets.len(),
            entries == entry_views(stylesheets@),
            texts(sources@) == all_sources(entries.take(i as int)),
        decreases stylesheets.len() - i,
    {
        let ghost before = sources@;
        proof {
            assert(entries.take(i + 1).drop_last() =~= entries.take(i as int));
            assert(entries.take(i + 1).last() == stylesheets@[i as int]@);
        }
        if let Some(sheet) = &stylesheets[i].stylesheet {
            let mut more: Vec<String> = copy_texts(&sheet.sources);
            let ghost added = more@;
            sources.append(&mut more);
            assert(texts(before + added) =~= texts(before) + texts(added));
        } else {
            assert(texts(before) + Seq::<Seq<char>>::empty() =~= texts(before));
        }
        i = i + 1;
    }
    assert(entries.take(i as int) =~= entries);
    sources
}

impl BundleState {
    /// Makes one style sheet of the files that are loaded, beginning with the first one. It takes
    /// their rules out of the files.
    pub fn link(&mut self) -> (r: StyleSheet)
        requires
            old(self)@.wf(),
            old(self)@.entries.len() > 0,
            ready(old(self)@.entries),
        ensures
            r@ == linked(old(self)@.entries),
            final(self)@ == (StateView { entries: spent(old(self)@.entries), ..old(self)@ }),
            final(self)@.wf(),
            ready(final(self)@.entries),
    {
        let ghost entries = self@.entries;
        let ghost sorted = ordered(entries);
        assert(in_range(dependencies_of(entries)));
        order(&mut self.stylesheets);
        assert(entry_views(self.stylesheets@) == sorted);
        proof {
            lemma_ordered(entries);
            lemma_ordered_ready(entries);
            lemma_inlined(sorted, 0, entries.len() + 1);
            assert(entry_views(self.stylesheets@).len() == self.stylesheets.len());
        }
        let mut rules: Vec<CssRule> = Vec::new();
        crate::inline::inline(&mut self.stylesheets, &mut rules);
        let sources = collect_sources(&self.stylesheets);
        proof {
            let left = spent(entries);
            assert forall|i: int| 0 <= i < left.len() implies sources_of(#[trigger] left[i])
                == sources_of(entries[i]) by {
                assert(sorted[i].stylesheet == entries[i].stylesheet);
            }
            lemma_same_sources(left, entries);
            assert forall|i: int, d: int|
                0 <= i < left.len() && 0 <= d
                    < left[i].dependencies.len() implies #[trigger] left[i].dependencies[d]
                < left.len() by {
                assert(left[i].dependencies == sorted[i].dependencies);
                assert(sorted[i].dependencies[d] < sorted.len());
            }
        }
        let r = StyleSheet { sources, rules: CssRuleList(rules) };
        proof {
            assert(r@.rules =~= bundled_rules(sorted));
            assert(r@ =~= linked(entries));
            assert(self@ =~= (StateView { entries: spent(entries), ..old(self)@ }));
        }
        r
    }
}

impl<'a, P: SourceProvider, T: StyleSheetParser> Bundler<'a, P, T> {
    /// A bundler that has loaded nothing yet. The text of the files that it loads goes to
    /// `source_map`, where there is one.
    pub fn new(fs: &'a P, source_map: Option<SourceMap>, options: T) -> (r: Bundler<'a, P, T>)
        ensures
            r.fs == fs,
            r.options == options,
            r.state.source_map == source_map,
            r@.wf(),
            r@.indexes == Map::<Seq<Seq<char>>, u32>::empty(),
            r@.entries == Seq::<EntryView>::empty(),
            ready(r@.entries),
    {
        Bundler { fs, options, state: BundleState::new(source_map) }
    }

    /// Makes one style sheet of the file `entry` and all that it imports.
    pub fn bundle(&mut self, entry: &str) -> (r: Result<StyleSheet, Error<BundleErrorKind>>)
        requires
            old(self)@.wf(),
            ready(old(self)@.entries),
        ensures
            final(self).fs == old(self).fs,
            final(self).options == old(self).options,
            exists|file: PathView, reply: Reply|
                bundles(
                    *old(self).fs,
                    old(self).options,
                    old(self)@,
                    entry@,
                    file,
                    reply,
                    final(self)@,
                    bundle_view(r),
                ),
            final(self)@.wf(),
            r is Ok ==> ready(final(self)@.entries),
    {
        let file: FilePath = FilePath::new(entry);
        let rule = ImportRule {
            url: String::new(),
            layer: None,
            supports: None,
            media: MediaList::new(),
            loc: Location { source_index: 0, line: 1, column: 0 },
        };
        assert(rule@ =~= entry_rule());
        let ghost st = self@;
        let (index, Ghost(reply)) = load_file(
            self.fs,
            &self.options,
            &mut self.state,
            &file,
            &rule,
        );
        let ghost after = self@;
        proof {
            law_loaded(*self.fs, self.options, st, file@, rule@, reply);
        }
        match index {
            Err(e) => {
                let r: Result<StyleSheet, Error<BundleErrorKind>> = Err(e);
                assert(bundles(
                    *self.fs,
                    self.options,
                    st,
                    entry@,
                    file@,
                    reply,
                    self@,
                    bundle_view(r),
                ));
                r
            },
            Ok(_) => {
                assert(ready(after.entries)) by {
                    assert forall|i: int| 0 <= i < after.entries.len() implies (
                    #[trigger] after.entries[i]).stylesheet is Some && imports_of(
                        rules_of(after.entries[i]),
                    ).len() <= after.entries[i].dependencies.len() by {
                        if i < st.entries.len() {
                            assert(st.entries[i].stylesheet is Some);
                        }
                    }
                }
                let sheet = self.state.link();
                let r: Result<StyleSheet, Error<BundleErrorKind>> = Ok(sheet);
                assert(bundles(
                    *self.fs,
                    self.options,
                    st,
                    entry@,
                    file@,
                    reply,
                    self@,
                    bundle_view(r),
                ));
                r
            },
        }
    }
}

} // verus!
