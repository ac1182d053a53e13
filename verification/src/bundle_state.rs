//! The files that a bundle has come to hold while it is loaded.
use crate::conditions::merged;
use crate::entry::{new_entry, BundleStyleSheet, EntryView, StyleSheet, StyleSheetView};
use crate::error::{
    BundleErrorKind, BundleErrorView, Error, ErrorLocation, ErrorLocationView, ErrorView,
};
use crate::location::Location;
use crate::path::{FilePath, PathView};
use crate::rules::{ImportRule, ImportView};
use crate::source_index::{index_entries, index_get, index_insert, new_index};
use crate::source_map::{record_source, recorded, source_map_view, SourceMapView};
use crate::text::copy_texts;
use dashmap::DashMap;
use parcel_sourcemap::SourceMap;
use vstd::prelude::*;

verus! {

/// The files of a bundle, their indexes by the components of their paths, and the source map that
/// their text goes to, if there is one.
pub struct BundleState {
    pub source_indexes: DashMap<Vec<String>, u32>,
    pub stylesheets: Vec<BundleStyleSheet>,
    pub source_map: Option<SourceMap>,
}

/// The mathematical form of a [`BundleState`].
#[verifier::ext_equal]
pub struct StateView {
    pub indexes: Map<Seq<Seq<char>>, u32>,
    pub entries: Seq<EntryView>,
    pub source_map: Option<SourceMapView>,
}

/// What each file of a list stands for.
pub open spec fn entry_views(list: Seq<BundleStyleSheet>) -> Seq<EntryView> {
    list.map_values(|e: BundleStyleSheet| e@)
}

impl View for BundleState {
    type V = StateView;

    open spec fn view(&self) -> StateView {
        StateView {
            indexes: index_entries(self.source_indexes),
            entries: entry_views(self.stylesheets@),
            source_map: match self.source_map {
                Some(map) => Some(source_map_view(map)),
                None => None,
            },
        }
    }
}

/// Whether a path has the index `i`.
pub open spec fn has_path(indexes: Map<Seq<Seq<char>>, u32>, i: int) -> bool {
    exists|key: Seq<Seq<char>>| #[trigger] indexes.contains_key(key) && indexes[key] == i
}

impl StateView {
    /// Each index belongs to a file, and each file's index fits; no two paths share an index, and
    /// each file has one.
    pub open spec fn wf(self) -> bool {
        &&& self.entries.len() <= u32::MAX + 1
        &&& forall|key: Seq<Seq<char>>| #[trigger]
            self.indexes.contains_key(key) ==> self.indexes[key] < self.entries.len()
        &&& forall|a: Seq<Seq<char>>, b: Seq<Seq<char>>| #[trigger]
            self.indexes.contains_key(a) && #[trigger] self.indexes.contains_key(b)
                && self.indexes[a] == self.indexes[b] ==> a == b
        &&& forall|i: int| 0 <= i < self.entries.len() ==> #[trigger] has_path(
            self.indexes,
            i,
        )
        &&& forall|i: int, d: int|
            0 <= i < self.entries.len() && 0 <= d < self.entries[i].dependencies.len()
                ==> #[trigger] self.entries[i].dependencies[d] < self.entries.len()
    }

    /// Whether a place lies in one of the files, or in the first one that there will be.
    pub open spec fn has_place(self, loc: Location) -> bool {
        loc.source_index < self.entries.len() || loc.source_index == 0
    }

    /// The error of the given kind at a place in one of the files.
    pub open spec fn error_at(self, kind: BundleErrorView, loc: Location) -> ErrorView<
        BundleErrorView,
    > {
        ErrorView {
            kind,
            loc: Some(
                ErrorLocationView {
                    filename: self.entries[loc.source_index as int].file,
                    line: loc.line,
                    column: loc.column,
                },
            ),
        }
    }
}

/// What becomes of a file that is to be loaded: it was loaded before, or it has just got its
/// index and is to be read.
#[derive(Debug, Clone, Copy, PartialEq, Eq, Structural)]
pub enum Entered {
    Loaded(u32),
    New(u32),
}

/// The state in which a file that is imported as `rule` says has an index, and what becomes of
/// the file.
pub open spec fn entered(st: StateView, file: PathView, rule: ImportView) -> (
    StateView,
    Result<Entered, ErrorView<BundleErrorView>>,
) {
    if st.indexes.contains_key(file.components) {
        let index = st.indexes[file.components];
        let (conditions, error) = merged(st.entries[index as int].conditions, rule);
        let after = StateView {
            entries: st.entries.update(
                index as int,
                EntryView { conditions, ..st.entries[index as int] },
            ),
            ..st
        };
        (
            after,
            match error {
                None => Ok(Entered::Loaded(index)),
                Some(kind) => Err(st.error_at(kind, rule.loc)),
            },
        )
    } else if st.entries.len() > u32::MAX {
        (st, Err(st.error_at(BundleErrorView::TooManyFiles, rule.loc)))
    } else {
        let index = st.entries.len() as u32;
        (
            StateView {
                indexes: st.indexes.insert(file.components, index),
                entries: st.entries.push(new_entry(file.text, rule)),
                ..st
            },
            Ok(Entered::New(index)),
        )
    }
}

/// Giving a file an index keeps what holds of indexes.
pub proof fn lemma_entered(st: StateView, file: PathView, rule: ImportView)
    requires
        st.wf(),
    ensures
        entered(st, file, rule).0.wf(),
{
    let after = entered(st, file, rule).0;
    assert forall|i: int| 0 <= i < after.entries.len() implies #[trigger] has_path(
        after.indexes,
        i,
    ) by {
        if i < st.entries.len() {
            assert(has_path(st.indexes, i));
            let key = choose|key: Seq<Seq<char>>| #[trigger]
                st.indexes.contains_key(key) && st.indexes[key] == i;
            assert(after.indexes.contains_key(key));
        } else {
            assert(after.indexes.contains_key(file.components));
        }
    }
}

/// The state in which the text of a file is part of the source map, if there is one.
pub open spec fn with_source(st: StateView, file: Seq<char>, code: Seq<char>) -> StateView {
    StateView {
        source_map: match st.source_map {
            Some(map) => Some(recorded(map, file, code)),
            None => None,
        },
        ..st
    }
}

/// The state in which a file has its parsed form.
pub open spec fn with_sheet(st: StateView, index: u32, sheet: StyleSheetView) -> StateView {
    StateView {
        entries: st.entries.update(
            index as int,
            EntryView { stylesheet: Some(sheet), ..st.entries[index as int] },
        ),
        ..st
    }
}

/// The state in which a file has the indexes of the files that it imports.
pub open spec fn with_dependencies(st: StateView, index: u32, dependencies: Seq<u32>) -> StateView {
    StateView {
        entries: st.entries.update(
            index as int,
            EntryView { dependencies, ..st.entries[index as int] },
        ),
        ..st
    }
}

/// What a result stands for.
pub open spec fn error_of<T>(r: Result<T, Error<BundleErrorKind>>) -> Result<
    T,
    ErrorView<BundleErrorView>,
> {
    match r {
        Ok(t) => Ok(t),
        Err(e) => Err(e@),
    }
}

impl BundleState {
    /// A state without files.
    pub fn new(source_map: Option<SourceMap>) -> (r: BundleState)
        ensures
            r@.wf(),
            r@.indexes == Map::<Seq<Seq<char>>, u32>::empty(),
            r@.entries == Seq::<EntryView>::empty(),
            r.source_map == source_map,
    {
        let r = BundleState { source_indexes: new_index(), stylesheets: Vec::new(), source_map };
        assert(r@.entries =~= Seq::empty());
        r
    }

    /// The path of the file with the given index.
    pub fn find_filename(&self, source_index: u32) -> (r: String)
        requires
            source_index < self@.entries.len(),
        ensures
            r@ == self@.entries[source_index as int].file,
    {
        self.stylesheets[source_index as usize].file.clone()
    }

    /// The error of the given kind at a place in one of the files.
    pub fn error_at(&self, kind: BundleErrorKind, loc: Location) -> (r: Error<BundleErrorKind>)
        requires
            loc.source_index < self@.entries.len(),
        ensures
            r@ == self@.error_at(kind@, loc),
    {
        Error { kind, loc: Some(ErrorLocation::from(loc, self.find_filename(loc.source_index))) }
    }

    /// Gives a file that is to be loaded, as `rule` says, an index. A file that has one already
    /// takes on the conditions of this import too.
    pub fn enter(&mut self, file: &FilePath, rule: &ImportRule) -> (r: Result<
        Entered,
        Error<BundleErrorKind>,
    >)
        requires
            old(self)@.wf(),
            old(self)@.has_place(rule.loc),
        ensures
            final(self)@.wf(),
            entered(old(self)@, file@, rule@) == (final(self)@, error_of(r)),
    {
        let ghost before = self@;
        proof {
            lemma_entered(before, file@, rule@);
        }
        if let Some(index) = index_get(&self.source_indexes, &file.components) {
            let merged_rule = self.stylesheets[index as usize].merge(rule);
            proof {
                assert(self@.entries =~= entered(before, file@, rule@).0.entries);
                assert(self@ =~= entered(before, file@, rule@).0);
            }
            match merged_rule {
                Ok(()) => Ok(Entered::Loaded(index)),
                Err(kind) => Err(self.error_at(kind, rule.loc)),
            }
        } else {
            let count: usize = self.stylesheets.len();
            if count > u32::MAX as usize {
                return Err(self.error_at(BundleErrorKind::TooManyFiles, rule.loc));
            }
            let index: u32 = count as u32;
            index_insert(&mut self.source_indexes, copy_texts(&file.components), index);
            self.stylesheets.push(BundleStyleSheet::new(&file.text, rule));
            proof {
                assert(self@.entries =~= before.entries.push(new_entry(file@.text, rule@)));
                assert(self@ =~= entered(before, file@, rule@).0);
            }
            Ok(Entered::New(index))
        }
    }

    /// Adds the text of a file to the source map, if there is one.
    pub fn add_source(&mut self, file: &str, code: &str)
        ensures
            final(self)@ == with_source(old(self)@, file@, code@),
    {
        if let Some(map) = &mut self.source_map {
            record_source(map, file, code);
        }
        assert(self@ =~= with_source(old(self)@, file@, code@));
    }

    /// Gives a file its parsed form.
    pub fn set_stylesheet(&mut self, index: u32, stylesheet: StyleSheet)
        requires
            index < old(self)@.entries.len(),
        ensures
            final(self)@ == with_sheet(old(self)@, index, stylesheet@),
    {
        self.stylesheets[index as usize].stylesheet = Some(stylesheet);
        proof {
            assert(self@.entries =~= with_sheet(old(self)@, index, stylesheet@).entries);
            assert(self@ =~= with_sheet(old(self)@, index, stylesheet@));
        }
    }

    /// Gives a file the indexes of the files that it imports.
    pub fn set_dependencies(&mut self, index: u32, dependencies: Vec<u32>)
        requires
            index < old(self)@.entries.len(),
        ensures
            final(self)@ == with_dependencies(old(self)@, index, dependencies@),
    {
        self.stylesheets[index as usize].dependencies = dependencies;
        proof {
            assert(self@.entries =~= with_dependencies(old(self)@, index, dependencies@).entries);
            assert(self@ =~= with_dependencies(old(self)@, index, dependencies@));
        }
    }
}

} // verus!
