//! The files of a bundle.
use crate::conditions::{copy_layer, copy_supports, merged, ConditionsView};
use crate::error::BundleErrorKind;
use crate::location::Location;
use crate::media::MediaList;
use crate::rules::{
    layer_view, supports_view, CssRuleList, ImportRule, ImportView, LayerName, RuleView,
};
use crate::supports::SupportsCondition;
use crate::text::texts;
use vstd::prelude::*;

verus! {

/// A style sheet: the files that it was made of, and its rules.
#[derive(Debug)]
pub struct StyleSheet {
    pub sources: Vec<String>,
    pub rules: CssRuleList,
}

/// The mathematical form of a [`StyleSheet`].
#[verifier::ext_equal]
pub struct StyleSheetView {
    pub sources: Seq<Seq<char>>,
    pub rules: Seq<RuleView>,
}

impl View for StyleSheet {
    type V = StyleSheetView;

    open spec fn view(&self) -> StyleSheetView {
        StyleSheetView { sources: texts(self.sources@), rules: self.rules@ }
    }
}

/// A file of a bundle.
#[derive(Debug)]
pub struct BundleStyleSheet {
    /// The path that the file was first loaded by.
    pub file: String,
    /// The parsed file, once it is there.
    pub stylesheet: Option<StyleSheet>,
    /// The indexes of the files that it imports, one for each of its imports.
    pub dependencies: Vec<u32>,
    /// The index of the file with the import that counts.
    pub parent_source_index: u32,
    /// The place of that import among the imports of its file.
    pub parent_dep_index: usize,
    /// The layer that the file is imported into.
    pub layer: Option<Option<LayerName>>,
    /// The `@supports` condition under which the file is imported.
    pub supports: Option<SupportsCondition>,
    /// The media queries under which the file is imported.
    pub media: MediaList,
    /// The place of the first import of the file.
    pub loc: Location,
}

/// The mathematical form of a [`BundleStyleSheet`].
#[verifier::ext_equal]
pub struct EntryView {
    pub file: Seq<char>,
    pub stylesheet: Option<StyleSheetView>,
    pub dependencies: Seq<u32>,
    pub parent_source_index: u32,
    pub parent_dep_index: usize,
    pub conditions: ConditionsView,
    pub loc: Location,
}

/// What a style sheet that may be missing stands for.
pub open spec fn sheet_view(sheet: Option<StyleSheet>) -> Option<StyleSheetView> {
    match sheet {
        Some(s) => Some(s@),
        None => None,
    }
}

impl BundleStyleSheet {
    /// The conditions under which the file is part of the bundle.
    pub open spec fn conditions(self) -> ConditionsView {
        ConditionsView {
            layer: layer_view(self.layer),
            supports: supports_view(self.supports),
            media: self.media@,
        }
    }
}

impl View for BundleStyleSheet {
    type V = EntryView;

    open spec fn view(&self) -> EntryView {
        EntryView {
            file: self.file@,
            stylesheet: sheet_view(self.stylesheet),
            dependencies: self.dependencies@,
            parent_source_index: self.parent_source_index,
            parent_dep_index: self.parent_dep_index,
            conditions: self.conditions(),
            loc: self.loc,
        }
    }
}

/// A file that is imported for the first time, as `rule` says.
pub open spec fn new_entry(file: Seq<char>, rule: ImportView) -> EntryView {
    EntryView {
        file,
        stylesheet: None,
        dependencies: Seq::empty(),
        parent_source_index: 0,
        parent_dep_index: 0,
        conditions: ConditionsView {
            layer: rule.layer,
            supports: rule.supports,
            media: rule.media,
        },
        loc: rule.loc,
    }
}

impl BundleStyleSheet {
    /// A file that is imported for the first time, as `rule` says.
    pub fn new(file: &String, rule: &ImportRule) -> (r: BundleStyleSheet)
        ensures
            r@ == new_entry(file@, rule@),
    {
        let r = BundleStyleSheet {
            file: file.clone(),
            stylesheet: None,
            dependencies: Vec::new(),
            parent_source_index: 0,
            parent_dep_index: 0,
            layer: copy_layer(&rule.layer),
            supports: copy_supports(&rule.supports),
            media: rule.media.clone(),
            loc: rule.loc,
        };
        assert(r@ =~= new_entry(file@, rule@));
        r
    }

    /// Joins the conditions of one more import of the file to those that it has.
    pub fn merge(&mut self, rule: &ImportRule) -> (r: Result<(), BundleErrorKind>)
        ensures
            ({
                let (conditions, error) = merged(old(self)@.conditions, rule@);
                &&& final(self)@ == (EntryView { conditions, ..old(self)@ })
                &&& match error {
                    None => r is Ok,
                    Some(e) => r matches Err(k) && k@ == e,
                }
            }),
    {
        if (!rule.media.is_empty() && self.supports.is_some()) || (!self.media.is_empty()
            && rule.supports.is_some()) {
            return Err(BundleErrorKind::UnsupportedImportCondition);
        }
        if rule.media.is_empty() {
            self.media = MediaList::new();
        } else if !self.media.is_empty() {
            self.media.or(&rule.media);
        }
        if let Some(supports) = &rule.supports {
            if let Some(existing) = &mut self.supports {
                existing.or(supports);
            }
        } else {
            self.supports = None;
        }
        if let Some(layer) = &rule.layer {
            if let Some(existing) = &self.layer {
                if !LayerName::same(layer, existing) || (layer.is_none() && existing.is_none()) {
                    return Err(BundleErrorKind::UnsupportedLayerCombination);
                }
            } else {
                self.layer = copy_layer(&rule.layer);
            }
        }
        Ok(())
    }
}

} // verus!
