//! How the conditions of imports join: those of nested imports by `and`, those of repeated imports
//! by `or`.
use crate::error::{BundleErrorKind, BundleErrorView};
use crate::location::Location;
use crate::media::{
    can_be_joined, law_media_and_fails, law_media_and_is_conjunction, law_media_or_is_disjunction,
    list_and, list_matches, MediaList, Medium, QueryView,
};
use crate::rules::{
    layer_view, layer_views, name_view, supports_view, CssRule, ImportRule, ImportView, LayerName,
    RuleView,
};
use crate::supports::{
    conjoined, disjoined, holds, law_and_is_conjunction, law_or_is_disjunction, ConditionView,
    SupportsCondition,
};
use crate::text::{add_all, copy_texts, law_add_all_keeps, lemma_add_all, same_texts};
use vstd::prelude::*;

verus! {

/// Whether a file with the given media queries and `@supports` condition applies on a medium, in
/// a browser that supports what `supported` tells.
pub open spec fn applies(
    media: Seq<QueryView>,
    supports: Option<ConditionView>,
    medium: Medium,
    supported: spec_fn(ConditionView) -> bool,
) -> bool {
    list_matches(media, medium) && (supports matches Some(c) ==> holds(c, supported))
}

/// The `@supports` conditions of an import and of the import of the file that it stands in.
pub open spec fn supports_and(a: Option<ConditionView>, b: Option<ConditionView>) -> Option<
    ConditionView,
> {
    match a {
        Some(a) => match b {
            Some(b) => Some(conjoined(a, b)),
            None => Some(a),
        },
        None => b,
    }
}

/// The layer of an import inside a file that is itself imported into a layer. A layer without a
/// name cannot be joined to another.
pub open spec fn layer_and(
    outer: Option<Option<Seq<Seq<char>>>>,
    inner: Option<Option<Seq<Seq<char>>>>,
) -> Option<Option<Option<Seq<Seq<char>>>>> {
    match outer {
        Some(Some(a)) => match inner {
            Some(Some(b)) => Some(Some(Some(a + b))),
            Some(None) => None,
            None => Some(outer),
        },
        Some(None) => if inner is Some {
            None
        } else {
            Some(None)
        },
        None => Some(inner),
    }
}

/// The import that an `@import` rule `import`, in the file with index `source_index`, amounts to
/// where that file is itself imported as `outer` says.
pub open spec fn nested(outer: ImportView, import: ImportView, source_index: u32) -> Result<
    ImportView,
    BundleErrorView,
> {
    match list_and(outer.media, import.media) {
        None => Err(BundleErrorView::UnsupportedMediaBooleanLogic),
        Some(media) => match layer_and(outer.layer, import.layer) {
            None => Err(BundleErrorView::UnsupportedLayerCombination),
            Some(layer) => Ok(
                ImportView {
                    url: Seq::empty(),
                    layer,
                    supports: supports_and(outer.supports, import.supports),
                    media,
                    loc: Location { source_index, ..import.loc },
                },
            ),
        },
    }
}

/// A rule of a file that is imported into a layer: the layers that it names lie in that layer.
pub open spec fn prefixed(rule: RuleView, layer: Option<Option<Seq<Seq<char>>>>) -> RuleView {
    match (rule, layer) {
        (RuleView::LayerStatement { names, loc }, Some(Some(outer))) => RuleView::LayerStatement {
            names: names.map_values(|n: Seq<Seq<char>>| outer + n),
            loc,
        },
        _ => rule,
    }
}

/// The conditions under which a file is part of the bundle.
#[verifier::ext_equal]
pub struct ConditionsView {
    pub layer: Option<Option<Seq<Seq<char>>>>,
    pub supports: Option<ConditionView>,
    pub media: Seq<QueryView>,
}

/// The conditions of a file that is imported once more, as `rule` says, and what is wrong with
/// that import, if something is.
pub open spec fn merged(c: ConditionsView, rule: ImportView) -> (
    ConditionsView,
    Option<BundleErrorView>,
) {
    if (rule.media.len() > 0 && c.supports is Some) || (c.media.len() > 0 && rule.supports is Some) {
        (c, Some(BundleErrorView::UnsupportedImportCondition))
    } else {
        let media = if rule.media.len() == 0 {
            Seq::empty()
        } else if c.media.len() > 0 {
            add_all(c.media, rule.media)
        } else {
            c.media
        };
        let supports = match (c.supports, rule.supports) {
            (Some(a), Some(b)) => Some(disjoined(a, b)),
            _ => None,
        };
        match (c.layer, rule.layer) {
            (Some(a), Some(b)) => (
                ConditionsView { layer: c.layer, supports, media },
                if a == b && a is Some {
                    None
                } else {
                    Some(BundleErrorView::UnsupportedLayerCombination)
                },
            ),
            (None, Some(b)) => (ConditionsView { layer: Some(b), supports, media }, None),
            (_, None) => (ConditionsView { layer: c.layer, supports, media }, None),
        }
    }
}

/// A nested import applies exactly where both the outer import and the inner one do.
pub proof fn law_nested_is_conjunction(
    outer: ImportView,
    import: ImportView,
    source_index: u32,
    medium: Medium,
    supported: spec_fn(ConditionView) -> bool,
)
    requires
        nested(outer, import, source_index) is Ok,
    ensures
        ({
            let r = nested(outer, import, source_index)->Ok_0;
            applies(r.media, r.supports, medium, supported) == (applies(
                outer.media,
                outer.supports,
                medium,
                supported,
            ) && applies(import.media, import.supports, medium, supported))
        }),
{
    law_media_and_is_conjunction(outer.media, import.media, medium);
    if let Some(a) = outer.supports {
        if let Some(b) = import.supports {
            law_and_is_conjunction(a, b, supported);
        }
    }
}

/// A file that is imported twice applies exactly where one of the imports does.
pub proof fn law_merged_is_disjunction(
    c: ConditionsView,
    rule: ImportView,
    medium: Medium,
    supported: spec_fn(ConditionView) -> bool,
)
    requires
        merged(c, rule).1 is None,
    ensures
        ({
            let r = merged(c, rule).0;
            applies(r.media, r.supports, medium, supported) == (applies(
                c.media,
                c.supports,
                medium,
                supported,
            ) || applies(rule.media, rule.supports, medium, supported))
        }),
{
    if c.media.len() > 0 && rule.media.len() > 0 {
        law_media_or_is_disjunction(c.media, rule.media, medium);
    }
    if let Some(a) = c.supports {
        if let Some(b) = rule.supports {
            law_or_is_disjunction(a, b, supported);
        }
    }
}

/// Whether the layers of an import and of the import of the file that it stands in cannot be
/// joined: there are two, and one of them has no name.
pub open spec fn layers_clash(
    outer: Option<Option<Seq<Seq<char>>>>,
    inner: Option<Option<Seq<Seq<char>>>>,
) -> bool {
    outer is Some && inner is Some && (outer->0 is None || inner->0 is None)
}

/// What a nested import is. In a file that is imported into a named layer it is an import into a
/// layer whose name starts with that name, followed by the name of its own layer, if it has one;
/// otherwise its layer is its own. It stands where its rule stands. Where only one of the two
/// imports has media queries or an `@supports` condition, these are kept; otherwise those of the
/// inner one are joined to those of the outer one.
pub proof fn law_nested_import(outer: ImportView, import: ImportView, source_index: u32)
    requires
        nested(outer, import, source_index) is Ok,
    ensures
        ({
            let r = nested(outer, import, source_index)->Ok_0;
            &&& outer.layer matches Some(Some(a)) ==> {
                &&& r.layer matches Some(Some(name)) && a.is_prefix_of(name) && name.skip(
                    a.len() as int,
                ) == (match import.layer {
                    Some(Some(b)) => b,
                    _ => Seq::empty(),
                })
            }
            &&& !(outer.layer matches Some(Some(_))) ==> r.layer == import.layer
            &&& outer.media.len() == 0 ==> r.media == import.media
            &&& import.media.len() == 0 ==> r.media == outer.media
            &&& outer.supports is None ==> r.supports == import.supports
            &&& import.supports is None ==> r.supports == outer.supports
            &&& outer.supports is Some && import.supports is Some ==> r.supports == Some(
                conjoined(outer.supports->0, import.supports->0),
            )
            &&& Some(r.media) == list_and(outer.media, import.media)
            &&& r.loc.source_index == source_index
            &&& r.loc.line == import.loc.line
            &&& r.loc.column == import.loc.column
        }),
{
    if let Some(Some(a)) = outer.layer {
        if let Some(Some(b)) = import.layer {
            assert((a + b).skip(a.len() as int) =~= b);
            assert((a + b).take(a.len() as int) =~= a);
        } else {
            assert(a.skip(a.len() as int) =~= Seq::empty());
        }
    }
}

/// A nested import can be joined to that of its file, unless a media query of one would have to be
/// joined to a different one of the other, and one of the two is negated, or unless both imports
/// are into layers, and one of these has no name.
pub proof fn law_nested_fails(outer: ImportView, import: ImportView, source_index: u32)
    ensures
        ({
            let r = nested(outer, import, source_index);
            let media = can_be_joined(outer.media, import.media);
            let layers = !layers_clash(outer.layer, import.layer);
            &&& r is Ok <==> media && layers
            &&& !media ==> r->Err_0 is UnsupportedMediaBooleanLogic
            &&& media && !layers ==> r->Err_0 is UnsupportedLayerCombination
        }),
{
    law_media_and_fails(outer.media, import.media);
}

/// What comes of the conditions of a file that is imported once more. This fails exactly where one
/// of the sides has media queries and the other an `@supports` condition, or where both have a
/// layer, and the layers differ or have no name. Otherwise a layer that one of them has is kept;
/// the media queries are those of both, first those that the file had, and the `@supports`
/// condition is there, where both sides have them.
pub proof fn law_merged(c: ConditionsView, rule: ImportView)
    ensures
        ({
            let (r, e) = merged(c, rule);
            let mixed = (c.media.len() > 0 && rule.supports is Some) || (rule.media.len() > 0
                && c.supports is Some);
            let clash = c.layer is Some && rule.layer is Some && (c.layer != rule.layer
                || c.layer->0 is None);
            &&& e is None <==> !mixed && !clash
            &&& mixed ==> e->0 is UnsupportedImportCondition && r == c
            &&& !mixed && clash ==> e->0 is UnsupportedLayerCombination
            &&& e is None ==> {
                &&& c.layer is Some ==> r.layer == c.layer
                &&& c.layer is None ==> r.layer == rule.layer
                &&& r.media.len() > 0 <==> c.media.len() > 0 && rule.media.len() > 0
                &&& r.media.len() > 0 ==> r.media == add_all(c.media, rule.media)
                &&& r.media.len() > 0 ==> c.media.is_prefix_of(r.media)
                &&& forall|q: QueryView|
                    r.media.len() > 0 ==> (#[trigger] r.media.contains(q) <==> c.media.contains(q)
                        || rule.media.contains(q))
                &&& r.supports is Some <==> c.supports is Some && rule.supports is Some
                &&& r.supports is Some ==> r.supports->0 == disjoined(c.supports->0, rule.supports->0)
            }
        }),
{
    lemma_add_all(c.media, rule.media);
    law_add_all_keeps(c.media, rule.media);
}

/// Putting the layers that a rule names into the layer of its file touches nothing but names of
/// `@layer` statements, and puts the name of the layer, where it has one, before each of them.
pub proof fn law_prefixed(rule: RuleView, layer: Option<Option<Seq<Seq<char>>>>)
    ensures
        kept(rule, prefixed(rule, layer), layer),
        !(rule is LayerStatement) || layer is None ==> prefixed(rule, layer) == rule,
{
}

/// Whether `after` is the rule `before` of a file that is imported into `layer`: the same rule,
/// except that in an `@layer` statement the name of the layer, where it has one, stands before each
/// name.
pub open spec fn kept(
    before: RuleView,
    after: RuleView,
    layer: Option<Option<Seq<Seq<char>>>>,
) -> bool {
    match before {
        RuleView::LayerStatement { names, loc } => {
            &&& after is LayerStatement
            &&& after->LayerStatement_loc == loc
            &&& after->names.len() == names.len()
            &&& forall|k: int|
                0 <= k < names.len() ==> #[trigger] after->names[k] == (match layer {
                    Some(Some(outer)) => outer + names[k],
                    _ => names[k],
                })
        },
        _ => after == before,
    }
}

impl LayerName {
    /// A copy of the name.
    fn copy(&self) -> (r: LayerName)
        ensures
            r@ == self@,
    {
        LayerName(copy_texts(&self.0))
    }

    /// The name of a layer inside this one.
    fn joined(&self, inner: &LayerName) -> (r: LayerName)
        ensures
            r@ == self@ + inner@,
    {
        let mut parts: Vec<String> = copy_texts(&self.0);
        let mut others: Vec<String> = copy_texts(&inner.0);
        parts.append(&mut others);
        let r = LayerName(parts);
        assert(r@ =~= self@ + inner@);
        r
    }

    /// Whether two layers that may have no name are the same.
    pub fn same(a: &Option<LayerName>, b: &Option<LayerName>) -> (r: bool)
        ensures
            r == (name_view(*a) == name_view(*b)),
    {
        match a {
            Some(a) => match b {
                Some(b) => same_texts(&a.0, &b.0),
                None => false,
            },
            None => b.is_none(),
        }
    }
}

impl Clone for LayerName {
    fn clone(&self) -> (r: LayerName)
        ensures
            r@ == self@,
    {
        self.copy()
    }
}

/// A copy of a layer.
pub fn copy_layer(layer: &Option<Option<LayerName>>) -> (r: Option<Option<LayerName>>)
    ensures
        layer_view(r) == layer_view(*layer),
{
    match layer {
        Some(Some(name)) => Some(Some(name.copy())),
        Some(None) => Some(None),
        None => None,
    }
}

/// A copy of a condition that may be missing.
pub fn copy_supports(supports: &Option<SupportsCondition>) -> (r: Option<SupportsCondition>)
    ensures
        supports_view(r) == supports_view(*supports),
{
    match supports {
        Some(c) => Some(c.clone()),
        None => None,
    }
}

/// Joins the `@supports` conditions of nested imports by `and`.
pub fn combine_supports(a: Option<SupportsCondition>, b: &Option<SupportsCondition>) -> (r: Option<
    SupportsCondition,
>)
    ensures
        supports_view(r) == supports_and(supports_view(a), supports_view(*b)),
{
    match a {
        Some(a) => {
            let mut a: SupportsCondition = a;
            if let Some(b) = b {
                a.and(b);
            }
            Some(a)
        },
        None => copy_supports(b),
    }
}

/// Joins the layers of nested imports.
fn combine_layers(outer: &Option<Option<LayerName>>, inner: &Option<Option<LayerName>>) -> (r: Option<
    Option<Option<LayerName>>,
>)
    ensures
        match r {
            Some(layer) => layer_and(layer_view(*outer), layer_view(*inner)) == Some(
                layer_view(layer),
            ),
            None => layer_and(layer_view(*outer), layer_view(*inner)) is None,
        },
{
    match outer {
        Some(Some(a)) => match inner {
            Some(Some(b)) => Some(Some(Some(a.joined(b)))),
            Some(None) => None,
            None => Some(Some(Some(a.copy()))),
        },
        Some(None) => {
            if inner.is_some() {
                None
            } else {
                Some(None)
            }
        },
        None => Some(copy_layer(inner)),
    }
}

impl ImportRule {
    /// The import that `import`, in the file with index `source_index`, amounts to where that
    /// file is imported as this rule says.
    pub fn nested(&self, import: &ImportRule, source_index: u32) -> (r: Result<
        ImportRule,
        BundleErrorKind,
    >)
        ensures
            match r {
                Ok(rule) => nested(self@, import@, source_index) == Ok::<
                    ImportView,
                    BundleErrorView,
                >(rule@),
                Err(e) => nested(self@, import@, source_index) == Err::<ImportView, BundleErrorView>(
                    e@,
                ),
            },
    {
        let mut media: MediaList = self.media.clone();
        if media.and(&import.media).is_err() {
            return Err(BundleErrorKind::UnsupportedMediaBooleanLogic);
        }
        let layer: Option<Option<LayerName>> = match combine_layers(&self.layer, &import.layer) {
            Some(layer) => layer,
            None => {
                return Err(BundleErrorKind::UnsupportedLayerCombination);
            },
        };
        let supports = combine_supports(copy_supports(&self.supports), &import.supports);
        Ok(
            ImportRule {
                url: String::new(),
                layer,
                supports,
                media,
                loc: Location {
                    source_index,
                    line: import.loc.line,
                    column: import.loc.column,
                },
            },
        )
    }
}

impl CssRule {
    /// Puts the layers that the rule names into the layer that its file is imported into.
    pub fn prefix_layers(&mut self, layer: &Option<Option<LayerName>>)
        ensures
            final(self)@ == prefixed(old(self)@, layer_view(*layer)),
    {
        if let CssRule::LayerStatement(statement) = self {
            if let Some(Some(outer)) = layer {
                let ghost before = statement.names@;
                let ghost start = layer_views(before);
                let mut names: Vec<LayerName> = Vec::new();
                let mut i: usize = 0;
                while i < statement.names.len()
                    invariant
                        i <= statement.names.len(),
                        names.len() == i,
                        statement.names@ == before,
                        forall|k: int| 0 <= k < i ==> names@[k]@ == outer@ + before[k]@,
                    decreases statement.names.len() - i,
                {
                    names.push(outer.joined(&statement.names[i]));
                    i = i + 1;
                }
                statement.names = names;
                assert(layer_views(names@) =~= start.map_values(|n: Seq<Seq<char>>| outer@ + n));
            }
        }
    }
}

} // verus!
