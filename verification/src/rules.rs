//! The rules of a style sheet, as far as bundling tells them apart.
use crate::location::Location;
use crate::media::{MediaList, QueryView};
use crate::supports::{ConditionView, SupportsCondition};
use crate::text::texts;
use vstd::prelude::*;

verus! {

/// The name of a cascade layer: the parts between its dots.
#[derive(Debug)]
pub struct LayerName(pub Vec<String>);

impl View for LayerName {
    type V = Seq<Seq<char>>;

    open spec fn view(&self) -> Seq<Seq<char>> {
        texts(self.0@)
    }
}

/// The names of layers.
pub open spec fn layer_views(names: Seq<LayerName>) -> Seq<Seq<Seq<char>>> {
    names.map_values(|n: LayerName| n@)
}

/// The name of a layer that may have none.
pub open spec fn name_view(name: Option<LayerName>) -> Option<Seq<Seq<char>>> {
    match name {
        Some(n) => Some(n@),
        None => None,
    }
}

/// The layer of an import: none, a layer without a name, or one with a name.
pub open spec fn layer_view(layer: Option<Option<LayerName>>) -> Option<Option<Seq<Seq<char>>>> {
    match layer {
        Some(name) => Some(name_view(name)),
        None => None,
    }
}

/// The condition of an import, where it has one.
pub open spec fn supports_view(supports: Option<SupportsCondition>) -> Option<ConditionView> {
    match supports {
        Some(c) => Some(c@),
        None => None,
    }
}

/// An `@import` rule.
#[derive(Debug)]
pub struct ImportRule {
    pub url: String,
    pub layer: Option<Option<LayerName>>,
    pub supports: Option<SupportsCondition>,
    pub media: MediaList,
    pub loc: Location,
}

/// The mathematical form of an [`ImportRule`].
#[verifier::ext_equal]
pub struct ImportView {
    pub url: Seq<char>,
    pub layer: Option<Option<Seq<Seq<char>>>>,
    pub supports: Option<ConditionView>,
    pub media: Seq<QueryView>,
    pub loc: Location,
}

impl View for ImportRule {
    type V = ImportView;

    open spec fn view(&self) -> ImportView {
        ImportView {
            url: self.url@,
            layer: layer_view(self.layer),
            supports: supports_view(self.supports),
            media: self.media@,
            loc: self.loc,
        }
    }
}

/// An `@layer` rule that names layers and holds no rules.
#[derive(Debug)]
pub struct LayerStatementRule {
    pub names: Vec<LayerName>,
    pub loc: Location,
}

/// A `@media` rule.
#[derive(Debug)]
pub struct MediaRule {
    pub query: MediaList,
    pub rules: CssRuleList,
    pub loc: Location,
}

/// An `@supports` rule.
#[derive(Debug)]
pub struct SupportsRule {
    pub condition: SupportsCondition,
    pub rules: CssRuleList,
    pub loc: Location,
}

/// An `@layer` rule that holds rules.
#[derive(Debug)]
pub struct LayerBlockRule {
    pub name: Option<LayerName>,
    pub rules: CssRuleList,
    pub loc: Location,
}

/// Any other rule, as the lines of its text.
#[derive(Debug)]
pub struct PlainRule {
    pub lines: Vec<String>,
    pub loc: Location,
}

/// The mathematical form of a [`PlainRule`].
#[verifier::ext_equal]
pub struct PlainView {
    pub lines: Seq<Seq<char>>,
    pub loc: Location,
}

impl View for PlainRule {
    type V = PlainView;

    open spec fn view(&self) -> PlainView {
        PlainView { lines: texts(self.lines@), loc: self.loc }
    }
}

/// A rule.
#[derive(Debug)]
pub enum CssRule {
    Media(MediaRule),
    Import(ImportRule),
    Supports(SupportsRule),
    LayerStatement(LayerStatementRule),
    LayerBlock(LayerBlockRule),
    Other(PlainRule),
    /// A rule that has been taken out.
    Ignored,
}

/// A list of rules.
#[derive(Debug)]
pub struct CssRuleList(pub Vec<CssRule>);

/// The mathematical form of a [`CssRule`].
pub enum RuleView {
    Media { query: Seq<QueryView>, rules: Seq<RuleView>, loc: Location },
    Import(ImportView),
    Supports { condition: ConditionView, rules: Seq<RuleView>, loc: Location },
    LayerStatement { names: Seq<Seq<Seq<char>>>, loc: Location },
    LayerBlock { name: Option<Seq<Seq<char>>>, rules: Seq<RuleView>, loc: Location },
    Other(PlainView),
    Ignored,
}

/// What a rule stands for.
pub open spec fn rule_view(rule: CssRule) -> RuleView
    decreases rule,
{
    match rule {
        CssRule::Media(r) => RuleView::Media {
            query: r.query@,
            rules: rule_views(r.rules.0@),
            loc: r.loc,
        },
        CssRule::Import(r) => RuleView::Import(r@),
        CssRule::Supports(r) => RuleView::Supports {
            condition: r.condition@,
            rules: rule_views(r.rules.0@),
            loc: r.loc,
        },
        CssRule::LayerStatement(r) => RuleView::LayerStatement {
            names: layer_views(r.names@),
            loc: r.loc,
        },
        CssRule::LayerBlock(r) => RuleView::LayerBlock {
            name: name_view(r.name),
            rules: rule_views(r.rules.0@),
            loc: r.loc,
        },
        CssRule::Other(r) => RuleView::Other(r@),
        CssRule::Ignored => RuleView::Ignored,
    }
}

/// What each rule of a list stands for.
pub open spec fn rule_views(list: Seq<CssRule>) -> Seq<RuleView>
    decreases list,
{
    if list.len() == 0 {
        Seq::empty()
    } else {
        rule_views(list.drop_last()).push(rule_view(list.last()))
    }
}

impl View for CssRule {
    type V = RuleView;

    open spec fn view(&self) -> RuleView {
        rule_view(*self)
    }
}

impl View for CssRuleList {
    type V = Seq<RuleView>;

    open spec fn view(&self) -> Seq<RuleView> {
        rule_views(self.0@)
    }
}

/// `rule_views` goes element by element.
pub proof fn lemma_rule_views(list: Seq<CssRule>)
    ensures
        rule_views(list).len() == list.len(),
        forall|i: int| 0 <= i < list.len() ==> #[trigger] rule_views(list)[i] == list[i]@,
    decreases list.len(),
{
    if list.len() > 0 {
        lemma_rule_views(list.drop_last());
    }
}

} // verus!
