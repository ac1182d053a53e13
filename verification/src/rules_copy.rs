//! Copies of rules, and whether two rules are the same.
use crate::conditions::{copy_layer, copy_supports};
use crate::rules::{
    layer_view, layer_views, lemma_rule_views, name_view, rule_views, supports_view, CssRule,
    CssRuleList, ImportRule, LayerBlockRule, LayerName, LayerStatementRule, MediaRule, PlainRule,
    RuleView, SupportsRule,
};
use crate::supports::SupportsCondition;
use crate::text::{copy_texts, same_texts};
use vstd::prelude::*;

verus! {

/// A copy of the name of a layer that may have none.
fn copy_name(name: &Option<LayerName>) -> (r: Option<LayerName>)
    ensures
        name_view(r) == name_view(*name),
{
    match name {
        Some(name) => Some(name.clone()),
        None => None,
    }
}

/// A copy of a list of names.
fn copy_names(names: &Vec<LayerName>) -> (r: Vec<LayerName>)
    ensures
        layer_views(r@) == layer_views(names@),
{
    let mut copy: Vec<LayerName> = Vec::new();
    let mut i: usize = 0;
    while i < names.len()
        invariant
            i <= names.len(),
            copy.len() == i,
            forall|k: int| 0 <= k < i ==> copy@[k]@ == names@[k]@,
        decreases names.len() - i,
    {
        copy.push(names[i].clone());
        i = i + 1;
    }
    assert(layer_views(copy@) =~= layer_views(names@));
    copy
}

/// Whether two lists hold the same names in the same order.
fn same_names(a: &Vec<LayerName>, b: &Vec<LayerName>) -> (r: bool)
    ensures
        r == (layer_views(a@) == layer_views(b@)),
{
    if a.len() != b.len() {
        assert(layer_views(a@).len() != layer_views(b@).len());
        return false;
    }
    let mut i: usize = 0;
    while i < a.len()
        invariant
            i <= a.len(),
            a.len() == b.len(),
            forall|k: int| 0 <= k < i ==> a@[k]@ == b@[k]@,
        decreases a.len() - i,
    {
        if !same_texts(&a[i].0, &b[i].0) {
            assert(layer_views(a@)[i as int] != layer_views(b@)[i as int]);
            return false;
        }
        i = i + 1;
    }
    assert(layer_views(a@) =~= layer_views(b@));
    true
}

/// Whether two layers are the same.
fn same_layer(a: &Option<Option<LayerName>>, b: &Option<Option<LayerName>>) -> (r: bool)
    ensures
        r == (layer_view(*a) == layer_view(*b)),
{
    match a {
        Some(a) => match b {
            Some(b) => LayerName::same(a, b),
            None => false,
        },
        None => b.is_none(),
    }
}

/// Whether two conditions that may be missing are the same.
fn same_supports(a: &Option<SupportsCondition>, b: &Option<SupportsCondition>) -> (r: bool)
    ensures
        r == (supports_view(*a) == supports_view(*b)),
{
    match a {
        Some(a) => match b {
            Some(b) => *a == *b,
            None => false,
        },
        None => b.is_none(),
    }
}

/// A copy of a list of rules.
fn copy_rules(list: &Vec<CssRule>) -> (r: Vec<CssRule>)
    ensures
        rule_views(r@) == rule_views(list@),
    decreases list,
{
    let mut copy: Vec<CssRule> = Vec::new();
    let mut i: usize = 0;
    while i < list.len()
        invariant
            i <= list.len(),
            copy.len() == i,
            forall|k: int| 0 <= k < i ==> copy@[k]@ == list@[k]@,
        decreases list.len() - i,
    {
        copy.push(list[i].copy());
        i = i + 1;
    }
    proof {
        lemma_rule_views(copy@);
        lemma_rule_views(list@);
        assert(rule_views(copy@) =~= rule_views(list@));
    }
    copy
}

/// Whether two lists hold the same rules in the same order.
fn same_rules(a: &Vec<CssRule>, b: &Vec<CssRule>) -> (r: bool)
    ensures
        r == (rule_views(a@) == rule_views(b@)),
    decreases a,
{
    proof {
        lemma_rule_views(a@);
        lemma_rule_views(b@);
    }
    if a.len() != b.len() {
        return false;
    }
    let mut i: usize = 0;
    while i < a.len()
        invariant
            i <= a.len(),
            a.len() == b.len(),
            rule_views(a@).len() == a.len(),
            rule_views(b@).len() == b.len(),
            forall|k: int| 0 <= k < a.len() ==> #[trigger] rule_views(a@)[k] == a@[k]@,
            forall|k: int| 0 <= k < b.len() ==> #[trigger] rule_views(b@)[k] == b@[k]@,
            forall|k: int| 0 <= k < i ==> a@[k]@ == b@[k]@,
        decreases a.len() - i,
    {
        if !a[i].same(&b[i]) {
            assert(rule_views(a@)[i as int] != rule_views(b@)[i as int]);
            return false;
        }
        i = i + 1;
    }
    assert(rule_views(a@) =~= rule_views(b@));
    true
}

impl LayerStatementRule {
    /// What the rule stands for.
    pub open spec fn rule(self) -> RuleView {
        RuleView::LayerStatement { names: layer_views(self.names@), loc: self.loc }
    }
}

impl CssRule {
    /// A copy of the rule.
    fn copy(&self) -> (r: CssRule)
        ensures
            r@ == self@,
        decreases self,
    {
        match self {
            CssRule::Media(r) => CssRule::Media(r.copy()),
            CssRule::Import(r) => CssRule::Import(r.clone()),
            CssRule::Supports(r) => CssRule::Supports(r.copy()),
            CssRule::LayerStatement(r) => CssRule::LayerStatement(r.clone()),
            CssRule::LayerBlock(r) => CssRule::LayerBlock(r.copy()),
            CssRule::Other(r) => CssRule::Other(r.clone()),
            CssRule::Ignored => CssRule::Ignored,
        }
    }

    /// Whether two rules are the same.
    fn same(&self, other: &CssRule) -> (r: bool)
        ensures
            r == (self@ == other@),
        decreases self,
    {
        match self {
            CssRule::Media(a) => match other {
                CssRule::Media(b) => a.same(b),
                _ => false,
            },
            CssRule::Import(a) => match other {
                CssRule::Import(b) => *a == *b,
                _ => false,
            },
            CssRule::Supports(a) => match other {
                CssRule::Supports(b) => a.same(b),
                _ => false,
            },
            CssRule::LayerStatement(a) => match other {
                CssRule::LayerStatement(b) => *a == *b,
                _ => false,
            },
            CssRule::LayerBlock(a) => match other {
                CssRule::LayerBlock(b) => a.same(b),
                _ => false,
            },
            CssRule::Other(a) => match other {
                CssRule::Other(b) => *a == *b,
                _ => false,
            },
            CssRule::Ignored => match other {
                CssRule::Ignored => true,
                _ => false,
            },
        }
    }
}

impl SupportsRule {
    /// A copy of the rule.
    fn copy(&self) -> (r: SupportsRule)
        ensures
            r.rule() == self.rule(),
        decreases self,
    {
        SupportsRule {
            condition: self.condition.clone(),
            rules: CssRuleList(copy_rules(&self.rules.0)),
            loc: self.loc,
        }
    }

    /// Whether two rules are the same.
    fn same(&self, other: &SupportsRule) -> (r: bool)
        ensures
            r == (self.rule() == other.rule()),
        decreases self,
    {
        self.condition == other.condition && self.loc == other.loc && same_rules(
            &self.rules.0,
            &other.rules.0,
        )
    }
}

impl MediaRule {
    /// A copy of the rule.
    fn copy(&self) -> (r: MediaRule)
        ensures
            r.rule() == self.rule(),
        decreases self,
    {
        MediaRule {
            query: self.query.clone(),
            rules: CssRuleList(copy_rules(&self.rules.0)),
            loc: self.loc,
        }
    }

    /// Whether two rules are the same.
    fn same(&self, other: &MediaRule) -> (r: bool)
        ensures
            r == (self.rule() == other.rule()),
        decreases self,
    {
        self.query == other.query && self.loc == other.loc && same_rules(
            &self.rules.0,
            &other.rules.0,
        )
    }
}

impl LayerBlockRule {
    /// A copy of the rule.
    fn copy(&self) -> (r: LayerBlockRule)
        ensures
            r.rule() == self.rule(),
        decreases self,
    {
        LayerBlockRule {
            name: copy_name(&self.name),
            rules: CssRuleList(copy_rules(&self.rules.0)),
            loc: self.loc,
        }
    }

    /// Whether two rules are the same.
    fn same(&self, other: &LayerBlockRule) -> (r: bool)
        ensures
            r == (self.rule() == other.rule()),
        decreases self,
    {
        LayerName::same(&self.name, &other.name) && self.loc == other.loc && same_rules(
            &self.rules.0,
            &other.rules.0,
        )
    }
}

impl PartialEq for LayerName {
    fn eq(&self, other: &LayerName) -> (r: bool) {
        same_texts(&self.0, &other.0)
    }
}

impl vstd::std_specs::cmp::PartialEqSpecImpl for LayerName {
    open spec fn obeys_eq_spec() -> bool {
        true
    }

    open spec fn eq_spec(&self, other: &LayerName) -> bool {
        self@ == other@
    }
}

impl Clone for ImportRule {
    fn clone(&self) -> (r: ImportRule)
        ensures
            r@ == self@,
    {
        ImportRule {
            url: self.url.clone(),
            layer: copy_layer(&self.layer),
            supports: copy_supports(&self.supports),
            media: self.media.clone(),
            loc: self.loc,
        }
    }
}

impl PartialEq for ImportRule {
    fn eq(&self, other: &ImportRule) -> (r: bool) {
        self.url == other.url && same_layer(&self.layer, &other.layer) && same_supports(
            &self.supports,
            &other.supports,
        ) && self.media == other.media && self.loc == other.loc
    }
}

impl vstd::std_specs::cmp::PartialEqSpecImpl for ImportRule {
    open spec fn obeys_eq_spec() -> bool {
        true
    }

    open spec fn eq_spec(&self, other: &ImportRule) -> bool {
        self@ == other@
    }
}

impl Clone for LayerStatementRule {
    fn clone(&self) -> (r: LayerStatementRule)
        ensures
            r.rule() == self.rule(),
    {
        LayerStatementRule { names: copy_names(&self.names), loc: self.loc }
    }
}

impl PartialEq for LayerStatementRule {
    fn eq(&self, other: &LayerStatementRule) -> (r: bool) {
        same_names(&self.names, &other.names) && self.loc == other.loc
    }
}

impl vstd::std_specs::cmp::PartialEqSpecImpl for LayerStatementRule {
    open spec fn obeys_eq_spec() -> bool {
        true
    }

    open spec fn eq_spec(&self, other: &LayerStatementRule) -> bool {
        self.rule() == other.rule()
    }
}

impl Clone for PlainRule {
    fn clone(&self) -> (r: PlainRule)
        ensures
            r@ == self@,
    {
        PlainRule { lines: copy_texts(&self.lines), loc: self.loc }
    }
}

impl PartialEq for PlainRule {
    fn eq(&self, other: &PlainRule) -> (r: bool) {
        same_texts(&self.lines, &other.lines) && self.loc == other.loc
    }
}

impl vstd::std_specs::cmp::PartialEqSpecImpl for PlainRule {
    open spec fn obeys_eq_spec() -> bool {
        true
    }

    open spec fn eq_spec(&self, other: &PlainRule) -> bool {
        self@ == other@
    }
}

impl Clone for SupportsRule {
    fn clone(&self) -> (r: SupportsRule)
        ensures
            r.rule() == self.rule(),
    {
        self.copy()
    }
}

impl PartialEq for SupportsRule {
    fn eq(&self, other: &SupportsRule) -> (r: bool) {
        self.same(other)
    }
}

impl vstd::std_specs::cmp::PartialEqSpecImpl for SupportsRule {
    open spec fn obeys_eq_spec() -> bool {
        true
    }

    open spec fn eq_spec(&self, other: &SupportsRule) -> bool {
        self.rule() == other.rule()
    }
}

impl Clone for MediaRule {
    fn clone(&self) -> (r: MediaRule)
        ensures
            r.rule() == self.rule(),
    {
        self.copy()
    }
}

impl PartialEq for MediaRule {
    fn eq(&self, other: &MediaRule) -> (r: bool) {
        self.same(other)
    }
}

impl vstd::std_specs::cmp::PartialEqSpecImpl for MediaRule {
    open spec fn obeys_eq_spec() -> bool {
        true
    }

    open spec fn eq_spec(&self, other: &MediaRule) -> bool {
        self.rule() == other.rule()
    }
}

impl Clone for LayerBlockRule {
    fn clone(&self) -> (r: LayerBlockRule)
        ensures
            r.rule() == self.rule(),
    {
        self.copy()
    }
}

impl PartialEq for LayerBlockRule {
    fn eq(&self, other: &LayerBlockRule) -> (r: bool) {
        self.same(other)
    }
}

impl vstd::std_specs::cmp::PartialEqSpecImpl for LayerBlockRule {
    open spec fn obeys_eq_spec() -> bool {
        true
    }

    open spec fn eq_spec(&self, other: &LayerBlockRule) -> bool {
        self.rule() == other.rule()
    }
}

impl Clone for CssRule {
    fn clone(&self) -> (r: CssRule)
        ensures
            r@ == self@,
    {
        self.copy()
    }
}

impl PartialEq for CssRule {
    fn eq(&self, other: &CssRule) -> (r: bool) {
        self.same(other)
    }
}

impl vstd::std_specs::cmp::PartialEqSpecImpl for CssRule {
    open spec fn obeys_eq_spec() -> bool {
        true
    }

    open spec fn eq_spec(&self, other: &CssRule) -> bool {
        self@ == other@
    }
}

impl Clone for CssRuleList {
    fn clone(&self) -> (r: CssRuleList)
        ensures
            r@ == self@,
    {
        CssRuleList(copy_rules(&self.0))
    }
}

impl PartialEq for CssRuleList {
    fn eq(&self, other: &CssRuleList) -> (r: bool) {
        same_rules(&self.0, &other.0)
    }
}

impl vstd::std_specs::cmp::PartialEqSpecImpl for CssRuleList {
    open spec fn obeys_eq_spec() -> bool {
        true
    }

    open spec fn eq_spec(&self, other: &CssRuleList) -> bool {
        self@ == other@
    }
}

} // verus!
