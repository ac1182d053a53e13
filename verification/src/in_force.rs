//! Which rules of a style sheet are in force.
use crate::conditions::{applies, ConditionsView};
use crate::inline::{head_end, is_head, lemma_head_end, own_rules, wrapped};
use crate::location::Location;
use crate::media::{list_matches, Medium};
use crate::rules::{PlainView, RuleView};
use crate::supports::{holds, ConditionView};
use vstd::prelude::*;

verus! {

/// The plain rules that are in force on a medium, in a browser that supports what `supported`
/// tells.
pub open spec fn in_force(
    rules: Seq<RuleView>,
    medium: Medium,
    supported: spec_fn(ConditionView) -> bool,
) -> Seq<PlainView>
    decreases rules,
{
    if rules.len() == 0 {
        Seq::empty()
    } else {
        in_force(rules.drop_last(), medium, supported) + rule_in_force(
            rules.last(),
            medium,
            supported,
        )
    }
}

/// What a rule contributes to the plain rules that are in force.
pub open spec fn rule_in_force(
    rule: RuleView,
    medium: Medium,
    supported: spec_fn(ConditionView) -> bool,
) -> Seq<PlainView>
    decreases rule,
{
    match rule {
        RuleView::Media { query, rules, .. } => if list_matches(query, medium) {
            in_force(rules, medium, supported)
        } else {
            Seq::empty()
        },
        RuleView::Supports { condition, rules, .. } => if holds(condition, supported) {
            in_force(rules, medium, supported)
        } else {
            Seq::empty()
        },
        RuleView::LayerBlock { rules, .. } => in_force(rules, medium, supported),
        RuleView::Other(rule) => seq![rule],
        _ => Seq::empty(),
    }
}

/// Of two lists of rules one after the other the rules in force are those of each.
pub proof fn lemma_in_force_joined(
    a: Seq<RuleView>,
    b: Seq<RuleView>,
    medium: Medium,
    supported: spec_fn(ConditionView) -> bool,
)
    ensures
        in_force(a + b, medium, supported) == in_force(a, medium, supported) + in_force(
            b,
            medium,
            supported,
        ),
    decreases b.len(),
{
    if b.len() == 0 {
        assert(a + b =~= a);
        assert(in_force(b, medium, supported) =~= Seq::empty());
        assert(in_force(a, medium, supported) + Seq::<PlainView>::empty() =~= in_force(
            a,
            medium,
            supported,
        ));
    } else {
        assert((a + b).drop_last() =~= a + b.drop_last());
        lemma_in_force_joined(a, b.drop_last(), medium, supported);
        assert(in_force(a + b, medium, supported) =~= in_force(a, medium, supported) + in_force(
            b,
            medium,
            supported,
        ));
    }
}

/// What a list of one rule puts in force.
proof fn lemma_in_force_one(
    rule: RuleView,
    medium: Medium,
    supported: spec_fn(ConditionView) -> bool,
)
    ensures
        in_force(seq![rule], medium, supported) == rule_in_force(rule, medium, supported),
{
    assert(seq![rule].drop_last() =~= Seq::empty());
    assert(in_force(seq![rule].drop_last(), medium, supported) =~= Seq::empty());
    assert(in_force(seq![rule], medium, supported) =~= rule_in_force(rule, medium, supported));
}

/// The rules of a file are in force exactly where the conditions of the file apply.
pub proof fn law_wrapped_rules_apply(
    rules: Seq<RuleView>,
    c: ConditionsView,
    loc: Location,
    medium: Medium,
    supported: spec_fn(ConditionView) -> bool,
)
    ensures
        in_force(wrapped(rules, c, loc), medium, supported) == (if applies(
            c.media,
            c.supports,
            medium,
            supported,
        ) {
            in_force(rules, medium, supported)
        } else {
            Seq::empty()
        }),
{
    let in_media = if c.media.len() > 0 {
        seq![RuleView::Media { query: c.media, rules, loc }]
    } else {
        rules
    };
    if c.media.len() > 0 {
        lemma_in_force_one(RuleView::Media { query: c.media, rules, loc }, medium, supported);
    }
    let in_supports = match c.supports {
        Some(condition) => seq![RuleView::Supports { condition, rules: in_media, loc }],
        None => in_media,
    };
    if let Some(condition) = c.supports {
        lemma_in_force_one(
            RuleView::Supports { condition, rules: in_media, loc },
            medium,
            supported,
        );
    }
    if let Some(name) = c.layer {
        lemma_in_force_one(
            RuleView::LayerBlock { name, rules: in_supports, loc },
            medium,
            supported,
        );
    }
}

/// The rules that may stand before an import put nothing in force.
pub proof fn lemma_own_rules_in_force(
    rules: Seq<RuleView>,
    medium: Medium,
    supported: spec_fn(ConditionView) -> bool,
)
    ensures
        in_force(own_rules(rules), medium, supported) == in_force(rules, medium, supported),
{
    lemma_head_end(rules, 0);
    let own = own_rules(rules);
    assert forall|k: int| 0 <= k < rules.len() implies rule_in_force(
        #[trigger] own[k],
        medium,
        supported,
    ) == rule_in_force(rules[k], medium, supported) by {
        if k < head_end(rules, 0) {
            assert(is_head(rules[k]));
        }
    }
    lemma_same_in_force(own, rules, medium, supported);
}

/// Lists whose rules contribute the same put the same in force.
pub proof fn lemma_same_in_force(
    a: Seq<RuleView>,
    b: Seq<RuleView>,
    medium: Medium,
    supported: spec_fn(ConditionView) -> bool,
)
    requires
        a.len() == b.len(),
        forall|k: int|
            0 <= k < a.len() ==> rule_in_force(#[trigger] a[k], medium, supported)
                == rule_in_force(b[k], medium, supported),
    ensures
        in_force(a, medium, supported) == in_force(b, medium, supported),
    decreases a.len(),
{
    if a.len() > 0 {
        assert forall|k: int| 0 <= k < a.len() - 1 implies rule_in_force(
            #[trigger] a.drop_last()[k],
            medium,
            supported,
        ) == rule_in_force(b.drop_last()[k], medium, supported) by {
            assert(a[k] == a.drop_last()[k]);
        }
        lemma_same_in_force(a.drop_last(), b.drop_last(), medium, supported);
        assert(a[a.len() - 1] == a.last());
    }
}

/// Whether the plain rules of a list lie in the file with the given index.
pub open spec fn located(rules: Seq<RuleView>, index: u32) -> bool
    decreases rules,
{
    rules.len() > 0 ==> located(rules.drop_last(), index) && rule_located(rules.last(), index)
}

/// Whether the plain rules that a rule is or holds lie in the file with the given index.
pub open spec fn rule_located(rule: RuleView, index: u32) -> bool
    decreases rule,
{
    match rule {
        RuleView::Media { rules, .. } => located(rules, index),
        RuleView::Supports { rules, .. } => located(rules, index),
        RuleView::LayerBlock { rules, .. } => located(rules, index),
        RuleView::Other(rule) => rule.loc.source_index == index,
        _ => true,
    }
}

/// Rules that are in force lie where the rules that they come from do.
pub proof fn lemma_located(
    rules: Seq<RuleView>,
    index: u32,
    medium: Medium,
    supported: spec_fn(ConditionView) -> bool,
)
    requires
        located(rules, index),
    ensures
        forall|k: int|
            0 <= k < in_force(rules, medium, supported).len() ==> (#[trigger] in_force(
                rules,
                medium,
                supported,
            )[k]).loc.source_index == index,
    decreases rules,
{
    if rules.len() > 0 {
        lemma_located(rules.drop_last(), index, medium, supported);
        lemma_rule_located(rules.last(), index, medium, supported);
        let before = in_force(rules.drop_last(), medium, supported);
        let last = rule_in_force(rules.last(), medium, supported);
        assert(in_force(rules, medium, supported) == before + last);
        assert forall|k: int| 0 <= k < (before + last).len() implies (#[trigger] (before
            + last)[k]).loc.source_index == index by {
            if k < before.len() {
                assert((before + last)[k] == before[k]);
            } else {
                assert((before + last)[k] == last[k - before.len()]);
            }
        }
    }
}

/// The same of one rule.
proof fn lemma_rule_located(
    rule: RuleView,
    index: u32,
    medium: Medium,
    supported: spec_fn(ConditionView) -> bool,
)
    requires
        rule_located(rule, index),
    ensures
        forall|k: int|
            0 <= k < rule_in_force(rule, medium, supported).len() ==> (#[trigger] rule_in_force(
                rule,
                medium,
                supported,
            )[k]).loc.source_index == index,
    decreases rule,
{
    match rule {
        RuleView::Media { rules, query, .. } => {
            lemma_located(rules, index, medium, supported);
            assert(rule_in_force(rule, medium, supported) == (if list_matches(query, medium) {
                in_force(rules, medium, supported)
            } else {
                Seq::empty()
            }));
        },
        RuleView::Supports { rules, condition, .. } => {
            lemma_located(rules, index, medium, supported);
            assert(rule_in_force(rule, medium, supported) == (if holds(condition, supported) {
                in_force(rules, medium, supported)
            } else {
                Seq::empty()
            }));
        },
        RuleView::LayerBlock { rules, .. } => {
            lemma_located(rules, index, medium, supported);
            assert(rule_in_force(rule, medium, supported) == in_force(rules, medium, supported));
        },
        _ => {},
    }
}

} // verus!
