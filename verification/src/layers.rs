//! In which layers the rules of a bundle lie, and that none of them is lost.
use crate::acyclic::{imports_stand_first, law_new_bundle_without_cycles};
use crate::bundler::{bundled, entry_rule, linked};
use crate::conditions::{applies, ConditionsView};
use crate::entry::EntryView;
use crate::in_force::{in_force, rule_in_force};
use crate::inline::{
    head_end, is_head, lemma_head_end, own_rules, ready, rules_of, unconditional, wrapped,
};
use crate::load::{answers, loaded, Reply, SourceProvider, StyleSheetParser};
use crate::location::Location;
use crate::media::{list_matches, Medium};
use crate::order::{
    acyclic, countable, dependencies_of, last_met, lemma_ordered, lemma_ordered_ready, ordered,
};
use crate::path::{has_components, PathView};
use crate::rules::{PlainView, RuleView};
use crate::supports::{holds, ConditionView};
use crate::tree::{
    import_at, law_bundle_is_tree, leads_back, tree, tree_files, tree_files_head, tree_head,
};
use vstd::prelude::*;

verus! {

/// A plain rule and the layers that it lies in, from the outermost on. A layer may have no name.
pub struct LayeredView {
    pub rule: PlainView,
    pub layers: Seq<Option<Seq<Seq<char>>>>,
}

/// The plain rules that are in force, each with the layers that it lies in, where the rules
/// themselves lie in the layers `outer`.
pub open spec fn in_layers(
    rules: Seq<RuleView>,
    medium: Medium,
    supported: spec_fn(ConditionView) -> bool,
    outer: Seq<Option<Seq<Seq<char>>>>,
) -> Seq<LayeredView>
    decreases rules,
{
    if rules.len() == 0 {
        Seq::empty()
    } else {
        in_layers(rules.drop_last(), medium, supported, outer) + rule_in_layers(
            rules.last(),
            medium,
            supported,
            outer,
        )
    }
}

/// What a rule contributes to them.
pub open spec fn rule_in_layers(
    rule: RuleView,
    medium: Medium,
    supported: spec_fn(ConditionView) -> bool,
    outer: Seq<Option<Seq<Seq<char>>>>,
) -> Seq<LayeredView>
    decreases rule,
{
    match rule {
        RuleView::Media { query, rules, .. } => if list_matches(query, medium) {
            in_layers(rules, medium, supported, outer)
        } else {
            Seq::empty()
        },
        RuleView::Supports { condition, rules, .. } => if holds(condition, supported) {
            in_layers(rules, medium, supported, outer)
        } else {
            Seq::empty()
        },
        RuleView::LayerBlock { name, rules, .. } => in_layers(
            rules,
            medium,
            supported,
            outer.push(name),
        ),
        RuleView::Other(rule) => seq![LayeredView { rule, layers: outer }],
        _ => Seq::empty(),
    }
}

/// The rules of such a list, without their layers.
pub open spec fn without_layers(list: Seq<LayeredView>) -> Seq<PlainView> {
    list.map_values(|x: LayeredView| x.rule)
}

/// The rules that are in force are the same with their layers and without.
pub proof fn law_rules_in_layers_are_in_force(
    rules: Seq<RuleView>,
    medium: Medium,
    supported: spec_fn(ConditionView) -> bool,
    outer: Seq<Option<Seq<Seq<char>>>>,
)
    ensures
        without_layers(in_layers(rules, medium, supported, outer)) == in_force(
            rules,
            medium,
            supported,
        ),
    decreases rules,
{
    let list = in_layers(rules, medium, supported, outer);
    if rules.len() > 0 {
        law_rules_in_layers_are_in_force(rules.drop_last(), medium, supported, outer);
        lemma_rule_in_layers(rules.last(), medium, supported, outer);
        let front = in_layers(rules.drop_last(), medium, supported, outer);
        let last = rule_in_layers(rules.last(), medium, supported, outer);
        assert(without_layers(front + last) =~= without_layers(front) + without_layers(last));
    } else {
        assert(without_layers(list) =~= in_force(rules, medium, supported));
    }
}

/// The same of one rule.
proof fn lemma_rule_in_layers(
    rule: RuleView,
    medium: Medium,
    supported: spec_fn(ConditionView) -> bool,
    outer: Seq<Option<Seq<Seq<char>>>>,
)
    ensures
        without_layers(rule_in_layers(rule, medium, supported, outer)) == rule_in_force(
            rule,
            medium,
            supported,
        ),
    decreases rule,
{
    match rule {
        RuleView::Media { query, rules, .. } => {
            law_rules_in_layers_are_in_force(rules, medium, supported, outer);
        },
        RuleView::Supports { condition, rules, .. } => {
            law_rules_in_layers_are_in_force(rules, medium, supported, outer);
        },
        RuleView::LayerBlock { name, rules, .. } => {
            law_rules_in_layers_are_in_force(rules, medium, supported, outer.push(name));
        },
        _ => {},
    }
    assert(without_layers(rule_in_layers(rule, medium, supported, outer)) =~= rule_in_force(
        rule,
        medium,
        supported,
    ));
}

/// Two lists of rules one after the other.
proof fn lemma_in_layers_joined(
    a: Seq<RuleView>,
    b: Seq<RuleView>,
    medium: Medium,
    supported: spec_fn(ConditionView) -> bool,
    outer: Seq<Option<Seq<Seq<char>>>>,
)
    ensures
        in_layers(a + b, medium, supported, outer) == in_layers(a, medium, supported, outer)
            + in_layers(b, medium, supported, outer),
    decreases b.len(),
{
    if b.len() == 0 {
        assert(a + b =~= a);
        assert(in_layers(a + b, medium, supported, outer) =~= in_layers(
            a,
            medium,
            supported,
            outer,
        ) + in_layers(b, medium, supported, outer));
    } else {
        assert((a + b).drop_last() =~= a + b.drop_last());
        lemma_in_layers_joined(a, b.drop_last(), medium, supported, outer);
        assert(in_layers(a + b, medium, supported, outer) =~= in_layers(
            a,
            medium,
            supported,
            outer,
        ) + in_layers(b, medium, supported, outer));
    }
}

/// A list of one rule.
proof fn lemma_in_layers_one(
    rule: RuleView,
    medium: Medium,
    supported: spec_fn(ConditionView) -> bool,
    outer: Seq<Option<Seq<Seq<char>>>>,
)
    ensures
        in_layers(seq![rule], medium, supported, outer) == rule_in_layers(
            rule,
            medium,
            supported,
            outer,
        ),
{
    assert(seq![rule].drop_last() =~= Seq::empty());
    assert(in_layers(seq![rule].drop_last(), medium, supported, outer) =~= Seq::empty());
    assert(in_layers(seq![rule], medium, supported, outer) =~= rule_in_layers(
        rule,
        medium,
        supported,
        outer,
    ));
}

/// The layers around the rules of a file with the given layer.
pub open spec fn layers_of(layer: Option<Option<Seq<Seq<char>>>>) -> Seq<
    Option<Seq<Seq<char>>>,
> {
    match layer {
        Some(name) => seq![name],
        None => Seq::empty(),
    }
}

/// The rules of a file are in force exactly where the conditions of the file apply, and lie there
/// in the layer of the file, where it has one, whatever its other conditions are.
pub proof fn law_wrapped_rules_lie_in_layer(
    rules: Seq<RuleView>,
    c: ConditionsView,
    loc: Location,
    medium: Medium,
    supported: spec_fn(ConditionView) -> bool,
    outer: Seq<Option<Seq<Seq<char>>>>,
)
    ensures
        in_layers(wrapped(rules, c, loc), medium, supported, outer) == (if applies(
            c.media,
            c.supports,
            medium,
            supported,
        ) {
            in_layers(rules, medium, supported, outer + layers_of(c.layer))
        } else {
            Seq::empty()
        }),
{
    let inner = outer + layers_of(c.layer);
    let in_media = if c.media.len() > 0 {
        seq![RuleView::Media { query: c.media, rules, loc }]
    } else {
        rules
    };
    if c.media.len() > 0 {
        lemma_in_layers_one(
            RuleView::Media { query: c.media, rules, loc },
            medium,
            supported,
            inner,
        );
    }
    let in_supports = match c.supports {
        Some(condition) => seq![RuleView::Supports { condition, rules: in_media, loc }],
        None => in_media,
    };
    if let Some(condition) = c.supports {
        lemma_in_layers_one(
            RuleView::Supports { condition, rules: in_media, loc },
            medium,
            supported,
            inner,
        );
    }
    match c.layer {
        Some(name) => {
            lemma_in_layers_one(
                RuleView::LayerBlock { name, rules: in_supports, loc },
                medium,
                supported,
                outer,
            );
            assert(outer.push(name) =~= inner);
        },
        None => {
            assert(outer =~= inner);
        },
    }
}

/// Rules that are taken out because imports may stand behind them put nothing in force.
proof fn lemma_own_rules_in_layers(
    rules: Seq<RuleView>,
    medium: Medium,
    supported: spec_fn(ConditionView) -> bool,
    outer: Seq<Option<Seq<Seq<char>>>>,
)
    ensures
        in_layers(own_rules(rules), medium, supported, outer) == in_layers(
            rules,
            medium,
            supported,
            outer,
        ),
{
    let own = own_rules(rules);
    lemma_head_end(rules, 0);
    assert forall|k: int| 0 <= k < rules.len() implies rule_in_layers(
        #[trigger] own[k],
        medium,
        supported,
        outer,
    ) == rule_in_layers(rules[k], medium, supported, outer) by {
        if k < head_end(rules, 0) {
            assert(is_head(rules[k]));
        }
    }
    lemma_same_in_layers(own, rules, medium, supported, outer);
}

/// Lists whose rules contribute the same put the same in force.
pub proof fn lemma_same_in_layers(
    a: Seq<RuleView>,
    b: Seq<RuleView>,
    medium: Medium,
    supported: spec_fn(ConditionView) -> bool,
    outer: Seq<Option<Seq<Seq<char>>>>,
)
    requires
        a.len() == b.len(),
        forall|k: int|
            0 <= k < a.len() ==> rule_in_layers(#[trigger] a[k], medium, supported, outer)
                == rule_in_layers(b[k], medium, supported, outer),
    ensures
        in_layers(a, medium, supported, outer) == in_layers(b, medium, supported, outer),
    decreases a.len(),
{
    if a.len() > 0 {
        assert forall|k: int| 0 <= k < a.len() - 1 implies rule_in_layers(
            #[trigger] a.drop_last()[k],
            medium,
            supported,
            outer,
        ) == rule_in_layers(b.drop_last()[k], medium, supported, outer) by {
            assert(a[k] == a.drop_last()[k]);
        }
        lemma_same_in_layers(a.drop_last(), b.drop_last(), medium, supported, outer);
        assert(a[a.len() - 1] == a.last());
    }
}

/// The plain rules of a file that are in force, with their layers.
pub open spec fn file_in_layers(
    e: EntryView,
    medium: Medium,
    supported: spec_fn(ConditionView) -> bool,
) -> Seq<LayeredView> {
    if applies(e.conditions.media, e.conditions.supports, medium, supported) {
        in_layers(rules_of(e), medium, supported, layers_of(e.conditions.layer))
    } else {
        Seq::empty()
    }
}

/// The plain rules of several files that are in force, with their layers, file after file.
pub open spec fn files_in_layers(
    g: Seq<EntryView>,
    list: Seq<u32>,
    medium: Medium,
    supported: spec_fn(ConditionView) -> bool,
) -> Seq<LayeredView>
    decreases list.len(),
{
    if list.len() == 0 {
        Seq::empty()
    } else {
        files_in_layers(g, list.drop_last(), medium, supported) + file_in_layers(
            g[list.last() as int],
            medium,
            supported,
        )
    }
}

/// Two lists of files one after the other.
proof fn lemma_files_in_layers_joined(
    g: Seq<EntryView>,
    a: Seq<u32>,
    b: Seq<u32>,
    medium: Medium,
    supported: spec_fn(ConditionView) -> bool,
)
    ensures
        files_in_layers(g, a + b, medium, supported) == files_in_layers(g, a, medium, supported)
            + files_in_layers(g, b, medium, supported),
    decreases b.len(),
{
    if b.len() == 0 {
        assert(a + b =~= a);
    } else {
        assert((a + b).drop_last() =~= a + b.drop_last());
        lemma_files_in_layers_joined(g, a, b.drop_last(), medium, supported);
    }
    assert(files_in_layers(g, a + b, medium, supported) =~= files_in_layers(
        g,
        a,
        medium,
        supported,
    ) + files_in_layers(g, b, medium, supported));
}

/// A tree puts in force, file after file, the rules of each of its files whose conditions apply,
/// each rule in the layer of its file, and in those that it lies in there.
pub proof fn law_tree_in_layers(
    g: Seq<EntryView>,
    i: u32,
    depth: nat,
    medium: Medium,
    supported: spec_fn(ConditionView) -> bool,
)
    ensures
        in_layers(tree(g, i, depth), medium, supported, Seq::empty()) == files_in_layers(
            g,
            tree_files(g, i, depth),
            medium,
            supported,
        ),
    decreases depth, 0nat,
{
    let none = Seq::<Option<Seq<Seq<char>>>>::empty();
    if depth > 0 {
        let e = g[i as int];
        let h = head_end(rules_of(e), 0);
        let inner = (depth - 1) as nat;
        let head = tree_head(g, i, h, inner);
        let own = wrapped(own_rules(rules_of(e)), e.conditions, e.loc);
        lemma_tree_head_in_layers(g, i, h, inner, medium, supported);
        lemma_in_layers_joined(head, own, medium, supported, none);
        law_wrapped_rules_lie_in_layer(
            own_rules(rules_of(e)),
            e.conditions,
            e.loc,
            medium,
            supported,
            none,
        );
        assert(none + layers_of(e.conditions.layer) =~= layers_of(e.conditions.layer));
        lemma_own_rules_in_layers(
            rules_of(e),
            medium,
            supported,
            layers_of(e.conditions.layer),
        );
        let list = tree_files(g, i, depth);
        assert(list.drop_last() =~= tree_files_head(g, i, h, inner));
    } else {
        assert(in_layers(tree(g, i, depth), medium, supported, none) =~= files_in_layers(
            g,
            tree_files(g, i, depth),
            medium,
            supported,
        ));
    }
}

/// The same of the first rules of a file.
proof fn lemma_tree_head_in_layers(
    g: Seq<EntryView>,
    i: u32,
    k: nat,
    depth: nat,
    medium: Medium,
    supported: spec_fn(ConditionView) -> bool,
)
    ensures
        in_layers(tree_head(g, i, k, depth), medium, supported, Seq::empty()) == files_in_layers(
            g,
            tree_files_head(g, i, k, depth),
            medium,
            supported,
        ),
    decreases depth, k,
{
    let none = Seq::<Option<Seq<Seq<char>>>>::empty();
    if k > 0 {
        let p = (k - 1) as nat;
        let rules = rules_of(g[i as int]);
        let before = tree_head(g, i, p, depth);
        lemma_tree_head_in_layers(g, i, p, depth, medium, supported);
        match rules[p as int] {
            RuleView::Import(_) => {
                if let Some(to) = import_at(g, i, p) {
                    law_tree_in_layers(g, to, depth, medium, supported);
                    lemma_in_layers_joined(before, tree(g, to, depth), medium, supported, none);
                    lemma_files_in_layers_joined(
                        g,
                        tree_files_head(g, i, p, depth),
                        tree_files(g, to, depth),
                        medium,
                        supported,
                    );
                }
            },
            RuleView::LayerStatement { .. } => {
                let list = before.push(rules[p as int]);
                assert(list.drop_last() =~= before);
                assert(rule_in_layers(rules[p as int], medium, supported, none) =~= Seq::empty());
                assert(in_layers(list, medium, supported, none) =~= in_layers(
                    before,
                    medium,
                    supported,
                    none,
                ));
            },
            _ => {},
        }
    } else {
        assert(in_layers(tree_head(g, i, k, depth), medium, supported, none) =~= files_in_layers(
            g,
            tree_files_head(g, i, k, depth),
            medium,
            supported,
        ));
    }
}

/// The bundle of loaded files puts in force, file after file, the rules of each file of its tree
/// whose conditions apply, each rule in the layer of its file. Where the first file is imported, it
/// has to be without conditions.
pub proof fn law_bundle_in_layers(
    entries: Seq<EntryView>,
    medium: Medium,
    supported: spec_fn(ConditionView) -> bool,
)
    requires
        entries.len() > 0,
        ready(entries),
        leads_back(ordered(entries)) ==> entries[0].conditions == unconditional(),
    ensures
        ({
            let g = ordered(entries);
            in_layers(linked(entries).rules, medium, supported, Seq::empty()) == files_in_layers(
                g,
                tree_files(g, 0, g.len() + 1),
                medium,
                supported,
            )
        }),
{
    let g = ordered(entries);
    lemma_ordered(entries);
    lemma_ordered_ready(entries);
    law_bundle_is_tree(g);
    law_tree_in_layers(g, 0, g.len() + 1, medium, supported);
}

/// What a new bundler makes of a file, where no file imports itself, directly or through others,
/// and in each file the imports stand first, puts in force, file after file, the rules of each file
/// whose conditions apply, each rule in the layer of its file.
pub proof fn law_new_bundle_in_layers<P: SourceProvider, T: StyleSheetParser>(
    fs: P,
    parser: T,
    st: crate::bundle_state::StateView,
    file: PathView,
    reply: Reply,
    medium: Medium,
    supported: spec_fn(ConditionView) -> bool,
)
    requires
        st.wf(),
        st.entries.len() == 0,
        has_components(file.text, file.components),
        answers(fs, parser, st, file, entry_rule(), reply),
        bundled(st, file, reply).1 is Ok,
        countable(dependencies_of(loaded(st, file, entry_rule(), reply).0.entries)),
        acyclic(dependencies_of(loaded(st, file, entry_rule(), reply).0.entries)),
        forall|i: int|
            0 <= i < loaded(st, file, entry_rule(), reply).0.entries.len()
                ==> imports_stand_first(
                rules_of(#[trigger] loaded(st, file, entry_rule(), reply).0.entries[i]),
            ),
    ensures
        ({
            let entries = loaded(st, file, entry_rule(), reply).0.entries;
            let r = bundled(st, file, reply).1->Ok_0;
            let last = last_met(entries);
            in_layers(r.rules, medium, supported, Seq::empty()) == files_in_layers(
                last,
                tree_files(last, 0, last.len() + 1),
                medium,
                supported,
            )
        }),
{
    let entries = loaded(st, file, entry_rule(), reply).0.entries;
    let last = last_met(entries);
    law_new_bundle_without_cycles(fs, parser, st, file, reply, medium, supported);
    law_tree_in_layers(last, 0, last.len() + 1, medium, supported);
}

/// The plain rules and the `@layer` statements of a list, those in blocks among them, in their
/// order.
pub open spec fn leaves(rules: Seq<RuleView>) -> Seq<RuleView>
    decreases rules,
{
    if rules.len() == 0 {
        Seq::empty()
    } else {
        leaves(rules.drop_last()) + rule_leaves(rules.last())
    }
}

/// Those of one rule.
pub open spec fn rule_leaves(rule: RuleView) -> Seq<RuleView>
    decreases rule,
{
    match rule {
        RuleView::Media { rules, .. } => leaves(rules),
        RuleView::Supports { rules, .. } => leaves(rules),
        RuleView::LayerBlock { rules, .. } => leaves(rules),
        RuleView::Other(_) => seq![rule],
        RuleView::LayerStatement { .. } => seq![rule],
        _ => Seq::empty(),
    }
}

/// Those of several files, file after file.
pub open spec fn files_leaves(g: Seq<EntryView>, list: Seq<u32>) -> Seq<RuleView>
    decreases list.len(),
{
    if list.len() == 0 {
        Seq::empty()
    } else {
        files_leaves(g, list.drop_last()) + leaves(rules_of(g[list.last() as int]))
    }
}

/// Two lists of rules one after the other.
proof fn lemma_leaves_joined(a: Seq<RuleView>, b: Seq<RuleView>)
    ensures
        leaves(a + b) == leaves(a) + leaves(b),
    decreases b.len(),
{
    if b.len() == 0 {
        assert(a + b =~= a);
    } else {
        assert((a + b).drop_last() =~= a + b.drop_last());
        lemma_leaves_joined(a, b.drop_last());
    }
    assert(leaves(a + b) =~= leaves(a) + leaves(b));
}

/// A list of one rule.
proof fn lemma_leaves_one(rule: RuleView)
    ensures
        leaves(seq![rule]) == rule_leaves(rule),
{
    assert(seq![rule].drop_last() =~= Seq::empty());
    assert(leaves(seq![rule].drop_last()) =~= Seq::empty());
    assert(leaves(seq![rule]) =~= rule_leaves(rule));
}

/// Two lists of files one after the other.
proof fn lemma_files_leaves_joined(g: Seq<EntryView>, a: Seq<u32>, b: Seq<u32>)
    ensures
        files_leaves(g, a + b) == files_leaves(g, a) + files_leaves(g, b),
    decreases b.len(),
{
    if b.len() == 0 {
        assert(a + b =~= a);
    } else {
        assert((a + b).drop_last() =~= a + b.drop_last());
        lemma_files_leaves_joined(g, a, b.drop_last());
    }
    assert(files_leaves(g, a + b) =~= files_leaves(g, a) + files_leaves(g, b));
}

/// Blocks hold the rules that are put in them, and no others.
pub proof fn law_wrapped_rules_are_kept(rules: Seq<RuleView>, c: ConditionsView, loc: Location)
    ensures
        leaves(wrapped(rules, c, loc)) == leaves(rules),
{
    let in_media = if c.media.len() > 0 {
        seq![RuleView::Media { query: c.media, rules, loc }]
    } else {
        rules
    };
    if c.media.len() > 0 {
        lemma_leaves_one(RuleView::Media { query: c.media, rules, loc });
    }
    let in_supports = match c.supports {
        Some(condition) => seq![RuleView::Supports { condition, rules: in_media, loc }],
        None => in_media,
    };
    if let Some(condition) = c.supports {
        lemma_leaves_one(RuleView::Supports { condition, rules: in_media, loc });
    }
    if let Some(name) = c.layer {
        lemma_leaves_one(RuleView::LayerBlock { name, rules: in_supports, loc });
    }
}

/// The first rules of a file, as far as an import may stand behind them, and its own rules are its
/// rules.
proof fn lemma_head_and_own(rules: Seq<RuleView>)
    ensures
        leaves(rules) == leaves(rules.take(head_end(rules, 0) as int)) + leaves(own_rules(rules)),
{
    let h = head_end(rules, 0) as int;
    let own = own_rules(rules);
    lemma_head_end(rules, 0);
    lemma_leaves_joined(rules.take(h), rules.skip(h));
    assert(rules.take(h) + rules.skip(h) =~= rules);
    lemma_leaves_joined(own.take(h), own.skip(h));
    assert(own.take(h) + own.skip(h) =~= own);
    assert(own.skip(h) =~= rules.skip(h));
    lemma_ignored_leaves(own.take(h));
    assert(leaves(own) =~= leaves(rules.skip(h)));
}

/// Rules that are taken out are gone.
proof fn lemma_ignored_leaves(rules: Seq<RuleView>)
    requires
        forall|k: int| 0 <= k < rules.len() ==> #[trigger] rules[k] is Ignored,
    ensures
        leaves(rules) == Seq::<RuleView>::empty(),
    decreases rules.len(),
{
    if rules.len() > 0 {
        let front = rules.drop_last();
        assert forall|k: int| 0 <= k < front.len() implies #[trigger] front[k] is Ignored by {
            assert(rules[k] is Ignored);
        }
        lemma_ignored_leaves(front);
        assert(rules[rules.len() - 1] is Ignored);
        assert(rule_leaves(rules.last()) =~= Seq::empty());
        assert(leaves(rules) =~= Seq::empty());
    }
}

/// A tree holds the plain rules and the `@layer` statements of each of its files, none of them
/// lost, and none of them twice.
pub proof fn law_tree_keeps_rules(g: Seq<EntryView>, i: u32, depth: nat)
    ensures
        leaves(tree(g, i, depth)).to_multiset() == files_leaves(
            g,
            tree_files(g, i, depth),
        ).to_multiset(),
    decreases depth, 0nat,
{
    broadcast use vstd::seq_lib::group_to_multiset_ensures;

    if depth > 0 {
        let e = g[i as int];
        let rules = rules_of(e);
        let h = head_end(rules, 0);
        let inner = (depth - 1) as nat;
        let head = tree_head(g, i, h, inner);
        let own = wrapped(own_rules(rules), e.conditions, e.loc);
        let list = tree_files(g, i, depth);
        let before = tree_files_head(g, i, h, inner);
        lemma_head_end(rules, 0);
        lemma_tree_head_keeps_rules(g, i, h, inner);
        lemma_leaves_joined(head, own);
        law_wrapped_rules_are_kept(own_rules(rules), e.conditions, e.loc);
        lemma_head_and_own(rules);
        assert(list.drop_last() =~= before);
        vstd::seq_lib::lemma_multiset_commutative(leaves(head), leaves(own));
        vstd::seq_lib::lemma_multiset_commutative(files_leaves(g, before), leaves(rules));
        vstd::seq_lib::lemma_multiset_commutative(
            leaves(rules.take(h as int)),
            leaves(own_rules(rules)),
        );
        assert(leaves(tree(g, i, depth)).to_multiset() =~= files_leaves(g, list).to_multiset());
    } else {
        assert(leaves(tree(g, i, depth)) =~= files_leaves(g, tree_files(g, i, depth)));
    }
}

/// The same of the first rules of a file.
proof fn lemma_tree_head_keeps_rules(g: Seq<EntryView>, i: u32, k: nat, depth: nat)
    requires
        k <= head_end(rules_of(g[i as int]), 0),
    ensures
        leaves(tree_head(g, i, k, depth)).to_multiset() == files_leaves(
            g,
            tree_files_head(g, i, k, depth),
        ).to_multiset().add(leaves(rules_of(g[i as int]).take(k as int)).to_multiset()),
    decreases depth, k,
{
    broadcast use vstd::seq_lib::group_to_multiset_ensures;

    let rules = rules_of(g[i as int]);
    lemma_head_end(rules, 0);
    if k > 0 {
        let p = (k - 1) as nat;
        let before = tree_head(g, i, p, depth);
        let files = tree_files_head(g, i, p, depth);
        let now = tree_head(g, i, k, depth);
        lemma_tree_head_keeps_rules(g, i, p, depth);
        assert(rules.take(k as int).drop_last() =~= rules.take(p as int));
        assert(rules.take(k as int).last() == rules[p as int]);
        let first = leaves(rules.take(p as int));
        match rules[p as int] {
            RuleView::Import(_) => {
                assert(rule_leaves(rules[p as int]) =~= Seq::empty());
                assert(leaves(rules.take(k as int)) =~= first);
                if let Some(to) = import_at(g, i, p) {
                    law_tree_keeps_rules(g, to, depth);
                    let more = tree(g, to, depth);
                    let more_files = tree_files(g, to, depth);
                    lemma_leaves_joined(before, more);
                    lemma_files_leaves_joined(g, files, more_files);
                    vstd::seq_lib::lemma_multiset_commutative(leaves(before), leaves(more));
                    vstd::seq_lib::lemma_multiset_commutative(
                        files_leaves(g, files),
                        files_leaves(g, more_files),
                    );
                    assert(leaves(now).to_multiset() =~= files_leaves(
                        g,
                        files + more_files,
                    ).to_multiset().add(first.to_multiset()));
                }
            },
            RuleView::LayerStatement { .. } => {
                assert(rule_leaves(rules[p as int]) =~= seq![rules[p as int]]);
                assert(now.drop_last() =~= before);
                assert(leaves(now) == leaves(before) + seq![rules[p as int]]);
                assert(leaves(rules.take(k as int)) == first + seq![rules[p as int]]);
                vstd::seq_lib::lemma_multiset_commutative(leaves(before), seq![rules[p as int]]);
                vstd::seq_lib::lemma_multiset_commutative(first, seq![rules[p as int]]);
                assert(leaves(now).to_multiset() =~= files_leaves(g, files).to_multiset().add(
                    leaves(rules.take(k as int)).to_multiset(),
                ));
            },
            _ => {
                assert(is_head(rules[p as int]));
                assert(rule_leaves(rules[p as int]) =~= Seq::empty());
                assert(leaves(rules.take(k as int)) =~= first);
            },
        }
    } else {
        assert(rules.take(0) =~= Seq::empty());
        assert(leaves(tree_head(g, i, k, depth)).to_multiset() =~= files_leaves(
            g,
            tree_files_head(g, i, k, depth),
        ).to_multiset().add(leaves(rules.take(0)).to_multiset()));
    }
}

/// The bundle of loaded files holds the plain rules and the `@layer` statements of each file of its
/// tree, none of them lost, and none of them twice. Where the first file is imported, it has to be
/// without conditions.
pub proof fn law_bundle_keeps_rules(entries: Seq<EntryView>)
    requires
        entries.len() > 0,
        ready(entries),
        leads_back(ordered(entries)) ==> entries[0].conditions == unconditional(),
    ensures
        ({
            let g = ordered(entries);
            leaves(linked(entries).rules).to_multiset() == files_leaves(
                g,
                tree_files(g, 0, g.len() + 1),
            ).to_multiset()
        }),
{
    let g = ordered(entries);
    lemma_ordered(entries);
    lemma_ordered_ready(entries);
    law_bundle_is_tree(g);
    law_tree_keeps_rules(g, 0, g.len() + 1);
}

} // verus!
