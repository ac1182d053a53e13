//! Putting the files of a bundle one after the other.
use crate::bundle_state::entry_views;
use crate::conditions::ConditionsView;
use crate::entry::{BundleStyleSheet, EntryView, StyleSheetView};
use crate::load::imports_of;
use crate::location::Location;
use crate::media::MediaList;
use crate::rules::{
    lemma_rule_views, rule_views, CssRule, CssRuleList, LayerBlockRule, MediaRule, RuleView,
    SupportsRule,
};
use vstd::prelude::*;

verus! {

/// Whether a rule may stand before an `@import` rule.
pub open spec fn is_head(rule: RuleView) -> bool {
    match rule {
        RuleView::Import(_) => true,
        RuleView::LayerStatement { .. } => true,
        RuleView::Ignored => true,
        _ => false,
    }
}

/// The place of the first rule, from place `k` on, that no `@import` rule may stand behind.
pub open spec fn head_end(rules: Seq<RuleView>, k: nat) -> nat
    decreases rules.len() - k,
{
    if k < rules.len() && is_head(rules[k as int]) {
        head_end(rules, k + 1)
    } else {
        k
    }
}

/// The rules without those that come before the first rule that no `@import` rule may stand
/// behind.
pub open spec fn own_rules(rules: Seq<RuleView>) -> Seq<RuleView> {
    Seq::new(
        rules.len(),
        |k: int|
            if k < head_end(rules, 0) {
                RuleView::Ignored
            } else {
                rules[k]
            },
    )
}

/// The rules in the blocks that say under which conditions they apply.
pub open spec fn wrapped(rules: Seq<RuleView>, c: ConditionsView, loc: Location) -> Seq<RuleView> {
    let in_media = if c.media.len() > 0 {
        seq![RuleView::Media { query: c.media, rules, loc }]
    } else {
        rules
    };
    let in_supports = match c.supports {
        Some(condition) => seq![RuleView::Supports { condition, rules: in_media, loc }],
        None => in_media,
    };
    match c.layer {
        Some(name) => seq![RuleView::LayerBlock { name, rules: in_supports, loc }],
        None => in_supports,
    }
}

/// How rules are put in blocks: where there is a layer, in exactly one block of that layer, around
/// what the other conditions make of the rules; then, where there is an `@supports` condition, in
/// one block of that condition, around what the media queries make of them; and then, where there
/// are media queries, in one block of these. Without conditions they stay as they are.
pub proof fn law_wrapped_in_blocks(rules: Seq<RuleView>, c: ConditionsView, loc: Location)
    ensures
        c.layer matches Some(name) ==> {
            let blocks = wrapped(rules, c, loc);
            &&& blocks.len() == 1
            &&& blocks[0] matches RuleView::LayerBlock { name: n, rules: inner, loc: l } && n == name
                && l == loc && inner == wrapped(rules, ConditionsView { layer: None, ..c }, loc)
        },
        c.layer is None && c.supports is Some ==> {
            let blocks = wrapped(rules, c, loc);
            &&& blocks.len() == 1
            &&& blocks[0] matches RuleView::Supports { condition, rules: inner, loc: l } && Some(
                condition,
            ) == c.supports && l == loc && inner == wrapped(
                rules,
                ConditionsView { supports: None, ..c },
                loc,
            )
        },
        c.layer is None && c.supports is None && c.media.len() > 0 ==> {
            let blocks = wrapped(rules, c, loc);
            &&& blocks.len() == 1
            &&& blocks[0] matches RuleView::Media { query, rules: inner, loc: l } && query == c.media
                && l == loc && inner == rules
        },
        c.layer is None && c.supports is None && c.media.len() == 0 ==> wrapped(rules, c, loc)
            == rules,
{
}

/// The own rules of a file are its rules, except for those from the first one on, as far as they
/// are all imports, `@layer` statements or taken out, which are taken out.
pub proof fn law_own_rules(rules: Seq<RuleView>, k: int)
    requires
        0 <= k < rules.len(),
    ensures
        own_rules(rules).len() == rules.len(),
        (forall|j: int|
            0 <= j <= k ==> #[trigger] rules[j] is Import || rules[j] is LayerStatement
                || rules[j] is Ignored) ==> own_rules(rules)[k] is Ignored,
        !(forall|j: int|
            0 <= j <= k ==> #[trigger] rules[j] is Import || rules[j] is LayerStatement
                || rules[j] is Ignored) ==> own_rules(rules)[k] == rules[k],
{
    let h = head_end(rules, 0);
    lemma_head_end(rules, 0);
    if k < h {
        assert forall|j: int| 0 <= j <= k implies #[trigger] rules[j] is Import
            || rules[j] is LayerStatement || rules[j] is Ignored by {
            assert(is_head(rules[j]));
        }
    } else {
        assert(!is_head(rules[h as int]));
        assert(!(rules[h as int] is Import || rules[h as int] is LayerStatement
            || rules[h as int] is Ignored));
    }
}

/// No conditions.
pub open spec fn unconditional() -> ConditionsView {
    ConditionsView { layer: None, supports: None, media: Seq::empty() }
}

/// The rules of a file.
pub open spec fn rules_of(e: EntryView) -> Seq<RuleView> {
    match e.stylesheet {
        Some(sheet) => sheet.rules,
        None => Seq::empty(),
    }
}

/// A file whose rules have been taken out.
pub open spec fn emptied(e: EntryView) -> EntryView {
    match e.stylesheet {
        Some(sheet) => EntryView {
            stylesheet: Some(StyleSheetView { rules: Seq::empty(), ..sheet }),
            ..e
        },
        None => e,
    }
}

/// The rules of file `i` and of the files that it imports by an import that counts, these first,
/// and the files as they are left. A file's rules are put in once, and so are its conditions. The
/// files are followed no deeper than `depth`.
pub open spec fn inlined(g: Seq<EntryView>, i: u32, depth: nat) -> (Seq<EntryView>, Seq<RuleView>)
    decreases depth, 0nat,
{
    if depth == 0 {
        (g, Seq::empty())
    } else {
        let rules = rules_of(g[i as int]);
        let (after, before) = inlined_head(
            g.update(i as int, emptied(g[i as int])),
            i,
            rules,
            head_end(rules, 0),
            (depth - 1) as nat,
        );
        let e = after[i as int];
        (
            after.update(i as int, EntryView { conditions: unconditional(), ..e }),
            before + wrapped(own_rules(rules), e.conditions, e.loc),
        )
    }
}

/// What the first `k` rules of file `i`, which are `rules`, put before its own.
pub open spec fn inlined_head(
    g: Seq<EntryView>,
    i: u32,
    rules: Seq<RuleView>,
    k: nat,
    depth: nat,
) -> (Seq<EntryView>, Seq<RuleView>)
    decreases depth, k,
{
    if k == 0 {
        (g, Seq::empty())
    } else {
        let (before, out) = inlined_head(g, i, rules, (k - 1) as nat, depth);
        match rules[k - 1] {
            RuleView::Import(_) => {
                let place = imports_of(rules.take(k - 1)).len();
                let to = before[i as int].dependencies[place as int];
                let e = before[to as int];
                if e.parent_source_index == i && e.parent_dep_index == place {
                    let (after, more) = inlined(before, to, depth);
                    (after, out + more)
                } else {
                    (before, out)
                }
            },
            RuleView::LayerStatement { .. } => (before, out.push(rules[k - 1])),
            _ => (before, out),
        }
    }
}

/// The number of files that have rules.
pub open spec fn full(g: Seq<EntryView>) -> nat
    decreases g.len(),
{
    if g.len() == 0 {
        0
    } else {
        full(g.drop_last()) + (if rules_of(g.last()).len() > 0 {
            1nat
        } else {
            0nat
        })
    }
}

/// The rules of the bundle, which starts with the first file.
pub open spec fn bundled_rules(entries: Seq<EntryView>) -> Seq<RuleView> {
    inlined(entries, 0, entries.len() + 1).1
}

/// Whether each file is there, and each of its imports leads to a file.
pub open spec fn ready(g: Seq<EntryView>) -> bool {
    &&& g.len() <= u32::MAX + 1
    &&& forall|i: int|
        0 <= i < g.len() ==> (#[trigger] g[i]).stylesheet is Some && imports_of(
            rules_of(g[i]),
        ).len() <= g[i].dependencies.len()
    &&& forall|i: int, d: int|
        0 <= i < g.len() && 0 <= d < g[i].dependencies.len() ==> #[trigger] g[i].dependencies[d]
            < g.len()
}

/// Whether `after` is `before` with the rules or the conditions taken out of some files.
pub open spec fn uses(before: Seq<EntryView>, after: Seq<EntryView>) -> bool {
    &&& before.len() == after.len()
    &&& full(after) <= full(before)
    &&& forall|i: int|
        0 <= i < before.len() ==> {
            let e = #[trigger] after[i];
            let b = before[i];
            &&& e.stylesheet == b.stylesheet || e.stylesheet == emptied(b).stylesheet
            &&& e == (EntryView { stylesheet: e.stylesheet, conditions: e.conditions, ..b })
        }
}

/// Replacing a file changes the number of those that have rules by that file alone.
proof fn lemma_full(g: Seq<EntryView>, i: int, e: EntryView)
    requires
        0 <= i < g.len(),
    ensures
        full(g.update(i, e)) == full(g) + (if rules_of(e).len() > 0 {
            1int
        } else {
            0
        }) - (if rules_of(g[i]).len() > 0 {
            1int
        } else {
            0
        }),
    decreases g.len(),
{
    let u = g.update(i, e);
    if i == g.len() - 1 {
        assert(u.drop_last() =~= g.drop_last());
    } else {
        assert(u.drop_last() =~= g.drop_last().update(i, e));
        lemma_full(g.drop_last(), i, e);
    }
}

/// There are not more files that have rules than there are files.
proof fn lemma_full_bound(g: Seq<EntryView>)
    ensures
        full(g) <= g.len(),
    decreases g.len(),
{
    if g.len() > 0 {
        lemma_full_bound(g.drop_last());
    }
}

/// A file that has rules counts.
proof fn lemma_full_positive(g: Seq<EntryView>, i: int)
    requires
        0 <= i < g.len(),
        rules_of(g[i]).len() > 0,
    ensures
        full(g) > 0,
    decreases g.len(),
{
    if i < g.len() - 1 {
        lemma_full_positive(g.drop_last(), i);
    }
}

/// The rules before the end of the head are those that may stand before an import.
pub proof fn lemma_head_end(rules: Seq<RuleView>, k: nat)
    requires
        k <= rules.len(),
    ensures
        k <= head_end(rules, k) <= rules.len(),
        forall|j: int| k <= j < head_end(rules, k) ==> is_head(#[trigger] rules[j]),
        head_end(rules, k) < rules.len() ==> !is_head(rules[head_end(rules, k) as int]),
    decreases rules.len() - k,
{
    if k < rules.len() && is_head(rules[k as int]) {
        lemma_head_end(rules, k + 1);
    }
}

/// There are not fewer imports among more rules.
pub proof fn lemma_more_imports(rules: Seq<RuleView>, k: int)
    requires
        0 <= k <= rules.len(),
    ensures
        imports_of(rules.take(k)).len() <= imports_of(rules).len(),
        k < rules.len() && rules[k] is Import ==> imports_of(rules.take(k)).len() < imports_of(
            rules,
        ).len(),
    decreases rules.len(),
{
    if k == rules.len() {
        assert(rules.take(k) =~= rules);
    } else {
        assert(rules.drop_last().take(k) =~= rules.take(k));
        lemma_more_imports(rules.drop_last(), k);
    }
}

/// Putting in a file takes rules and conditions out, and nothing else.
pub proof fn lemma_inlined(g: Seq<EntryView>, i: u32, depth: nat)
    requires
        ready(g),
        i < g.len(),
    ensures
        ready(inlined(g, i, depth).0),
        uses(g, inlined(g, i, depth).0),
    decreases depth, 0nat,
{
    if depth > 0 {
        let rules = rules_of(g[i as int]);
        let h = head_end(rules, 0);
        let taken = g.update(i as int, emptied(g[i as int]));
        lemma_head_end(rules, 0);
        lemma_full(g, i as int, emptied(g[i as int]));
        lemma_inlined_head(taken, i, rules, h, (depth - 1) as nat);
        let after = inlined_head(taken, i, rules, h, (depth - 1) as nat).0;
        let e = EntryView { conditions: unconditional(), ..after[i as int] };
        lemma_full(after, i as int, e);
        assert(uses(g, taken));
        let last = after.update(i as int, e);
        assert(inlined(g, i, depth).0 == last);
        assert forall|j: int| 0 <= j < g.len() implies {
            let e = #[trigger] last[j];
            let b = g[j];
            &&& e.stylesheet == b.stylesheet || e.stylesheet == emptied(b).stylesheet
            &&& e == (EntryView { stylesheet: e.stylesheet, conditions: e.conditions, ..b })
        } by {
            assert(after[j].stylesheet == taken[j].stylesheet || after[j].stylesheet == emptied(
                taken[j],
            ).stylesheet);
        }
        assert(uses(g, last));
    }
}

/// The same of the first rules of a file.
pub proof fn lemma_inlined_head(g: Seq<EntryView>, i: u32, rules: Seq<RuleView>, k: nat, depth: nat)
    requires
        ready(g),
        i < g.len(),
        k <= rules.len(),
        imports_of(rules).len() <= g[i as int].dependencies.len(),
    ensures
        ready(inlined_head(g, i, rules, k, depth).0),
        uses(g, inlined_head(g, i, rules, k, depth).0),
    decreases depth, k,
{
    if k > 0 {
        lemma_inlined_head(g, i, rules, (k - 1) as nat, depth);
        let before = inlined_head(g, i, rules, (k - 1) as nat, depth).0;
        if let RuleView::Import(_) = rules[k - 1] {
            let place = imports_of(rules.take(k - 1)).len();
            lemma_more_imports(rules, k - 1);
            assert(before[i as int].dependencies == g[i as int].dependencies);
            let to = before[i as int].dependencies[place as int];
            assert(to < g.len());
            let e = before[to as int];
            if e.parent_source_index == i && e.parent_dep_index == place {
                lemma_inlined(before, to, depth);
                let after = inlined(before, to, depth).0;
                assert forall|j: int| 0 <= j < g.len() implies {
                    let e = #[trigger] after[j];
                    let b = g[j];
                    &&& e.stylesheet == b.stylesheet || e.stylesheet == emptied(b).stylesheet
                    &&& e == (EntryView {
                        stylesheet: e.stylesheet,
                        conditions: e.conditions,
                        ..b
                    })
                } by {
                    assert(before[j].stylesheet == g[j].stylesheet || before[j].stylesheet
                        == emptied(g[j]).stylesheet);
                }
            }
        }
    }
}

/// Where a file is put in, its own rules come last, in the blocks of its conditions, behind what
/// the rules before them that imports may stand behind bring.
pub proof fn law_own_rules_come_last(g: Seq<EntryView>, i: u32, depth: nat)
    requires
        ready(g),
        i < g.len(),
        depth > 0,
    ensures
        ({
            let rules = rules_of(g[i as int]);
            let taken = g.update(i as int, emptied(g[i as int]));
            let (left, head) = inlined_head(
                taken,
                i,
                rules,
                head_end(rules, 0),
                (depth - 1) as nat,
            );
            let out = inlined(g, i, depth).1;
            &&& head.is_prefix_of(out)
            &&& out.skip(head.len() as int) == wrapped(
                own_rules(rules),
                left[i as int].conditions,
                g[i as int].loc,
            )
        }),
{
    let rules = rules_of(g[i as int]);
    let taken = g.update(i as int, emptied(g[i as int]));
    let h = head_end(rules, 0);
    lemma_head_end(rules, 0);
    lemma_inlined_head(taken, i, rules, h, (depth - 1) as nat);
    let (left, head) = inlined_head(taken, i, rules, h, (depth - 1) as nat);
    let own = wrapped(own_rules(rules), left[i as int].conditions, left[i as int].loc);
    assert(left[i as int].loc == g[i as int].loc);
    assert((head + own).skip(head.len() as int) =~= own);
    assert((head + own).take(head.len() as int) =~= head);
}

/// What each of the rules before the own ones of a file brings stands behind what those before it
/// bring: an `@layer` statement itself, and an import the rules of its file, where it is the one
/// that counts.
pub proof fn law_head_rules_in_turn(
    g: Seq<EntryView>,
    i: u32,
    rules: Seq<RuleView>,
    k: nat,
    depth: nat,
)
    requires
        k < rules.len(),
    ensures
        ({
            let (before, out) = inlined_head(g, i, rules, k, depth);
            let (after, more) = inlined_head(g, i, rules, k + 1, depth);
            &&& out.is_prefix_of(more)
            &&& rules[k as int] is LayerStatement ==> after == before && more.skip(
                out.len() as int,
            ) == seq![rules[k as int]]
            &&& rules[k as int] is Import ==> {
                let place = imports_of(rules.take(k as int)).len();
                let to = before[i as int].dependencies[place as int];
                let e = before[to as int];
                if e.parent_source_index == i && e.parent_dep_index == place {
                    after == inlined(before, to, depth).0 && more.skip(out.len() as int)
                        == inlined(before, to, depth).1
                } else {
                    after == before && more == out
                }
            }
            &&& !(rules[k as int] is LayerStatement || rules[k as int] is Import) ==> after
                == before && more == out
        }),
{
    let (before, out) = inlined_head(g, i, rules, k, depth);
    let (after, more) = inlined_head(g, i, rules, k + 1, depth);
    match rules[k as int] {
        RuleView::Import(_) => {
            let place = imports_of(rules.take(k as int)).len();
            let to = before[i as int].dependencies[place as int];
            let brought = inlined(before, to, depth).1;
            assert((out + brought).skip(out.len() as int) =~= brought);
            assert((out + brought).take(out.len() as int) =~= out);
            assert(out.take(out.len() as int) =~= out);
        },
        RuleView::LayerStatement { .. } => {
            assert(more.skip(out.len() as int) =~= seq![rules[k as int]]);
            assert(more.take(out.len() as int) =~= out);
        },
        _ => {
            assert(out.take(out.len() as int) =~= out);
        },
    }
}

/// A file is put in once: when it has been put in, it has no rules and no conditions left, and to
/// put it in again adds nothing.
pub proof fn law_put_in_once(g: Seq<EntryView>, i: u32, depth: nat, again: nat)
    requires
        ready(g),
        i < g.len(),
        depth > 0,
    ensures
        ({
            let after = inlined(g, i, depth).0;
            &&& rules_of(after[i as int]) == Seq::<RuleView>::empty()
            &&& after[i as int].conditions == unconditional()
            &&& inlined(after, i, again).1 == Seq::<RuleView>::empty()
        }),
{
    let rules = rules_of(g[i as int]);
    let h = head_end(rules, 0);
    let taken = g.update(i as int, emptied(g[i as int]));
    lemma_head_end(rules, 0);
    lemma_inlined_head(taken, i, rules, h, (depth - 1) as nat);
    let head = inlined_head(taken, i, rules, h, (depth - 1) as nat).0;
    assert(head[i as int].stylesheet == taken[i as int].stylesheet || head[i as int].stylesheet
        == emptied(taken[i as int]).stylesheet);
    let after = inlined(g, i, depth).0;
    assert(rules_of(after[i as int]) =~= Seq::empty());
    if again > 0 {
        let none = Seq::<RuleView>::empty();
        assert(head_end(none, 0) == 0);
        assert(own_rules(none) =~= none);
        assert(inlined(after, i, again).1 =~= none);
    }
}

/// Two lists of rules one after the other.
proof fn lemma_rules_joined(a: Seq<CssRule>, b: Seq<CssRule>)
    ensures
        rule_views(a + b) == rule_views(a) + rule_views(b),
{
    lemma_rule_views(a);
    lemma_rule_views(b);
    lemma_rule_views(a + b);
    assert(rule_views(a + b) =~= rule_views(a) + rule_views(b));
}

/// A list of one rule.
fn one_rule(rule: CssRule) -> (r: Vec<CssRule>)
    ensures
        rule_views(r@) == seq![rule@],
{
    let mut r: Vec<CssRule> = Vec::new();
    r.push(rule);
    proof {
        lemma_rule_views(r@);
        assert(rule_views(r@) =~= seq![rule@]);
    }
    r
}

impl BundleStyleSheet {
    /// Takes the rules out.
    fn take_rules(&mut self) -> (r: Vec<CssRule>)
        ensures
            rule_views(r@) == rules_of(old(self)@),
            final(self)@ == emptied(old(self)@),
    {
        let mut rules: Vec<CssRule> = Vec::new();
        if let Some(sheet) = &mut self.stylesheet {
            std::mem::swap(&mut rules, &mut sheet.rules.0);
        }
        assert(self@ =~= emptied(old(self)@));
        rules
    }

    /// Puts the rules in the blocks that say under which conditions they apply, and takes the
    /// conditions out.
    fn wrap(&mut self, rules: Vec<CssRule>) -> (r: Vec<CssRule>)
        ensures
            rule_views(r@) == wrapped(rule_views(rules@), old(self)@.conditions, old(self)@.loc),
            final(self)@ == (EntryView { conditions: unconditional(), ..old(self)@ }),
    {
        let mut rules: Vec<CssRule> = rules;
        if !self.media.is_empty() {
            let mut query: MediaList = MediaList::new();
            std::mem::swap(&mut query, &mut self.media);
            rules = one_rule(
                CssRule::Media(MediaRule { query, rules: CssRuleList(rules), loc: self.loc }),
            );
        }
        if let Some(condition) = self.supports.take() {
            rules = one_rule(
                CssRule::Supports(
                    SupportsRule { condition, rules: CssRuleList(rules), loc: self.loc },
                ),
            );
        }
        if let Some(name) = self.layer.take() {
            rules = one_rule(
                CssRule::LayerBlock(
                    LayerBlockRule { name, rules: CssRuleList(rules), loc: self.loc },
                ),
            );
        }
        assert(self@ =~= (EntryView { conditions: unconditional(), ..old(self)@ }));
        rules
    }
}

/// Puts in the rules of file `source_index`, behind those of the files that it imports by an import
/// that counts.
fn process(
    stylesheets: &mut Vec<BundleStyleSheet>,
    source_index: u32,
    dest: &mut Vec<CssRule>,
    Ghost(depth): Ghost<nat>,
)
    requires
        ready(entry_views(old(stylesheets)@)),
        source_index < old(stylesheets).len(),
        depth > full(entry_views(old(stylesheets)@)),
    ensures
        ({
            let (after, out) = inlined(entry_views(old(stylesheets)@), source_index, depth);
            &&& entry_views(final(stylesheets)@) == after
            &&& rule_views(final(dest)@) == rule_views(old(dest)@) + out
        }),
    decreases depth,
{
    let ghost g = entry_views(stylesheets@);
    let ghost start = rule_views(dest@);
    let ghost i = source_index as int;
    let mut rules: Vec<CssRule> = stylesheets[source_index as usize].take_rules();
    let ghost before = rules@;
    let ghost views = rule_views(before);
    let ghost h = head_end(views, 0);
    let ghost taken = g.update(i, emptied(g[i]));
    let ghost inner = (depth - 1) as nat;
    proof {
        assert(entry_views(stylesheets@) =~= taken);
        assert(ready(taken));
        lemma_full(g, i, emptied(g[i]));
        lemma_rule_views(before);
        lemma_head_end(views, 0);
        assert(views.take(0) =~= Seq::empty());
        assert(start + Seq::<RuleView>::empty() =~= start);
    }
    let ghost mut out: Seq<RuleView> = Seq::empty();
    let mut dep_index: usize = 0;
    let mut k: usize = 0;
    let mut in_head: bool = true;
    while in_head && k < rules.len()
        invariant
            i == source_index as int,
            0 <= i < taken.len(),
            taken.len() == stylesheets.len(),
            ready(taken),
            views.len() == before.len(),
            rules.len() == before.len(),
            views == rules_of(g[i]),
            imports_of(views).len() <= taken[i].dependencies.len(),
            forall|j: int| 0 <= j < before.len() ==> #[trigger] views[j] == before[j]@,
            inner < depth,
            views.len() > 0 ==> inner > full(taken),
            k <= rules.len(),
            dep_index == imports_of(views.take(k as int)).len(),
            h == head_end(views, k as nat),
            !in_head ==> h == k && (k < views.len() ==> !is_head(views[k as int])),
            forall|j: int| 0 <= j < k ==> (#[trigger] rules@[j])@ == RuleView::Ignored,
            forall|j: int| k <= j < rules.len() ==> #[trigger] rules@[j] == before[j],
            (entry_views(stylesheets@), out) == inlined_head(
                taken,
                source_index,
                views,
                k as nat,
                inner,
            ),
            rule_views(dest@) == start + out,
        decreases rules.len() - k, in_head as int,
    {
        proof {
            lemma_inlined_head(taken, source_index, views, k as nat, inner);
            lemma_more_imports(views, k as int);
            assert(views.take(k + 1).drop_last() =~= views.take(k as int));
            assert(views.take(k + 1).last() == views[k as int]);
            assert(views[k as int] == rules@[k as int]@);
            assert(entry_views(stylesheets@)[i].dependencies == taken[i].dependencies);
        }
        let ghost current = entry_views(stylesheets@);
        let mut passed: bool = true;
        match &rules[k] {
            CssRule::Import(_) => {
                let count: usize = stylesheets[source_index as usize].dependencies.len();
                let dep_source_index: u32 = stylesheets[source_index as usize].dependencies[dep_index];
                assert(dep_source_index == current[i].dependencies[dep_index as int]);
                assert(dep_index < count);
                let resolved = &stylesheets[dep_source_index as usize];
                assert(current[dep_source_index as int] == resolved@);
                if resolved.parent_source_index == source_index && resolved.parent_dep_index
                    == dep_index {
                    process(stylesheets, dep_source_index, dest, Ghost(inner));
                    proof {
                        lemma_inlined(current, dep_source_index, inner);
                        assert(entry_views(stylesheets@).len() == stylesheets.len());
                        let more = inlined(current, dep_source_index, inner).1;
                        assert(start + out + more =~= start + (out + more));
                        out = out + more;
                    }
                }
                dep_index = dep_index + 1;
                rules.set(k, CssRule::Ignored);
            },
            CssRule::LayerStatement(_) => {
                let mut rule = CssRule::Ignored;
                std::mem::swap(&mut rule, &mut rules[k]);
                proof {
                    lemma_rule_views(dest@);
                    lemma_rule_views(dest@.push(rule));
                    assert(rule_views(dest@.push(rule)) =~= rule_views(dest@).push(rule@));
                    assert((start + out).push(rule@) =~= start + out.push(rule@));
                    out = out.push(rule@);
                }
                dest.push(rule);
            },
            CssRule::Ignored => {},
            _ => {
                passed = false;
            },
        }
        if passed {
            k = k + 1;
        } else {
            in_head = false;
        }
    }
    proof {
        lemma_inlined_head(taken, source_index, views, k as nat, inner);
        assert(h == k);
        lemma_rule_views(rules@);
        assert(rule_views(rules@) =~= own_rules(views));
    }
    let ghost current = entry_views(stylesheets@);
    let mut own: Vec<CssRule> = stylesheets[source_index as usize].wrap(rules);
    proof {
        assert(entry_views(stylesheets@) =~= current.update(
            i,
            EntryView { conditions: unconditional(), ..current[i] },
        ));
        lemma_rules_joined(dest@, own@);
        assert(start + out + rule_views(own@) =~= start + (out + rule_views(own@)));
    }
    dest.append(&mut own);
}

/// Puts the rules of all files of the bundle into one list. The rules and the conditions are taken
/// out of the files.
pub fn inline(stylesheets: &mut Vec<BundleStyleSheet>, dest: &mut Vec<CssRule>)
    requires
        ready(entry_views(old(stylesheets)@)),
        old(stylesheets).len() > 0,
    ensures
        rule_views(final(dest)@) == rule_views(old(dest)@) + bundled_rules(
            entry_views(old(stylesheets)@),
        ),
        entry_views(final(stylesheets)@) == inlined(
            entry_views(old(stylesheets)@),
            0,
            (old(stylesheets).len() + 1) as nat,
        ).0,
{
    let ghost depth = (stylesheets.len() + 1) as nat;
    proof {
        lemma_full_bound(entry_views(stylesheets@));
    }
    process(stylesheets, 0, dest, Ghost(depth));
}

} // verus!
