//! What the text that is printed of rules is.
use crate::location::Location;
use crate::media::{list_css, QueryView};
use crate::printer::{spaces, PrinterView};
use crate::rules::{ImportView, RuleView};
use crate::rules_css::{
    between, close_block, css_string, lines_css, open_block, rule_css, rules_css, without_block,
};
use crate::supports::{condition_css, ConditionView};
use crate::text::join;
use vstd::prelude::*;
use vstd::utf8::encode_utf8;

verus! {

/// What stands before a brace.
pub open spec fn gap(minify: bool) -> Seq<char> {
    if minify {
        Seq::empty()
    } else {
        " "@
    }
}

/// The end of a line and the indentation of the next one.
pub open spec fn line(minify: bool, indent: usize) -> Seq<char> {
    if minify {
        Seq::empty()
    } else {
        "\n"@ + spaces(indent as nat)
    }
}

/// Whether a printer has gone on: nothing that was printed has changed.
pub open spec fn grows(p: PrinterView, q: PrinterView) -> bool {
    &&& p.text.is_prefix_of(q.text)
    &&& p.mappings.is_prefix_of(q.mappings)
    &&& q.minify == p.minify
}

/// What the parts of the printer do: a space and a line are left out where insignificant whitespace
/// is, lines are indented, indentation is taken back, and a mapping ties the end of the text to a
/// place.
pub proof fn law_printer(p: PrinterView, s: Seq<char>, loc: Location)
    ensures
        p.write(s) == (PrinterView { text: p.text + s, ..p }),
        p.whitespace() == p.write(gap(p.minify)),
        p.newline() == p.write(line(p.minify, p.indent)),
        spaces(p.indent as nat).len() == p.indent,
        forall|k: int| 0 <= k < p.indent ==> #[trigger] spaces(p.indent as nat)[k] == ' ',
        p.indent <= usize::MAX - 2 ==> p.indent() == (PrinterView {
            indent: (p.indent + 2) as usize,
            ..p
        }) && p.indent().dedent() == p,
        p.add_mapping(loc).text == p.text,
        p.add_mapping(loc).mappings.len() == p.mappings.len() + 1,
        p.mappings.is_prefix_of(p.add_mapping(loc).mappings),
        p.add_mapping(loc).mappings.last().loc == loc,
        encode_utf8(p.text).len() <= usize::MAX ==> p.add_mapping(loc).mappings.last().offset
            == encode_utf8(p.text).len(),
{
    assert(p.write(Seq::empty()) =~= p);
    assert(p.write("\n"@).write(spaces(p.indent as nat)) =~= p.write(
        "\n"@ + spaces(p.indent as nat),
    ));
    assert(p.add_mapping(loc).mappings.take(p.mappings.len() as int) =~= p.mappings);
}

/// A printer goes on by steps.
proof fn lemma_grows_on(a: PrinterView, b: PrinterView, c: PrinterView)
    requires
        grows(a, b),
        grows(b, c),
    ensures
        grows(a, c),
{
    assert(c.text.take(a.text.len() as int) =~= b.text.take(a.text.len() as int));
    assert(c.mappings.take(a.mappings.len() as int) =~= b.mappings.take(a.mappings.len() as int));
}

/// Each step goes on.
proof fn lemma_steps(p: PrinterView, s: Seq<char>, loc: Location)
    ensures
        grows(p, p),
        grows(p, p.write(s)),
        grows(p, p.whitespace()),
        grows(p, p.newline()),
        grows(p, p.indent()),
        grows(p, p.dedent()),
        grows(p, p.add_mapping(loc)),
{
    law_printer(p, s, loc);
    assert(p.text.take(p.text.len() as int) =~= p.text);
    assert(p.mappings.take(p.mappings.len() as int) =~= p.mappings);
    assert((p.text + s).take(p.text.len() as int) =~= p.text);
    assert((p.text + gap(p.minify)).take(p.text.len() as int) =~= p.text);
    assert((p.text + line(p.minify, p.indent)).take(p.text.len() as int) =~= p.text);
}

/// Lines go on.
proof fn lemma_lines_grow(lines: Seq<Seq<char>>, p: PrinterView)
    ensures
        grows(p, lines_css(lines, p)),
    decreases lines.len(),
{
    let loc = Location { source_index: 0, line: 0, column: 0 };
    lemma_steps(p, lines.last(), loc);
    if lines.len() > 1 {
        let q = lines_css(lines.drop_last(), p);
        lemma_lines_grow(lines.drop_last(), p);
        lemma_steps(q, lines.last(), loc);
        lemma_steps(q.newline(), lines.last(), loc);
        lemma_grows_on(p, q, q.newline());
        lemma_grows_on(p, q.newline(), q.newline().write(lines.last()));
    }
}

/// The start of a block goes on.
proof fn lemma_open_grows(p: PrinterView)
    ensures
        grows(p, open_block(p)),
        open_block(p).text == p.text + gap(p.minify) + "{"@ + line(p.minify, p.indent().indent),
        open_block(p).mappings == p.mappings,
{
    let loc = Location { source_index: 0, line: 0, column: 0 };
    law_printer(p, "{"@, loc);
    let a = p.whitespace();
    let b = a.write("{"@);
    let c = b.indent();
    law_printer(c, "{"@, loc);
    lemma_steps(p, "{"@, loc);
    lemma_steps(a, "{"@, loc);
    lemma_steps(b, "{"@, loc);
    lemma_steps(c, "{"@, loc);
    lemma_grows_on(p, a, b);
    lemma_grows_on(p, b, c);
    lemma_grows_on(p, c, c.newline());
}

/// The end of a block goes on.
proof fn lemma_close_grows(p: PrinterView)
    ensures
        grows(p, close_block(p)),
        close_block(p).text == p.text + line(p.minify, p.dedent().indent) + "}"@,
{
    let loc = Location { source_index: 0, line: 0, column: 0 };
    let a = p.dedent();
    law_printer(a, "}"@, loc);
    lemma_steps(p, "}"@, loc);
    lemma_steps(a, "}"@, loc);
    lemma_steps(a.newline(), "}"@, loc);
    lemma_grows_on(p, a, a.newline());
    lemma_grows_on(p, a.newline(), a.newline().write("}"@));
}

/// Printing a rule leaves what was printed before as it is.
pub proof fn law_rule_goes_on(rule: RuleView, p: PrinterView)
    ensures
        grows(p, rule_css(rule, p)),
    decreases rule,
{
    match rule {
        RuleView::Media { query, rules, loc } => {
            lemma_block_text("@media "@ + list_css(query), rules, loc, p);
            let q = open_block(p.add_mapping(loc).write("@media "@ + list_css(query)));
            law_rules_go_on(rules, q, None);
            lemma_block_grows("@media "@ + list_css(query), rules, loc, p);
        },
        RuleView::Supports { condition, rules, loc } => {
            let q = open_block(p.add_mapping(loc).write("@supports "@ + condition_css(condition)));
            law_rules_go_on(rules, q, None);
            lemma_block_grows("@supports "@ + condition_css(condition), rules, loc, p);
        },
        RuleView::LayerBlock { name, rules, loc } => {
            let head = match name {
                Some(n) => "@layer "@ + join(n, "."@),
                None => "@layer"@,
            };
            let q = open_block(p.add_mapping(loc).write(head));
            law_rules_go_on(rules, q, None);
            lemma_block_grows(head, rules, loc, p);
        },
        RuleView::Import(import) => {
            law_import_text(import, p);
        },
        RuleView::LayerStatement { names, loc } => {
            law_layer_statement_text(names, loc, p);
        },
        RuleView::Other(rule) => {
            lemma_steps(p, Seq::empty(), rule.loc);
            lemma_lines_grow(rule.lines, p.add_mapping(rule.loc));
            lemma_grows_on(p, p.add_mapping(rule.loc), rule_css(RuleView::Other(rule), p));
        },
        RuleView::Ignored => {
            lemma_steps(p, Seq::empty(), Location { source_index: 0, line: 0, column: 0 });
        },
    }
}

/// The same of a list of rules.
pub proof fn law_rules_go_on(list: Seq<RuleView>, p: PrinterView, last: Option<bool>)
    ensures
        grows(p, rules_css(list, p, last)),
    decreases list,
{
    let loc = Location { source_index: 0, line: 0, column: 0 };
    lemma_steps(p, "\n"@, loc);
    if list.len() > 0 {
        let rule = list.first();
        if rule is Ignored {
            law_rules_go_on(list.drop_first(), p, last);
        } else {
            let a = between(p, last, rule);
            lemma_steps(p.write("\n"@), "\n"@, loc);
            lemma_grows_on(p, p.write("\n"@), p.write("\n"@).newline());
            assert(grows(p, a));
            let b = rule_css(rule, a);
            law_rule_goes_on(rule, a);
            lemma_grows_on(p, a, b);
            law_rules_go_on(list.drop_first(), b, Some(without_block(rule)));
            lemma_grows_on(p, b, rules_css(list, p, last));
        }
    }
}

/// The start of a rule with a block.
proof fn lemma_block_text(head: Seq<char>, rules: Seq<RuleView>, loc: Location, p: PrinterView)
    ensures
        ({
            let q = open_block(p.add_mapping(loc).write(head));
            &&& grows(p, q)
            &&& q.text == p.text + head + gap(p.minify) + "{"@ + line(p.minify, p.indent().indent)
            &&& q.mappings == p.add_mapping(loc).mappings
        }),
{
    let a = p.add_mapping(loc);
    lemma_steps(p, head, loc);
    lemma_steps(a, head, loc);
    lemma_open_grows(a.write(head));
    lemma_grows_on(p, a, a.write(head));
    lemma_grows_on(p, a.write(head), open_block(a.write(head)));
}

/// A rule with a block goes on where its rules do.
proof fn lemma_block_grows(head: Seq<char>, rules: Seq<RuleView>, loc: Location, p: PrinterView)
    requires
        ({
            let q = open_block(p.add_mapping(loc).write(head));
            grows(q, rules_css(rules, q, None))
        }),
    ensures
        ({
            let q = open_block(p.add_mapping(loc).write(head));
            let inner = rules_css(rules, q, None);
            let r = close_block(inner);
            &&& grows(p, r)
            &&& block_text(head, rules, loc, p, r)
        }),
{
    let q = open_block(p.add_mapping(loc).write(head));
    let inner = rules_css(rules, q, None);
    let r = close_block(inner);
    lemma_block_text(head, rules, loc, p);
    lemma_close_grows(inner);
    lemma_grows_on(p, q, inner);
    lemma_grows_on(q, inner, r);
    lemma_grows_on(p, inner, r);
    let start = p.text + head + gap(p.minify) + "{"@;
    assert(r.text.take(start.len() as int) =~= q.text.take(start.len() as int));
    assert(q.text.take(start.len() as int) =~= start);
}

/// Whether a printer `r` has come from `p` by printing, for the place `loc`, the text `head` and a
/// block of rules: the text, a brace, the rules in lines that are indented by two more spaces, and
/// a brace on a line of its own; and whether the place is tied to the start of the text.
pub open spec fn block_text(
    head: Seq<char>,
    rules: Seq<RuleView>,
    loc: Location,
    p: PrinterView,
    r: PrinterView,
) -> bool {
    let start = p.text + head + gap(p.minify) + "{"@;
    let q = PrinterView {
        text: start + line(p.minify, p.indent().indent),
        indent: p.indent().indent,
        minify: p.minify,
        mappings: p.add_mapping(loc).mappings,
    };
    let inner = rules_css(rules, q, None);
    &&& start.is_prefix_of(r.text)
    &&& q.text.is_prefix_of(inner.text)
    &&& r.text == inner.text + line(p.minify, inner.dedent().indent) + "}"@
    &&& p.add_mapping(loc).mappings.is_prefix_of(r.mappings)
    &&& r.mappings == inner.mappings
}

/// The text of an `@supports` rule is `@supports `, the text of its condition, and a block of its
/// rules.
pub proof fn law_supports_rule_text(
    condition: ConditionView,
    rules: Seq<RuleView>,
    loc: Location,
    p: PrinterView,
)
    ensures
        block_text(
            "@supports "@ + condition_css(condition),
            rules,
            loc,
            p,
            rule_css(RuleView::Supports { condition, rules, loc }, p),
        ),
{
    let head = "@supports "@ + condition_css(condition);
    lemma_block_rule(head, rules, loc, p);
}

/// The text of a `@media` rule is `@media `, the text of its queries, and a block of its rules.
pub proof fn law_media_rule_text(
    query: Seq<QueryView>,
    rules: Seq<RuleView>,
    loc: Location,
    p: PrinterView,
)
    ensures
        block_text(
            "@media "@ + list_css(query),
            rules,
            loc,
            p,
            rule_css(RuleView::Media { query, rules, loc }, p),
        ),
{
    lemma_block_rule("@media "@ + list_css(query), rules, loc, p);
}

/// The text of an `@layer` rule that holds rules is `@layer`, the parts of its name, if it has one,
/// with dots between them, and a block of its rules.
pub proof fn law_layer_rule_text(
    name: Option<Seq<Seq<char>>>,
    rules: Seq<RuleView>,
    loc: Location,
    p: PrinterView,
)
    ensures
        name matches Some(parts) ==> block_text(
            "@layer "@ + join(parts, "."@),
            rules,
            loc,
            p,
            rule_css(RuleView::LayerBlock { name, rules, loc }, p),
        ),
        name is None ==> block_text(
            "@layer"@,
            rules,
            loc,
            p,
            rule_css(RuleView::LayerBlock { name, rules, loc }, p),
        ),
{
    match name {
        Some(parts) => lemma_block_rule("@layer "@ + join(parts, "."@), rules, loc, p),
        None => lemma_block_rule("@layer"@, rules, loc, p),
    }
}

/// What a rule with a block is.
proof fn lemma_block_rule(head: Seq<char>, rules: Seq<RuleView>, loc: Location, p: PrinterView)
    ensures
        block_text(
            head,
            rules,
            loc,
            p,
            close_block(rules_css(rules, open_block(p.add_mapping(loc).write(head)), None)),
        ),
{
    let q = open_block(p.add_mapping(loc).write(head));
    law_rules_go_on(rules, q, None);
    lemma_block_grows(head, rules, loc, p);
}

/// The text of an `@import` rule: its address, its layer, its `@supports` condition between
/// parentheses, of which a condition that has its own gets no more, and its media queries.
pub proof fn law_import_text(rule: ImportView, p: PrinterView)
    ensures
        ({
            let layer = match rule.layer {
                Some(Some(parts)) => " layer("@ + join(parts, "."@) + ")"@,
                Some(None) => " layer"@,
                None => Seq::empty(),
            };
            let supports = match rule.supports {
                Some(ConditionView::Declaration(text)) => " supports("@ + text + ")"@,
                Some(ConditionView::Parens(inner)) => " supports("@ + condition_css(*inner) + ")"@,
                Some(c) => " supports("@ + condition_css(c) + ")"@,
                None => Seq::empty(),
            };
            let media = if rule.media.len() > 0 {
                " "@ + list_css(rule.media)
            } else {
                Seq::empty()
            };
            let r = rule_css(RuleView::Import(rule), p);
            &&& r.text == p.text + "@import "@ + css_string(rule.url) + layer + supports + media
                + ";"@
            &&& r.mappings == p.add_mapping(rule.loc).mappings
            &&& r.indent == p.indent
            &&& grows(p, r)
        }),
{
    reveal_strlit(" supports");
    reveal_strlit(" supports(");
    reveal_strlit("(");
    assert(" supports"@ + "("@ =~= " supports("@);
    if let Some(c) = rule.supports {
        match c {
            ConditionView::Declaration(text) => {
                assert(" supports"@ + ("("@ + text + ")"@) =~= " supports("@ + text + ")"@);
            },
            ConditionView::Parens(inner) => {
                let text = condition_css(*inner);
                assert(" supports"@ + ("("@ + text + ")"@) =~= " supports("@ + text + ")"@);
            },
            _ => {},
        }
    }
    let r = rule_css(RuleView::Import(rule), p);
    lemma_steps(p, Seq::empty(), rule.loc);
    assert(r.text.take(p.text.len() as int) =~= p.text);
}

/// The text of an `@layer` rule that names layers: the names, with commas between them, and each
/// with dots between its parts.
pub proof fn law_layer_statement_text(names: Seq<Seq<Seq<char>>>, loc: Location, p: PrinterView)
    ensures
        ({
            let r = rule_css(RuleView::LayerStatement { names, loc }, p);
            let texts = Seq::new(names.len(), |k: int| join(names[k], "."@));
            &&& r.text == p.text + "@layer "@ + join(texts, ", "@) + ";"@
            &&& r.mappings == p.add_mapping(loc).mappings
            &&& r.indent == p.indent
            &&& grows(p, r)
        }),
{
    let r = rule_css(RuleView::LayerStatement { names, loc }, p);
    let texts = Seq::new(names.len(), |k: int| join(names[k], "."@));
    assert(names.map_values(|n: Seq<Seq<char>>| join(n, "."@)) =~= texts);
    lemma_steps(p, Seq::empty(), loc);
    assert(r.text =~= p.text + "@layer "@ + join(texts, ", "@) + ";"@);
    assert(r.text.take(p.text.len() as int) =~= p.text);
}

/// The text of any other rule: its lines.
pub proof fn law_plain_rule_text(rule: crate::rules::PlainView, p: PrinterView)
    ensures
        ({
            let r = rule_css(RuleView::Other(rule), p);
            &&& r.text == p.text + join(rule.lines, line(p.minify, p.indent))
            &&& r.mappings == p.add_mapping(rule.loc).mappings
            &&& r.indent == p.indent
        }),
{
    lemma_lines_text(rule.lines, p.add_mapping(rule.loc));
}

/// The same of lines.
proof fn lemma_lines_text(lines: Seq<Seq<char>>, p: PrinterView)
    ensures
        lines_css(lines, p) == p.write(join(lines, line(p.minify, p.indent))),
    decreases lines.len(),
{
    let separator = line(p.minify, p.indent);
    if lines.len() > 1 {
        let front = lines.drop_last();
        lemma_lines_text(front, p);
        let q = lines_css(front, p);
        law_printer(q, lines.last(), Location { source_index: 0, line: 0, column: 0 });
        assert(lines_css(lines, p) =~= p.write(join(lines, separator)));
    } else {
        assert(lines_css(lines, p) =~= p.write(join(lines, separator)));
    }
}

/// A rule that has been taken out leaves no trace, wherever it stands.
pub proof fn law_ignored_rules_leave_no_trace(
    a: Seq<RuleView>,
    b: Seq<RuleView>,
    p: PrinterView,
    last: Option<bool>,
)
    ensures
        rule_css(RuleView::Ignored, p) == p,
        rules_css(a + seq![RuleView::Ignored] + b, p, last) == rules_css(a + b, p, last),
    decreases a.len(),
{
    let with = a + seq![RuleView::Ignored] + b;
    if a.len() == 0 {
        assert(with.drop_first() =~= b);
        assert(a + b =~= b);
    } else {
        let rest = a.drop_first();
        assert(with.drop_first() =~= rest + seq![RuleView::Ignored] + b);
        assert((a + b).drop_first() =~= rest + b);
        assert(with.first() == a.first() && (a + b).first() == a.first());
        if a.first() is Ignored {
            law_ignored_rules_leave_no_trace(rest, b, p, last);
        } else {
            let q = rule_css(a.first(), between(p, last, a.first()));
            law_ignored_rules_leave_no_trace(rest, b, q, Some(without_block(a.first())));
        }
    }
}

/// Rules are printed one after the other, each on a line of its own: the first one right away, and
/// each of the others behind an empty line, unless it and the one before it are imports or `@layer`
/// statements.
pub proof fn law_rules_in_turn(
    list: Seq<RuleView>,
    rule: RuleView,
    p: PrinterView,
)
    requires
        !(rule is Ignored),
        forall|k: int| 0 <= k < list.len() ==> !(#[trigger] list[k] is Ignored),
    ensures
        list.len() == 0 ==> rules_css(seq![rule], p, None) == rule_css(rule, p),
        list.len() > 0 ==> {
            let q = rules_css(list, p, None);
            let bare = (list.last() is Import || list.last() is LayerStatement) && (rule is Import
                || rule is LayerStatement);
            let apart = if q.minify || bare {
                Seq::empty()
            } else {
                "\n"@
            };
            rules_css(list.push(rule), p, None) == rule_css(
                rule,
                q.write(apart + line(q.minify, q.indent)),
            )
        },
{
    if list.len() == 0 {
        assert(seq![rule].drop_first() =~= Seq::empty());
        assert(rules_css(seq![rule], p, None) == rules_css(
            seq![rule].drop_first(),
            rule_css(rule, p),
            Some(without_block(rule)),
        ));
    } else {
        lemma_rules_in_turn(list, rule, p, None);
        let q = rules_css(list, p, None);
        let loc = Location { source_index: 0, line: 0, column: 0 };
        law_printer(q, "\n"@, loc);
        law_printer(q.write("\n"@), "\n"@, loc);
        assert(Seq::<char>::empty() + line(q.minify, q.indent) =~= line(q.minify, q.indent));
        assert(q.write("\n"@).write(line(q.minify, q.indent)) =~= q.write(
            "\n"@ + line(q.minify, q.indent),
        ));
    }
}

/// The same, behind other rules.
proof fn lemma_rules_in_turn(
    list: Seq<RuleView>,
    rule: RuleView,
    p: PrinterView,
    last: Option<bool>,
)
    requires
        !(rule is Ignored),
        list.len() > 0,
        forall|k: int| 0 <= k < list.len() ==> !(#[trigger] list[k] is Ignored),
    ensures
        rules_css(list.push(rule), p, last) == rule_css(
            rule,
            between(rules_css(list, p, last), Some(without_block(list.last())), rule),
        ),
    decreases list.len(),
{
    let first = list.first();
    let rest = list.drop_first();
    let all = list.push(rule);
    assert(list[0] == first);
    let q = rule_css(first, between(p, last, first));
    let bare = Some(without_block(first));
    assert(all.first() == first);
    assert(all.drop_first() =~= rest.push(rule));
    if rest.len() == 0 {
        assert(rest.push(rule).drop_first() =~= Seq::empty());
        assert(rest.push(rule).first() == rule);
        assert(rules_css(rest, q, bare) == q);
        let r = rule_css(rule, between(q, bare, rule));
        assert(rules_css(rest.push(rule), q, bare) == rules_css(
            rest.push(rule).drop_first(),
            r,
            Some(without_block(rule)),
        ));
    } else {
        assert forall|k: int| 0 <= k < rest.len() implies !(#[trigger] rest[k] is Ignored) by {
            assert(list[k + 1] == rest[k]);
        }
        lemma_rules_in_turn(rest, rule, q, bare);
        assert(rest.last() == list.last());
    }
}

/// How deep the blocks of a list go.
pub open spec fn depth(rules: Seq<RuleView>) -> nat
    decreases rules,
{
    if rules.len() == 0 {
        0
    } else {
        let a = rule_depth(rules.first());
        let b = depth(rules.drop_first());
        if a > b {
            a
        } else {
            b
        }
    }
}

/// How deep the blocks of a rule go.
pub open spec fn rule_depth(rule: RuleView) -> nat
    decreases rule,
{
    match rule {
        RuleView::Media { rules, .. } => 1 + depth(rules),
        RuleView::Supports { rules, .. } => 1 + depth(rules),
        RuleView::LayerBlock { rules, .. } => 1 + depth(rules),
        _ => 0,
    }
}

/// Behind a rule lines are indented as before it, unless its blocks go deeper than can be counted.
pub proof fn law_rule_keeps_indentation(rule: RuleView, p: PrinterView)
    requires
        p.indent + 2 * rule_depth(rule) <= usize::MAX,
    ensures
        rule_css(rule, p).indent == p.indent,
    decreases rule,
{
    match rule {
        RuleView::Media { query, rules, loc } => {
            law_rules_keep_indentation(
                rules,
                open_block(p.add_mapping(loc).write("@media "@ + list_css(query))),
                None,
            );
        },
        RuleView::Supports { condition, rules, loc } => {
            law_rules_keep_indentation(
                rules,
                open_block(p.add_mapping(loc).write("@supports "@ + condition_css(condition))),
                None,
            );
        },
        RuleView::LayerBlock { name, rules, loc } => {
            let head = match name {
                Some(n) => "@layer "@ + join(n, "."@),
                None => "@layer"@,
            };
            law_rules_keep_indentation(rules, open_block(p.add_mapping(loc).write(head)), None);
        },
        RuleView::Other(rule) => {
            law_plain_rule_text(rule, p);
        },
        _ => {},
    }
}

/// The same of a list of rules.
pub proof fn law_rules_keep_indentation(
    list: Seq<RuleView>,
    p: PrinterView,
    last: Option<bool>,
)
    requires
        p.indent + 2 * depth(list) <= usize::MAX,
    ensures
        rules_css(list, p, last).indent == p.indent,
    decreases list,
{
    if list.len() > 0 {
        let rule = list.first();
        if rule is Ignored {
            law_rules_keep_indentation(list.drop_first(), p, last);
        } else {
            let a = between(p, last, rule);
            law_rule_keeps_indentation(rule, a);
            law_rules_keep_indentation(
                list.drop_first(),
                rule_css(rule, a),
                Some(without_block(rule)),
            );
        }
    }
}

} // verus!
