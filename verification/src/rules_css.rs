//! The serialization of rules.
use crate::entry::StyleSheet;
use crate::location::Location;
use crate::media::{list_css, QueryView};
use crate::printer::{Printer, PrinterView};
use crate::rules::{
    layer_views, lemma_rule_views, CssRule, CssRuleList, ImportRule, ImportView, LayerBlockRule,
    LayerName, LayerStatementRule, MediaRule, RuleView, SupportsRule,
};
use crate::supports::{condition_css, ConditionView, SupportsCondition};
use crate::text::{join, texts, write_joined};
use cssparser::serialize_string;
use vstd::prelude::*;

verus! {

/// A digit of a number below sixteen.
pub open spec fn hex_digit(n: int) -> char {
    if n < 10 {
        ('0' as int + n) as char
    } else {
        ('a' as int + n - 10) as char
    }
}

/// How a CSS string writes a character: a quote and a backslash behind a backslash, a null
/// character as the replacement character, and other control characters by their numbers.
pub open spec fn css_char(c: char) -> Seq<char> {
    let n = c as int;
    if c == '"' || c == '\\' {
        seq!['\\', c]
    } else if n == 0 {
        seq!['\u{FFFD}']
    } else if n < 0x10 {
        seq!['\\', hex_digit(n), ' ']
    } else if n < 0x20 || n == 0x7F {
        seq!['\\', hex_digit(n / 16), hex_digit(n % 16), ' ']
    } else {
        seq![c]
    }
}

/// How a CSS string writes a text between its quotes.
pub open spec fn css_chars(text: Seq<char>) -> Seq<char>
    decreases text.len(),
{
    if text.len() == 0 {
        Seq::empty()
    } else {
        css_chars(text.drop_last()) + css_char(text.last())
    }
}

/// The CSS string that stands for a text.
pub open spec fn css_string(text: Seq<char>) -> Seq<char> {
    seq!['"'] + css_chars(text) + seq!['"']
}

/// `cssparser::serialize_string`, called with an empty string to write to: the text between
/// quotes, with the characters escaped that a CSS string cannot hold as they are.
#[verifier::external_body]
fn quote(text: &str) -> (r: String)
    ensures
        r@ == css_string(text@),
{
    let mut quoted = String::new();
    let _ = serialize_string(text, &mut quoted);
    quoted
}

/// The printer after the lines of a text.
pub open spec fn lines_css(lines: Seq<Seq<char>>, p: PrinterView) -> PrinterView
    decreases lines.len(),
{
    if lines.len() == 0 {
        p
    } else if lines.len() == 1 {
        p.write(lines.last())
    } else {
        lines_css(lines.drop_last(), p).newline().write(lines.last())
    }
}

/// The text of the layer of an `@import` rule.
pub open spec fn import_layer_css(layer: Option<Option<Seq<Seq<char>>>>) -> Seq<char> {
    match layer {
        Some(Some(name)) => " layer("@ + join(name, "."@) + ")"@,
        Some(None) => " layer"@,
        None => Seq::empty(),
    }
}

/// The text of the condition of an `@import` rule.
pub open spec fn import_supports_css(supports: Option<ConditionView>) -> Seq<char> {
    match supports {
        Some(c) => if c is Declaration || c is Parens {
            " supports"@ + condition_css(c)
        } else {
            " supports("@ + condition_css(c) + ")"@
        },
        None => Seq::empty(),
    }
}

/// The text of the media queries of an `@import` rule.
pub open spec fn import_media_css(media: Seq<QueryView>) -> Seq<char> {
    if media.len() > 0 {
        " "@ + list_css(media)
    } else {
        Seq::empty()
    }
}

/// The printer after an `@import` rule.
pub open spec fn import_css(rule: ImportView, p: PrinterView) -> PrinterView {
    p.add_mapping(rule.loc).write("@import "@).write(css_string(rule.url)).write(
        import_layer_css(rule.layer),
    ).write(import_supports_css(rule.supports)).write(import_media_css(rule.media)).write(";"@)
}

/// The printer after the names of an `@layer` rule.
pub open spec fn layer_statement_css(
    names: Seq<Seq<Seq<char>>>,
    loc: Location,
    p: PrinterView,
) -> PrinterView {
    p.add_mapping(loc).write(
        "@layer "@ + join(names.map_values(|n: Seq<Seq<char>>| join(n, "."@)), ", "@) + ";"@,
    )
}

/// The printer after a rule.
pub open spec fn rule_css(rule: RuleView, p: PrinterView) -> PrinterView
    decreases rule,
{
    match rule {
        RuleView::Media { query, rules, loc } => close_block(
            rules_css(
                rules,
                open_block(p.add_mapping(loc).write("@media "@ + list_css(query))),
                None,
            ),
        ),
        RuleView::Import(import) => import_css(import, p),
        RuleView::Supports { condition, rules, loc } => close_block(
            rules_css(
                rules,
                open_block(p.add_mapping(loc).write("@supports "@ + condition_css(condition))),
                None,
            ),
        ),
        RuleView::LayerStatement { names, loc } => layer_statement_css(names, loc, p),
        RuleView::LayerBlock { name, rules, loc } => close_block(
            rules_css(
                rules,
                open_block(
                    p.add_mapping(loc).write(
                        match name {
                            Some(n) => "@layer "@ + join(n, "."@),
                            None => "@layer"@,
                        },
                    ),
                ),
                None,
            ),
        ),
        RuleView::Other(rule) => lines_css(rule.lines, p.add_mapping(rule.loc)),
        RuleView::Ignored => p,
    }
}

/// The printer at the start of a block.
pub open spec fn open_block(p: PrinterView) -> PrinterView {
    p.whitespace().write("{"@).indent().newline()
}

/// The printer behind a block.
pub open spec fn close_block(p: PrinterView) -> PrinterView {
    p.dedent().newline().write("}"@)
}

/// Whether a rule ends in a semicolon.
pub open spec fn without_block(rule: RuleView) -> bool {
    rule is Import || rule is LayerStatement
}

/// The printer between two rules: on a new line and, unless neither rule has a block, behind an
/// empty one. `last` tells whether the rule before is without a block, where there is one.
pub open spec fn between(p: PrinterView, last: Option<bool>, rule: RuleView) -> PrinterView {
    match last {
        None => p,
        Some(last) => if p.minify || (last && without_block(rule)) {
            p.newline()
        } else {
            p.write("\n"@).newline()
        },
    }
}

/// The printer after the rules of a list. Rules that have been taken out leave no trace.
pub open spec fn rules_css(list: Seq<RuleView>, p: PrinterView, last: Option<bool>) -> PrinterView
    decreases list,
{
    if list.len() == 0 {
        p
    } else if list.first() is Ignored {
        rules_css(list.drop_first(), p, last)
    } else {
        rules_css(
            list.drop_first(),
            rule_css(list.first(), between(p, last, list.first())),
            Some(without_block(list.first())),
        )
    }
}

impl LayerName {
    /// Serializes the name.
    pub fn to_css(&self, dest: &mut Printer)
        ensures
            final(dest)@ == old(dest)@.write(join(self@, "."@)),
    {
        write_joined(&self.0, ".", dest);
    }
}

impl LayerStatementRule {
    /// Serializes the rule.
    pub fn to_css(&self, dest: &mut Printer)
        ensures
            final(dest)@ == layer_statement_css(layer_views(self.names@), self.loc, old(dest)@),
    {
        dest.add_mapping(self.loc);
        dest.write_str("@layer ");
        let ghost views = layer_views(self.names@).map_values(|n: Seq<Seq<char>>| join(n, "."@));
        let ghost start = dest@;
        let mut i: usize = 0;
        proof {
            assert(views.take(0) =~= Seq::empty());
            assert(start.write(Seq::empty()) =~= start);
        }
        while i < self.names.len()
            invariant
                i <= self.names.len(),
                views.len() == self.names.len(),
                forall|k: int|
                    0 <= k < self.names.len() ==> #[trigger] views[k] == join(self.names@[k]@, "."@),
                dest@ == start.write(join(views.take(i as int), ", "@)),
            decreases self.names.len() - i,
        {
            proof {
                assert(views.take(i + 1).drop_last() =~= views.take(i as int));
            }
            if i > 0 {
                dest.write_str(", ");
            }
            self.names[i].to_css(dest);
            proof {
                let text = join(views.take(i as int), ", "@);
                if i == 0 {
                    assert(start.text + Seq::<char>::empty() + views[0] =~= start.text + views[0]);
                } else {
                    assert(start.text + text + ", "@ + views[i as int] =~= start.text + (text
                        + ", "@ + views[i as int]));
                }
            }
            i = i + 1;
        }
        assert(views.take(self.names.len() as int) =~= views);
        dest.write_str(";");
        assert(dest@ =~= layer_statement_css(layer_views(self.names@), self.loc, old(dest)@));
    }
}

impl ImportRule {
    /// Writes the layer of the rule.
    fn layer_to_css(&self, dest: &mut Printer)
        ensures
            final(dest)@ == old(dest)@.write(import_layer_css(self@.layer)),
    {
        match &self.layer {
            Some(Some(name)) => {
                dest.write_str(" layer(");
                name.to_css(dest);
                dest.write_str(")");
            },
            Some(None) => dest.write_str(" layer"),
            None => {},
        }
        assert(dest@ =~= old(dest)@.write(import_layer_css(self@.layer)));
    }

    /// Writes the condition of the rule.
    fn supports_to_css(&self, dest: &mut Printer)
        ensures
            final(dest)@ == old(dest)@.write(import_supports_css(self@.supports)),
    {
        if let Some(supports) = &self.supports {
            let bare: bool = matches!(
                supports,
                SupportsCondition::Declaration(_) | SupportsCondition::Parens(_)
            );
            if bare {
                dest.write_str(" supports");
                supports.to_css(dest);
            } else {
                dest.write_str(" supports(");
                supports.to_css(dest);
                dest.write_str(")");
            }
        }
        assert(dest@ =~= old(dest)@.write(import_supports_css(self@.supports)));
    }

    /// Writes the media queries of the rule.
    fn media_to_css(&self, dest: &mut Printer)
        ensures
            final(dest)@ == old(dest)@.write(import_media_css(self@.media)),
    {
        if !self.media.is_empty() {
            dest.write_str(" ");
            self.media.to_css(dest);
        }
        assert(dest@ =~= old(dest)@.write(import_media_css(self@.media)));
    }

    /// Serializes the rule.
    pub fn to_css(&self, dest: &mut Printer)
        ensures
            final(dest)@ == import_css(self@, old(dest)@),
    {
        dest.add_mapping(self.loc);
        dest.write_str("@import ");
        let url = quote(self.url.as_str());
        dest.write_str(url.as_str());
        self.layer_to_css(dest);
        self.supports_to_css(dest);
        self.media_to_css(dest);
        dest.write_str(";");
    }
}

impl SupportsRule {
    /// What the rule stands for.
    pub open spec fn rule(self) -> RuleView {
        RuleView::Supports { condition: self.condition@, rules: self.rules@, loc: self.loc }
    }

    /// Serializes the rule.
    pub fn to_css_with_context(&self, dest: &mut Printer)
        ensures
            final(dest)@ == rule_css(self.rule(), old(dest)@),
        decreases self,
    {
        dest.add_mapping(self.loc);
        let ghost start = dest@;
        dest.write_str("@supports ");
        self.condition.to_css(dest);
        assert(dest@ =~= start.write("@supports "@ + condition_css(self.condition@)));
        dest.whitespace();
        dest.write_str("{");
        dest.indent();
        dest.newline();
        self.rules.to_css_with_context(dest);
        dest.dedent();
        dest.newline();
        dest.write_str("}");
    }
}

impl MediaRule {
    /// What the rule stands for.
    pub open spec fn rule(self) -> RuleView {
        RuleView::Media { query: self.query@, rules: self.rules@, loc: self.loc }
    }

    /// Serializes the rule.
    pub fn to_css_with_context(&self, dest: &mut Printer)
        ensures
            final(dest)@ == rule_css(self.rule(), old(dest)@),
        decreases self,
    {
        dest.add_mapping(self.loc);
        let ghost start = dest@;
        dest.write_str("@media ");
        self.query.to_css(dest);
        assert(dest@ =~= start.write("@media "@ + list_css(self.query@)));
        dest.whitespace();
        dest.write_str("{");
        dest.indent();
        dest.newline();
        self.rules.to_css_with_context(dest);
        dest.dedent();
        dest.newline();
        dest.write_str("}");
    }
}

impl LayerBlockRule {
    /// What the rule stands for.
    pub open spec fn rule(self) -> RuleView {
        RuleView::LayerBlock {
            name: crate::rules::name_view(self.name),
            rules: self.rules@,
            loc: self.loc,
        }
    }

    /// Serializes the rule.
    pub fn to_css_with_context(&self, dest: &mut Printer)
        ensures
            final(dest)@ == rule_css(self.rule(), old(dest)@),
        decreases self,
    {
        dest.add_mapping(self.loc);
        let ghost start = dest@;
        match &self.name {
            Some(name) => {
                dest.write_str("@layer ");
                name.to_css(dest);
                assert(dest@ =~= start.write("@layer "@ + join(name@, "."@)));
            },
            None => dest.write_str("@layer"),
        }
        dest.whitespace();
        dest.write_str("{");
        dest.indent();
        dest.newline();
        self.rules.to_css_with_context(dest);
        dest.dedent();
        dest.newline();
        dest.write_str("}");
    }
}

/// Writes the lines of a text.
fn write_lines(lines: &Vec<String>, dest: &mut Printer)
    ensures
        final(dest)@ == lines_css(texts(lines@), old(dest)@),
{
    let ghost views = texts(lines@);
    let ghost start = dest@;
    let mut i: usize = 0;
    assert(views.take(0) =~= Seq::empty());
    while i < lines.len()
        invariant
            i <= lines.len(),
            views == texts(lines@),
            dest@ == lines_css(views.take(i as int), start),
        decreases lines.len() - i,
    {
        proof {
            assert(views.take(i + 1).drop_last() =~= views.take(i as int));
            assert(views[i as int] == lines@[i as int]@);
        }
        if i > 0 {
            dest.newline();
        }
        dest.write_str(lines[i].as_str());
        i = i + 1;
    }
    assert(views.take(lines.len() as int) =~= views);
}

impl CssRule {
    /// Serializes the rule.
    pub fn to_css_with_context(&self, dest: &mut Printer)
        ensures
            final(dest)@ == rule_css(self@, old(dest)@),
        decreases self,
    {
        match self {
            CssRule::Media(rule) => rule.to_css_with_context(dest),
            CssRule::Import(rule) => rule.to_css(dest),
            CssRule::Supports(rule) => rule.to_css_with_context(dest),
            CssRule::LayerStatement(rule) => rule.to_css(dest),
            CssRule::LayerBlock(rule) => rule.to_css_with_context(dest),
            CssRule::Other(rule) => {
                dest.add_mapping(rule.loc);
                write_lines(&rule.lines, dest);
            },
            CssRule::Ignored => {},
        }
    }
}

impl CssRuleList {
    /// Serializes the rules of the list.
    pub fn to_css_with_context(&self, dest: &mut Printer)
        ensures
            final(dest)@ == rules_css(self@, old(dest)@, None),
        decreases self,
    {
        let ghost views = self@;
        let ghost start = dest@;
        let mut last: Option<bool> = None;
        let mut i: usize = 0;
        proof {
            lemma_rule_views(self.0@);
            assert(views.skip(0) =~= views);
        }
        while i < self.0.len()
            invariant
                i <= self.0.len(),
                views.len() == self.0.len(),
                forall|k: int| 0 <= k < self.0.len() ==> #[trigger] views[k] == self.0@[k]@,
                rules_css(views, start, None) == rules_css(views.skip(i as int), dest@, last),
            decreases self.0.len() - i,
        {
            let rule = &self.0[i];
            proof {
                assert(views.skip(i as int).drop_first() =~= views.skip(i + 1));
                assert(views.skip(i as int).first() == views[i as int]);
            }
            let ignored: bool = matches!(rule, CssRule::Ignored);
            if !ignored {
                let bare: bool = matches!(rule, CssRule::Import(_) | CssRule::LayerStatement(_));
                if let Some(last_bare) = last {
                    if !dest.minify() && !(last_bare && bare) {
                        dest.write_str("\n");
                    }
                    dest.newline();
                }
                rule.to_css_with_context(dest);
                last = Some(bare);
            }
            i = i + 1;
        }
        assert(views.skip(views.len() as int) =~= Seq::empty());
    }
}

impl StyleSheet {
    /// Serializes the rules of the style sheet, and ends the last line.
    pub fn to_css(&self, dest: &mut Printer)
        ensures
            final(dest)@ == rules_css(self@.rules, old(dest)@, None).newline(),
    {
        self.rules.to_css_with_context(dest);
        dest.newline();
    }
}

} // verus!
