use css_bundler::error::ParserError;
use css_bundler::location::Location;
use css_bundler::printer::Printer;
use css_bundler::rules::{CssRule, CssRuleList, PlainRule, SupportsRule};
use css_bundler::supports::SupportsCondition;
use css_bundler::token::{Bracket, TokenKind, TokenStream};

fn declaration(text: &str) -> SupportsCondition {
    SupportsCondition::Declaration(text.to_string())
}

fn parens(inner: SupportsCondition) -> SupportsCondition {
    SupportsCondition::Parens(Box::new(inner))
}

/// The condition that a text starts with, and the text behind it.
fn parse(source: &str) -> (SupportsCondition, String) {
    let mut input = TokenStream::new(source);
    let condition = SupportsCondition::parse(&mut input).unwrap();
    (condition, unread(&input))
}

fn unread(input: &TokenStream) -> String {
    let rest: Vec<&str> = input.tokens[input.position..].iter().map(|t| t.text.as_str()).collect();
    rest.concat()
}

/// Why a text starts with no condition, and what is left unread.
fn parse_error(source: &str) -> (String, String) {
    let mut input = TokenStream::new(source);
    let error = SupportsCondition::parse(&mut input).unwrap_err();
    (error.reason(), unread(&input))
}

fn print(condition: &SupportsCondition) -> String {
    let mut printer = Printer::new(false);
    condition.to_css(&mut printer);
    printer.text().to_string()
}

#[test]
fn declarations_are_conditions() {
    assert_eq!(parse("(color: red)"), (declaration("color: red"), String::new()));
    assert_eq!(parse("  ( color : red )rest"), (declaration(" color : red "), "rest".to_string()));
    assert_eq!(parse("(a: [b (c)])"), (declaration("a: [b (c)]"), String::new()));
}

#[test]
fn conditions_are_joined_by_one_operator() {
    let (condition, rest) = parse("(a: b) AND (c: d) and (e: f) or (g: h)");
    assert_eq!(
        condition,
        SupportsCondition::And(vec![declaration("a: b"), declaration("c: d"), declaration("e: f")])
    );
    assert_eq!(rest, " or (g: h)");
    assert_eq!(print(&condition), "(a: b) and (c: d) and (e: f)");

    let (condition, rest) = parse("(a: b) or (c: d)");
    assert_eq!(condition, SupportsCondition::Or(vec![declaration("a: b"), declaration("c: d")]));
    assert_eq!(rest, "");
    assert_eq!(print(&condition), "(a: b) or (c: d)");
}

#[test]
fn an_operator_that_joins_nothing_is_left_unread() {
    let (condition, rest) = parse("(a: b) and c");
    assert_eq!(condition, SupportsCondition::And(Vec::new()));
    assert_eq!(rest, " and c");
    let (condition, rest) = parse("(a: b) or");
    assert_eq!(condition, SupportsCondition::Or(Vec::new()));
    assert_eq!(rest, " or");
}

#[test]
fn conditions_are_negated_and_nested() {
    let (condition, rest) = parse("Not ((a: b) and (not (c: d)))");
    assert_eq!(
        condition,
        SupportsCondition::Not(Box::new(parens(SupportsCondition::And(vec![
            declaration("a: b"),
            parens(SupportsCondition::Not(Box::new(declaration("c: d")))),
        ]))))
    );
    assert_eq!(rest, "");
    assert_eq!(print(&condition), "not ((a: b) and (not (c: d)))");
}

#[test]
fn selectors_and_unknown_functions_keep_their_text() {
    let (condition, _) = parse("selector(a > b) or font-tech(x, y)");
    assert_eq!(
        condition,
        SupportsCondition::Or(vec![
            SupportsCondition::Selector("a > b".to_string()),
            SupportsCondition::Unknown("font-tech(x, y)".to_string()),
        ])
    );
    assert_eq!(print(&condition), "selector(a > b) or font-tech(x, y)");
    assert_eq!(parse("(1 2)").0, SupportsCondition::Unknown("(1 2)".to_string()));
    assert_eq!(parse("((a: b) c)").0, SupportsCondition::Unknown("((a: b) c)".to_string()));
    assert_eq!(parse("(a: b").0, declaration("a: b"));
}

#[test]
fn what_is_no_condition_is_an_error() {
    for (source, reason, rest) in [
        ("", "Unexpected end of input", ""),
        (" /* */ ", "Unexpected end of input", ""),
        ("not", "Unexpected end of input", ""),
        ("color: red", "Unexpected token color", ": red"),
        ("not color: red", "Unexpected token color", ": red"),
        ("[a: b] c", "Unexpected token [", " c"),
        ("(a: ]) b", "Unexpected token ]", " b"),
        ("selector(}) b", "Unexpected token }", " b"),
        ("(a: url(b c)) d", "Unexpected token url(b c)", " d"),
    ] {
        assert_eq!(parse_error(source), (reason.to_string(), rest.to_string()));
    }
}

#[test]
fn declarations_are_read_to_the_end() {
    let mut input = TokenStream::new("color: red (blue)");
    assert_eq!(
        SupportsCondition::parse_declaration(&mut input).unwrap(),
        declaration("color: red (blue)")
    );
    assert_eq!(unread(&input), "");

    for (source, reason, rest) in [
        ("", "Unexpected end of input", ""),
        (": b", "Unexpected token :", " b"),
        ("(a) b", "Unexpected token (", " b"),
        ("a ", "Unexpected end of input", ""),
        ("a b c", "Unexpected token b", " c"),
        ("a: b) c", "Unexpected token )", " c"),
        ("a: (b) [c { ) } ] d ", "Unexpected token )", " d "),
    ] {
        let mut input = TokenStream::new(source);
        let error = SupportsCondition::parse_declaration(&mut input).unwrap_err();
        assert_eq!(error.reason(), reason);
        assert_eq!(unread(&input), rest);
    }
    let mut input = TokenStream::new("a");
    assert!(matches!(
        SupportsCondition::parse_declaration(&mut input),
        Err(ParserError::EndOfInput)
    ));
}

#[test]
fn and_joins_conditions_once() {
    let mut condition = declaration("a: b");
    condition.and(&declaration("a: b"));
    assert_eq!(condition, declaration("a: b"));
    condition.and(&declaration("c: d"));
    assert_eq!(
        condition,
        parens(SupportsCondition::And(vec![declaration("a: b"), declaration("c: d")]))
    );
    let mut condition = SupportsCondition::And(vec![declaration("a: b")]);
    condition.and(&declaration("c: d"));
    condition.and(&declaration("a: b"));
    assert_eq!(
        condition,
        SupportsCondition::And(vec![declaration("a: b"), declaration("c: d")])
    );
}

#[test]
fn or_joins_conditions_once() {
    let mut condition = SupportsCondition::Unknown("x".to_string());
    condition.or(&SupportsCondition::Unknown("x".to_string()));
    assert_eq!(condition, SupportsCondition::Unknown("x".to_string()));
    condition.or(&declaration("c: d"));
    assert_eq!(print(&condition), "(x or (c: d))");
    let mut condition = SupportsCondition::Or(vec![declaration("a: b")]);
    condition.or(&declaration("c: d"));
    condition.or(&declaration("c: d"));
    assert_eq!(
        condition,
        SupportsCondition::Or(vec![declaration("a: b"), declaration("c: d")])
    );
}

#[test]
fn conditions_are_equal_where_their_parts_are() {
    let list = vec![
        declaration("a"),
        declaration("b"),
        SupportsCondition::Selector("a".to_string()),
        SupportsCondition::Unknown("a".to_string()),
        parens(declaration("a")),
        SupportsCondition::Not(Box::new(declaration("a"))),
        SupportsCondition::And(vec![declaration("a")]),
        SupportsCondition::Or(vec![declaration("a")]),
        SupportsCondition::Or(vec![declaration("a"), declaration("a")]),
    ];
    for (i, a) in list.iter().enumerate() {
        for (k, b) in list.iter().enumerate() {
            assert_eq!(*a == *b, i == k);
        }
        assert_eq!(a.clone(), *a);
    }
}

fn plain(line: &str, at: u32) -> CssRule {
    CssRule::Other(PlainRule {
        lines: vec![line.to_string()],
        loc: Location { source_index: 2, line: at, column: 1 },
    })
}

#[test]
fn rules_are_printed_in_a_block() {
    let rule = SupportsRule {
        condition: declaration("a: b"),
        rules: CssRuleList(vec![
            CssRule::Ignored,
            plain("x {}", 7),
            plain("y {}", 8),
        ]),
        loc: Location { source_index: 2, line: 5, column: 6 },
    };
    let mut printer = Printer::new(false);
    rule.to_css_with_context(&mut printer);
    assert_eq!(printer.text(), "@supports (a: b) {\n  x {}\n\n  y {}\n}");
    assert_eq!(printer.mappings()[0].loc, Location { source_index: 2, line: 5, column: 6 });
    let offsets: Vec<usize> = printer.mappings().iter().map(|m| m.offset).collect();
    assert_eq!(offsets, vec![0, 21, 29]);
    assert_eq!(printer.mappings()[2].loc.line, 8);
    let mut printer = Printer::new(true);
    rule.to_css_with_context(&mut printer);
    assert_eq!(printer.text(), "@supports (a: b){x {}y {}}");
}

#[test]
fn tokens_are_all_of_the_text() {
    let source = "\u{e9}a:url(x) [{b( /* c */ \"d";
    let stream = TokenStream::new(source);
    let texts: Vec<&str> = stream.tokens.iter().map(|t| t.text.as_str()).collect();
    assert_eq!(texts.concat(), source);
    assert_eq!(texts[0], "\u{e9}a");
    assert!(matches!(&stream.tokens[0].kind, TokenKind::Ident(name) if name == "\u{e9}a"));
    assert!(matches!(stream.tokens[1].kind, TokenKind::Colon));
    assert!(matches!(stream.tokens[2].kind, TokenKind::Other));
    assert!(matches!(stream.tokens[3].kind, TokenKind::Space));
    assert_eq!(stream.tokens[4].kind.opens(), Some(Bracket::Square));
    assert_eq!(stream.tokens[5].kind.opens(), Some(Bracket::Curly));
    assert_eq!(stream.tokens[6].kind.opens(), Some(Bracket::Paren));
    assert_eq!(stream.tokens[3].kind.opens(), None);
    assert_eq!(TokenStream::new("").tokens.len(), 0);
}

#[test]
fn printed_conditions_read_as_themselves() {
    for (source, printed) in [
        ("( a : b )", "( a : b )"),
        ("NOT/**/ ( ( a: b ) )", "not (( a: b ))"),
        ("(a: b)OR/* c */(d: \"e\") or  selector( f > g )", "(a: b) or (d: \"e\") or selector( f > g )"),
        ("( (a: b)  and  (not (c: d)) )", "((a: b) and (not (c: d)))"),
        ("SELECTOR(a) and f( [x] {y} ) and (1 2)", "selector(a) and f( [x] {y} ) and (1 2)"),
        ("((a: b) c)", "((a: b) c)"),
    ] {
        let (condition, rest) = parse(source);
        assert_eq!(rest, "");
        assert_eq!(print(&condition), printed);
        assert_eq!(parse(printed), (condition, String::new()));
    }
}
