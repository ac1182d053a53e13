use css_bundler::bundler::Bundler;
use css_bundler::entry::StyleSheet;
use css_bundler::error::{BundleErrorKind, Error, ErrorLocation, ParserError};
use css_bundler::load::{SourceProvider, StyleSheetParser};
use css_bundler::location::Location;
use css_bundler::media::{MediaList, MediaQuery, Qualifier};
use css_bundler::printer::Printer;
use css_bundler::rules::{
    CssRule, CssRuleList, ImportRule, LayerBlockRule, LayerName, LayerStatementRule, MediaRule,
    PlainRule, SupportsRule,
};
use css_bundler::supports::SupportsCondition;
use css_bundler::token::{Token, TokenKind, TokenStream};
use parcel_sourcemap::SourceMap;
use std::collections::HashMap;
use std::path::{Path, PathBuf};
use std::sync::atomic::{AtomicUsize, Ordering};

/// Files by their paths.
struct TestProvider {
    map: HashMap<PathBuf, String>,
}

impl SourceProvider for TestProvider {
    fn read(&self, file: &str) -> Result<String, String> {
        match self.map.get(Path::new(file)) {
            Some(code) => Ok(code.clone()),
            None => Err(format!("{} is missing", file)),
        }
    }
}

fn fs(files: &[(&str, &str)]) -> TestProvider {
    let mut map = HashMap::new();
    for (path, code) in files {
        map.insert(PathBuf::from(path), code.to_string());
    }
    TestProvider { map }
}

/// Reads the few forms of rules that these tests are written with.
struct TestParser;

struct Reader<'t> {
    tokens: &'t [Token],
    at: usize,
    source_index: u32,
    line: u32,
}

impl<'t> Reader<'t> {
    fn skip_space(&mut self) {
        while self.at < self.tokens.len() && matches!(self.tokens[self.at].kind, TokenKind::Space) {
            self.line += self.tokens[self.at].text.matches('\n').count() as u32;
            self.at += 1;
        }
    }

    fn text(&self) -> &'t str {
        self.tokens[self.at].text.as_str()
    }

    fn loc(&self) -> Location {
        Location { source_index: self.source_index, line: self.line, column: 1 }
    }

    /// The text up to a token, which is passed over.
    fn until(&mut self, end: &str) -> String {
        let mut text = String::new();
        while self.text() != end {
            text.push_str(self.text());
            self.at += 1;
        }
        self.at += 1;
        text.trim().to_string()
    }

    /// The text of a block whose opening bracket has been passed over.
    fn block(&mut self) -> String {
        let mut depth = 1;
        let mut text = String::new();
        loop {
            match self.tokens[self.at].kind {
                TokenKind::Open(_) | TokenKind::Function(_) => depth += 1,
                TokenKind::Close(_) => depth -= 1,
                _ => {}
            }
            if depth == 0 {
                self.at += 1;
                return text;
            }
            text.push_str(self.text());
            self.at += 1;
        }
    }

    fn import(&mut self) -> ImportRule {
        let loc = self.loc();
        self.at += 1;
        self.skip_space();
        let url = self.text().trim_matches('"').to_string();
        self.at += 1;
        self.skip_space();
        let mut layer = None;
        if self.text() == "layer" {
            layer = Some(None);
            self.at += 1;
        } else if self.text() == "layer(" {
            self.at += 1;
            layer = Some(Some(name(&self.block())));
        }
        self.skip_space();
        let mut supports = None;
        if self.text() == "supports(" {
            self.at += 1;
            let text = self.block();
            supports = match SupportsCondition::parse(&mut TokenStream::new(&text)) {
                Ok(condition) => Some(condition),
                Err(_) => {
                    SupportsCondition::parse_declaration(&mut TokenStream::new(&text)).ok()
                }
            };
        }
        let media = media(&self.until(";"));
        ImportRule { url, layer, supports, media, loc }
    }

    fn layer(&mut self) -> CssRule {
        let loc = self.loc();
        self.at += 1;
        let mut text = String::new();
        loop {
            let next = self.text();
            self.at += 1;
            if next == ";" {
                let names = text.split(',').map(|n| name(n)).collect();
                return CssRule::LayerStatement(LayerStatementRule { names, loc });
            }
            if next == "{" {
                let inner = self.block();
                return CssRule::LayerBlock(LayerBlockRule {
                    name: Some(name(&text)),
                    rules: CssRuleList(rules(&inner, self.source_index)),
                    loc,
                });
            }
            text.push_str(next);
        }
    }

    fn style(&mut self) -> CssRule {
        let loc = self.loc();
        let mut lines = vec![format!("{} {{", self.until("{"))];
        for declaration in self.block().split(';') {
            if !declaration.trim().is_empty() {
                lines.push(format!("  {};", short_colors(declaration.trim())));
            }
        }
        lines.push("}".to_string());
        CssRule::Other(PlainRule { lines, loc })
    }
}

fn name(text: &str) -> LayerName {
    LayerName(text.trim().split('.').map(|part| part.to_string()).collect())
}

fn media(text: &str) -> MediaList {
    let mut list = MediaList::new();
    for query in text.split(',') {
        let words: Vec<&str> = query.split_whitespace().filter(|w| *w != "and").collect();
        if words.is_empty() {
            continue;
        }
        let mut parsed = MediaQuery { qualifier: None, media_type: None, conditions: Vec::new() };
        for word in words {
            match word {
                "not" => parsed.qualifier = Some(Qualifier::Not),
                "only" => parsed.qualifier = Some(Qualifier::Only),
                "all" => {}
                _ if word.starts_with('(') => parsed.conditions.push(word.to_string()),
                _ => parsed.media_type = Some(word.to_string()),
            }
        }
        list.media_queries.push(parsed);
    }
    list
}

fn short_colors(declaration: &str) -> String {
    declaration.replace("yellow", "#ff0").replace("white", "#fff").replace("black", "#000")
}

fn rules(code: &str, source_index: u32) -> Vec<CssRule> {
    let stream = TokenStream::new(code);
    let mut reader = Reader { tokens: &stream.tokens, at: 0, source_index, line: 0 };
    let mut list = Vec::new();
    loop {
        reader.skip_space();
        if reader.at == reader.tokens.len() {
            return list;
        }
        let rule = match reader.text() {
            "@import" => CssRule::Import(reader.import()),
            "@layer" => reader.layer(),
            _ => reader.style(),
        };
        list.push(rule);
    }
}

impl StyleSheetParser for TestParser {
    fn parse(
        &self,
        filename: &str,
        code: &str,
        source_index: u32,
    ) -> Result<CssRuleList, Error<ParserError>> {
        if code.contains("!!") {
            return Err(Error {
                kind: ParserError::UnexpectedToken("!!".to_string()),
                loc: Some(ErrorLocation {
                    filename: filename.to_string(),
                    line: 7,
                    column: source_index,
                }),
            });
        }
        Ok(CssRuleList(rules(code, source_index)))
    }
}

fn print(sheet: &StyleSheet, minify: bool) -> String {
    let mut printer = Printer::new(minify);
    sheet.to_css(&mut printer);
    printer.text().to_string()
}

fn bundle(files: &[(&str, &str)], entry: &str) -> String {
    let provider = fs(files);
    let mut bundler = Bundler::new(&provider, None, TestParser);
    let sheet = bundler.bundle(entry).unwrap();
    print(&sheet, false)
}

fn failure(files: &[(&str, &str)], entry: &str) -> Error<BundleErrorKind> {
    let provider = fs(files);
    let mut bundler = Bundler::new(&provider, None, TestParser);
    bundler.bundle(entry).unwrap_err()
}

fn error_test(files: &[(&str, &str)], entry: &str) {
    let error = failure(files, entry);
    assert!(matches!(error.kind, BundleErrorKind::UnsupportedLayerCombination));
}

/// The lines of a text without the indentation that they share.
fn dedent(text: &str) -> String {
    let lines: Vec<&str> = text.strip_prefix('\n').unwrap().split('\n').collect();
    let shared = lines
        .iter()
        .filter(|l| !l.trim().is_empty())
        .map(|l| l.len() - l.trim_start().len())
        .min()
        .unwrap();
    let mut result = Vec::new();
    for line in lines {
        result.push(if line.trim().is_empty() { "" } else { &line[shared..] });
    }
    result.join("\n")
}

#[test]
fn test_bundle() {
    let res = bundle(
        &[
            (
                "/a.css",
                r#"
        @import "b.css";
        .a { color: red }
      "#,
            ),
            (
                "/b.css",
                r#"
        .b { color: green }
      "#,
            ),
        ],
        "/a.css",
    );
    assert_eq!(
        res,
        dedent(
            r#"
      .b {
        color: green;
      }
      
      .a {
        color: red;
      }
    "#
        )
    );

    let res = bundle(
        &[
            (
                "/a.css",
                r#"
        @import "b.css" print;
        .a { color: red }
      "#,
            ),
            (
                "/b.css",
                r#"
        .b { color: green }
      "#,
            ),
        ],
        "/a.css",
    );
    assert_eq!(
        res,
        dedent(
            r#"
      @media print {
        .b {
          color: green;
        }
      }
      
      .a {
        color: red;
      }
    "#
        )
    );

    let res = bundle(
        &[
            (
                "/a.css",
                r#"
        @import "b.css" supports(color: green);
        .a { color: red }
      "#,
            ),
            (
                "/b.css",
                r#"
        .b { color: green }
      "#,
            ),
        ],
        "/a.css",
    );
    assert_eq!(
        res,
        dedent(
            r#"
      @supports (color: green) {
        .b {
          color: green;
        }
      }
      
      .a {
        color: red;
      }
    "#
        )
    );

    let res = bundle(
        &[
            (
                "/a.css",
                r#"
        @import "b.css" supports(color: green) print;
        .a { color: red }
      "#,
            ),
            (
                "/b.css",
                r#"
        .b { color: green }
      "#,
            ),
        ],
        "/a.css",
    );
    assert_eq!(
        res,
        dedent(
            r#"
      @supports (color: green) {
        @media print {
          .b {
            color: green;
          }
        }
      }
      
      .a {
        color: red;
      }
    "#
        )
    );

    let res = bundle(
        &[
            (
                "/a.css",
                r#"
        @import "b.css" print;
        @import "b.css" screen;
        .a { color: red }
      "#,
            ),
            (
                "/b.css",
                r#"
        .b { color: green }
      "#,
            ),
        ],
        "/a.css",
    );
    assert_eq!(
        res,
        dedent(
            r#"
      @media print, screen {
        .b {
          color: green;
        }
      }
      
      .a {
        color: red;
      }
    "#
        )
    );

    let res = bundle(
        &[
            (
                "/a.css",
                r#"
        @import "b.css" supports(color: red);
        @import "b.css" supports(foo: bar);
        .a { color: red }
      "#,
            ),
            (
                "/b.css",
                r#"
        .b { color: green }
      "#,
            ),
        ],
        "/a.css",
    );
    assert_eq!(
        res,
        dedent(
            r#"
      @supports ((color: red) or (foo: bar)) {
        .b {
          color: green;
        }
      }
      
      .a {
        color: red;
      }
    "#
        )
    );

    let res = bundle(
        &[
            (
                "/a.css",
                r#"
        @import "b.css" print;
        .a { color: red }
      "#,
            ),
            (
                "/b.css",
                r#"
        @import "c.css" (color);
        .b { color: yellow }
      "#,
            ),
            (
                "/c.css",
                r#"
        .c { color: green }
      "#,
            ),
        ],
        "/a.css",
    );
    assert_eq!(
        res,
        dedent(
            r#"
      @media print and (color) {
        .c {
          color: green;
        }
      }
      
      @media print {
        .b {
          color: #ff0;
        }
      }

      .a {
        color: red;
      }
    "#
        )
    );

    let res = bundle(
        &[
            (
                "/a.css",
                r#"
        @import "b.css";
        .a { color: red }
      "#,
            ),
            (
                "/b.css",
                r#"
        @import "c.css";
      "#,
            ),
            (
                "/c.css",
                r#"
        @import "a.css";
        .c { color: green }
      "#,
            ),
        ],
        "/a.css",
    );
    assert_eq!(
        res,
        dedent(
            r#"
      .c {
        color: green;
      }

      .a {
        color: red;
      }
    "#
        )
    );

    let res = bundle(
        &[
            (
                "/a.css",
                r#"
        @import "b/c.css";
        .a { color: red }
      "#,
            ),
            (
                "/b/c.css",
                r#"
        .b { color: green }
      "#,
            ),
        ],
        "/a.css",
    );
    assert_eq!(
        res,
        dedent(
            r#"
      .b {
        color: green;
      }
      
      .a {
        color: red;
      }
    "#
        )
    );

    let res = bundle(
        &[
            (
                "/a.css",
                r#"
        @import "./b/c.css";
        .a { color: red }
      "#,
            ),
            (
                "/b/c.css",
                r#"
        .b { color: green }
      "#,
            ),
        ],
        "/a.css",
    );
    assert_eq!(
        res,
        dedent(
            r#"
      .b {
        color: green;
      }
      
      .a {
        color: red;
      }
    "#
        )
    );

    let res = bundle(
        &[
            (
                "/a.css",
                r#"
        @import "b.css" layer(foo);
        .a { color: red }
      "#,
            ),
            (
                "/b.css",
                r#"
        .b { color: green }
      "#,
            ),
        ],
        "/a.css",
    );
    assert_eq!(
        res,
        dedent(
            r#"
      @layer foo {
        .b {
          color: green;
        }
      }
      
      .a {
        color: red;
      }
    "#
        )
    );

    let res = bundle(
        &[
            (
                "/a.css",
                r#"
        @import "b.css" layer;
        .a { color: red }
      "#,
            ),
            (
                "/b.css",
                r#"
        .b { color: green }
      "#,
            ),
        ],
        "/a.css",
    );
    assert_eq!(
        res,
        dedent(
            r#"
      @layer {
        .b {
          color: green;
        }
      }
      
      .a {
        color: red;
      }
    "#
        )
    );

    let res = bundle(
        &[
            (
                "/a.css",
                r#"
        @import "b.css" layer(foo);
        .a { color: red }
      "#,
            ),
            (
                "/b.css",
                r#"
        @import "c.css" layer(bar);
        .b { color: green }
      "#,
            ),
            (
                "/c.css",
                r#"
        .c { color: green }
      "#,
            ),
        ],
        "/a.css",
    );
    assert_eq!(
        res,
        dedent(
            r#"
      @layer foo.bar {
        .c {
          color: green;
        }
      }

      @layer foo {
        .b {
          color: green;
        }
      }
      
      .a {
        color: red;
      }
    "#
        )
    );

    let res = bundle(
        &[
            (
                "/a.css",
                r#"
        @import "b.css" layer(foo);
        @import "b.css" layer(foo);
      "#,
            ),
            (
                "/b.css",
                r#"
        .b { color: green }
      "#,
            ),
        ],
        "/a.css",
    );
    assert_eq!(
        res,
        dedent(
            r#"
      @layer foo {
        .b {
          color: green;
        }
      }
    "#
        )
    );

    let res = bundle(
        &[
            (
                "/a.css",
                r#"
        @layer bar, foo;
        @import "b.css" layer(foo);
        
        @layer bar {
          div {
            background: red;
          }
        }
      "#,
            ),
            (
                "/b.css",
                r#"
        @layer qux, baz;
        @import "c.css" layer(baz);
        
        @layer qux {
          div {
            background: green;
          }
        }
      "#,
            ),
            (
                "/c.css",
                r#"
        div {
          background: yellow;
        }      
      "#,
            ),
        ],
        "/a.css",
    );
    assert_eq!(
        res,
        dedent(
            r#"
      @layer bar, foo;
      @layer foo.qux, foo.baz;

      @layer foo.baz {
        div {
          background: #ff0;
        }
      }

      @layer foo {
        @layer qux {
          div {
            background: green;
          }
        }
      }
      
      @layer bar {
        div {
          background: red;
        }
      }
    "#
        )
    );

    error_test(
        &[
            (
                "/a.css",
                r#"
        @import "b.css" layer(foo);
        @import "b.css" layer(bar);
      "#,
            ),
            (
                "/b.css",
                r#"
        .b { color: red }
      "#,
            ),
        ],
        "/a.css",
    );

    error_test(
        &[
            (
                "/a.css",
                r#"
        @import "b.css" layer;
        @import "b.css" layer;
      "#,
            ),
            (
                "/b.css",
                r#"
        .b { color: red }
      "#,
            ),
        ],
        "/a.css",
    );

    error_test(
        &[
            (
                "/a.css",
                r#"
        @import "b.css" layer;
        .a { color: red }
      "#,
            ),
            (
                "/b.css",
                r#"
        @import "c.css" layer;
        .b { color: green }
      "#,
            ),
            (
                "/c.css",
                r#"
        .c { color: green }
      "#,
            ),
        ],
        "/a.css",
    );

    error_test(
        &[
            (
                "/a.css",
                r#"
        @import "b.css" layer;
        .a { color: red }
      "#,
            ),
            (
                "/b.css",
                r#"
        @import "c.css" layer(foo);
        .b { color: green }
      "#,
            ),
            (
                "/c.css",
                r#"
        .c { color: green }
      "#,
            ),
        ],
        "/a.css",
    );

    let res = bundle(
        &[
            (
                "/index.css",
                r#"
        @import "a.css";
        @import "b.css";
      "#,
            ),
            (
                "/a.css",
                r#"
        @import "./c.css";
        body { background: red; }
      "#,
            ),
            (
                "/b.css",
                r#"
        @import "./c.css";
        body { color: red; }
      "#,
            ),
            (
                "/c.css",
                r#"
        body {
          background: white;
          color: black; 
        }
      "#,
            ),
        ],
        "/index.css",
    );
    assert_eq!(
        res,
        dedent(
            r#"
      body {
        background: red;
      }

      body {
        background: #fff;
        color: #000;
      }

      body {
        color: red;
      }
    "#
        )
    );

    let res = bundle(
        &[
            (
                "/index.css",
                r#"
        @import "a.css";
        @import "b.css";
        @import "a.css";
      "#,
            ),
            (
                "/a.css",
                r#"
        body { background: green; }
      "#,
            ),
            (
                "/b.css",
                r#"
        body { background: red; }
      "#,
            ),
        ],
        "/index.css",
    );
    assert_eq!(
        res,
        dedent(
            r#"
      body {
        background: red;
      }

      body {
        background: green;
      }
    "#
        )
    );
}

#[test]
fn files_are_loaded_once_however_their_paths_are_written() {
    let provider = fs(&[
        ("/a.css", "@import \"./b.css\"; @import \"b.css\"; @import \"x/../c.css\"; .a { color: red }"),
        ("/b.css", ".b { color: red }"),
        ("/x/../c.css", ".c { color: red }"),
    ]);
    let mut bundler = Bundler::new(&provider, None, TestParser);
    let sheet = bundler.bundle("/a.css").unwrap();
    assert_eq!(sheet.sources, vec!["/a.css", "/./b.css", "/x/../c.css"]);
    assert_eq!(bundler.state.stylesheets.len(), 3);
    assert_eq!(bundler.state.stylesheets[0].dependencies, vec![1, 1, 2]);
    assert_eq!(bundler.state.stylesheets[1].parent_source_index, 0);
    assert_eq!(bundler.state.stylesheets[1].parent_dep_index, 1);
}

#[test]
fn the_text_of_files_goes_to_the_source_map() {
    let provider = fs(&[
        ("/a.css", "@import \"b/b.css\"; .a { color: red }"),
        ("/b/b.css", ".b { color: red }"),
    ]);
    let mut bundler = Bundler::new(&provider, Some(SourceMap::new("/")), TestParser);
    bundler.bundle("/a.css").unwrap();
    let map = bundler.state.source_map.unwrap();
    assert_eq!(map.get_sources(), &vec!["a.css".to_string(), "b/b.css".to_string()]);
    assert_eq!(
        map.get_sources_content(),
        &vec!["@import \"b/b.css\"; .a { color: red }".to_string(), ".b { color: red }".to_string()]
    );
}

#[test]
fn a_file_that_cannot_be_read_is_reported_at_its_import() {
    let error = failure(
        &[("/a.css", "\n@import \"b.css\";\n"), ("/b.css", "@layer x;\n\n@import \"c.css\";")],
        "/a.css",
    );
    assert_eq!(error.kind.reason(), "/c.css is missing");
    let loc = error.loc.unwrap();
    assert_eq!(loc.filename, "/b.css");
    assert_eq!((loc.line, loc.column), (2, 1));

    let error = failure(&[], "/a.css");
    assert_eq!(error.kind.reason(), "/a.css is missing");
    let loc = error.loc.unwrap();
    assert_eq!((loc.filename.as_str(), loc.line, loc.column), ("/a.css", 1, 0));
}

#[test]
fn what_the_parser_reports_is_reported() {
    let error = failure(&[("/a.css", "@import \"b.css\";"), ("/b.css", "!!")], "/a.css");
    assert!(matches!(error.kind, BundleErrorKind::ParserError(ParserError::UnexpectedToken(_))));
    assert_eq!(error.kind.reason(), "Unexpected token !!");
    let loc = error.loc.unwrap();
    assert_eq!((loc.filename.as_str(), loc.line, loc.column), ("/b.css", 7, 1));
}

#[test]
fn media_queries_and_supports_conditions_of_repeated_imports_do_not_mix() {
    let error = failure(
        &[
            ("/a.css", "@import \"b.css\" print;\n@import \"b.css\" supports(color: red);"),
            ("/b.css", ".b { color: red }"),
        ],
        "/a.css",
    );
    assert!(matches!(error.kind, BundleErrorKind::UnsupportedImportCondition));
    let loc = error.loc.unwrap();
    assert_eq!((loc.filename.as_str(), loc.line), ("/a.css", 1));

    let error = failure(
        &[
            ("/a.css", "@import \"b.css\" supports(color: red);\n@import \"b.css\" print;"),
            ("/b.css", ".b { color: red }"),
        ],
        "/a.css",
    );
    assert!(matches!(error.kind, BundleErrorKind::UnsupportedImportCondition));
}

#[test]
fn negated_media_queries_of_nested_imports_cannot_be_joined() {
    let error = failure(
        &[
            ("/a.css", "@import \"b.css\" not print;"),
            ("/b.css", "\n\n\n@import \"c.css\" not screen;"),
            ("/c.css", ".c { color: red }"),
        ],
        "/a.css",
    );
    assert!(matches!(error.kind, BundleErrorKind::UnsupportedMediaBooleanLogic));
    let loc = error.loc.unwrap();
    assert_eq!((loc.filename.as_str(), loc.line), ("/b.css", 3));
}

#[test]
fn an_import_without_conditions_lifts_those_of_another() {
    let res = bundle(
        &[
            ("/a.css", "@import \"b.css\" print; @import \"b.css\";"),
            ("/b.css", ".b { color: red }"),
        ],
        "/a.css",
    );
    assert_eq!(res, ".b {\n  color: red;\n}\n");
    let res = bundle(
        &[
            ("/a.css", "@import \"b.css\"; @import \"b.css\" supports(color: red);"),
            ("/b.css", ".b { color: red }"),
        ],
        "/a.css",
    );
    assert_eq!(res, ".b {\n  color: red;\n}\n");
}

#[test]
fn a_layer_of_a_later_import_is_taken_on() {
    let res = bundle(
        &[
            ("/a.css", "@import \"b.css\"; @import \"b.css\" layer(x.y);"),
            ("/b.css", ".b { color: red }"),
        ],
        "/a.css",
    );
    assert_eq!(res, "@layer x.y {\n  .b {\n    color: red;\n  }\n}\n");
}

#[test]
fn nested_supports_conditions_are_joined() {
    let res = bundle(
        &[
            ("/a.css", "@import \"b.css\" supports(color: red);"),
            ("/b.css", "@import \"c.css\" supports(foo: bar); @import \"d.css\" supports(color: red);"),
            ("/c.css", ".c { color: red }"),
            ("/d.css", ".d { color: red }"),
        ],
        "/a.css",
    );
    assert_eq!(
        res,
        dedent(
            r#"
      @supports ((color: red) and (foo: bar)) {
        .c {
          color: red;
        }
      }

      @supports (color: red) {
        .d {
          color: red;
        }
      }

      @supports (color: red) {
        
      }
    "#
        )
        .replace("{\n\n}", "{\n  \n}")
    );
}

#[test]
fn files_that_import_each_other_are_put_in_once() {
    let red = |name: &str| format!(".{} {{\n  color: red;\n}}\n", name);
    let res = bundle(
        &[
            ("/a.css", "@import \"b.css\"; .a { color: red }"),
            ("/b.css", "@import \"c.css\"; .b { color: red }"),
            ("/c.css", "@import \"b.css\"; .c { color: red }"),
        ],
        "/a.css",
    );
    assert_eq!(res, [red("c"), red("b"), red("a")].join("\n"));
    let res = bundle(
        &[
            ("/a.css", "@import \"b.css\"; @import \"b.css\"; .a { color: red }"),
            ("/b.css", "@import \"c.css\"; .b { color: red }"),
            ("/c.css", "@import \"b.css\"; .c { color: red }"),
        ],
        "/a.css",
    );
    assert_eq!(res, [red("c"), red("b"), red("a")].join("\n"));
    let res = bundle(
        &[
            ("/index.css", "@import \"a.css\";"),
            ("/a.css", "@import \"b.css\"; .a { color: red }"),
            ("/b.css", "@import \"a.css\"; .b { color: red }"),
        ],
        "/index.css",
    );
    assert_eq!(res, [red("b"), red("a")].join("\n"));
    let res = bundle(
        &[
            ("/a.css", "@import \"b.css\"; .a { color: red }"),
            ("/b.css", "@import \"b.css\"; .b { color: red }"),
        ],
        "/a.css",
    );
    assert_eq!(res, [red("b"), red("a")].join("\n"));
}

#[test]
fn files_that_import_each_other_keep_their_conditions() {
    let res = bundle(
        &[
            ("/a.css", "@import \"b.css\" print; .a { color: red }"),
            ("/b.css", "@import \"c.css\" (x); .b { color: red }"),
            ("/c.css", "@import \"b.css\" print; .c { color: red }"),
        ],
        "/a.css",
    );
    assert_eq!(
        res,
        dedent(
            r#"
      @media print and (x) {
        .c {
          color: red;
        }
      }

      @media print, print and (x) {
        .b {
          color: red;
        }
      }

      .a {
        color: red;
      }
    "#
        )
    );
}

#[test]
fn the_last_import_counts_where_files_import_each_other() {
    let red = |name: &str| format!(".{} {{\n  color: red;\n}}\n", name);
    let res = bundle(
        &[
            ("/a.css", "@import \"x.css\"; @import \"y.css\"; @import \"z.css\";"),
            ("/x.css", "@import \"z.css\"; .x { color: red }"),
            ("/y.css", ".y { color: red }"),
            ("/z.css", "@import \"x.css\"; .z { color: red }"),
        ],
        "/a.css",
    );
    assert_eq!(res, [red("y"), red("x"), red("z")].join("\n"));
}

#[test]
fn a_file_beside_a_cycle_stands_at_its_last_import() {
    let red = |name: &str| format!(".{} {{\n  color: red;\n}}\n", name);
    let res = bundle(
        &[
            ("/0.css", "@import \"1.css\";"),
            ("/1.css", "@import \"2.css\"; @import \"3.css\"; .one { color: red }"),
            ("/2.css", "@import \"3.css\"; @import \"1.css\"; .two { color: red }"),
            ("/3.css", ".three { color: red }"),
        ],
        "/0.css",
    );
    assert_eq!(res, [red("two"), red("three"), red("one")].join("\n"));
}

#[test]
fn a_file_of_a_cycle_stands_at_its_last_import_where_it_can() {
    let red = |name: &str| format!(".{} {{\n  color: red;\n}}\n", name);
    let res = bundle(
        &[
            ("/0.css", "@import \"b.css\";"),
            ("/b.css", "@import \"x.css\"; @import \"a.css\"; .b { color: red }"),
            ("/x.css", "@import \"a.css\"; .x { color: red }"),
            ("/a.css", "@import \"b.css\"; .a { color: red }"),
        ],
        "/0.css",
    );
    assert_eq!(res, [red("x"), red("a"), red("b")].join("\n"));
}

#[test]
fn files_of_two_cycles_stand_at_their_last_imports_where_they_can() {
    let red = |name: &str| format!(".{} {{\n  color: red;\n}}\n", name);
    let res = bundle(
        &[
            ("/0.css", "@import \"a.css\"; @import \"c.css\";"),
            ("/a.css", "@import \"d.css\"; @import \"b.css\"; .a { color: red }"),
            ("/b.css", "@import \"e.css\"; @import \"a.css\"; .b { color: red }"),
            ("/c.css", "@import \"d.css\"; @import \"c.css\"; .c { color: red }"),
            ("/d.css", "@import \"c.css\"; .d { color: red }"),
            ("/e.css", ".e { color: red }"),
        ],
        "/0.css",
    );
    assert_eq!(res, [red("e"), red("b"), red("a"), red("d"), red("c")].join("\n"));
}

#[test]
fn without_cycles_each_file_stands_at_its_last_import() {
    let red = |name: &str| format!(".{} {{\n  color: red;\n}}\n", name);
    let provider = fs(&[
        ("/a.css", "@import \"b.css\"; @import \"c.css\"; @import \"b.css\"; .a { color: red }"),
        ("/b.css", "@import \"d.css\"; .b { color: red }"),
        ("/c.css", "@import \"d.css\"; @import \"e.css\"; .c { color: red }"),
        ("/d.css", ".d { color: red }"),
        ("/e.css", "@import \"d.css\"; .e { color: red }"),
    ]);
    let mut bundler = Bundler::new(&provider, None, TestParser);
    let sheet = bundler.bundle("/a.css").unwrap();
    assert_eq!(
        print(&sheet, false),
        [red("d"), red("e"), red("c"), red("b"), red("a")].join("\n")
    );
    assert!(sheet.rules.0.iter().all(|rule| !matches!(rule, CssRule::Import(_))));
}

#[test]
fn the_layer_of_a_first_file_that_is_imported_comes_with_its_import() {
    let res = bundle(
        &[
            ("/a.css", "@import \"b.css\"; .a { color: red }"),
            ("/b.css", "@import \"a.css\" layer(x); .b { color: red }"),
        ],
        "/a.css",
    );
    assert_eq!(
        res,
        "@layer x {\n  \n}\n\n.b {\n  color: red;\n}\n\n.a {\n  color: red;\n}\n"
    );
}

#[test]
fn an_import_behind_other_rules_is_loaded_and_left_where_it_is() {
    let provider = fs(&[
        ("/a.css", ".a { color: red } @import \"b.css\" layer(x) supports(color: red) print;"),
        ("/b.css", ".b { color: red }"),
    ]);
    let mut bundler = Bundler::new(&provider, None, TestParser);
    let sheet = bundler.bundle("/a.css").unwrap();
    assert_eq!(sheet.sources, vec!["/a.css", "/b.css"]);
    assert_eq!(
        print(&sheet, false),
        ".a {\n  color: red;\n}\n\n@import \"b.css\" layer(x) supports(color: red) print;\n"
    );
}

struct CountingProvider {
    files: TestProvider,
    reads: AtomicUsize,
}

impl SourceProvider for CountingProvider {
    fn read(&self, file: &str) -> Result<String, String> {
        self.reads.fetch_add(1, Ordering::SeqCst);
        self.files.read(file)
    }
}

#[test]
fn a_file_that_is_loaded_is_not_read_again() {
    let provider = CountingProvider {
        files: fs(&[
            ("/a.css", "@import \"b.css\" print; @import \"c.css\"; .a { color: red }"),
            ("/b.css", ".b { color: red }"),
            ("/c.css", "@import \"b.css\" screen; .c { color: red }"),
        ]),
        reads: AtomicUsize::new(0),
    };
    let mut bundler = Bundler::new(&provider, Some(SourceMap::new("/")), TestParser);
    bundler.bundle("/a.css").unwrap();
    assert_eq!(provider.reads.load(Ordering::SeqCst), 3);
    assert_eq!(bundler.state.source_map.as_ref().unwrap().get_sources().len(), 3);
    bundler.bundle("/b.css").unwrap();
    assert_eq!(provider.reads.load(Ordering::SeqCst), 3);
    assert_eq!(bundler.state.source_map.as_ref().unwrap().get_sources().len(), 3);
    assert_eq!(bundler.state.stylesheets.len(), 3);
}

fn rules_of_each_kind() -> Vec<CssRule> {
    let loc = Location { source_index: 0, line: 1, column: 0 };
    let inner = || CssRuleList(rules(".a { color: red }", 0));
    let red = || SupportsCondition::Declaration("color: red".to_string());
    let blue = SupportsCondition::Declaration("color: blue".to_string());
    let import = |url: &str, layer, supports, media| {
        CssRule::Import(ImportRule { url: url.to_string(), layer, supports, media, loc })
    };
    let later = Location { line: 2, ..loc };
    vec![
        import("a.css", None, None, media("")),
        import("b.css", None, None, media("")),
        import("a.css", Some(None), None, media("")),
        import("a.css", Some(Some(name("x"))), None, media("")),
        import("a.css", None, Some(red()), media("")),
        import("a.css", None, None, media("print")),
        CssRule::LayerStatement(LayerStatementRule { names: vec![name("x")], loc }),
        CssRule::LayerStatement(LayerStatementRule { names: vec![name("x"), name("y")], loc }),
        CssRule::LayerBlock(LayerBlockRule { name: None, rules: inner(), loc }),
        CssRule::LayerBlock(LayerBlockRule { name: Some(name("x")), rules: inner(), loc }),
        CssRule::Media(MediaRule { query: media("print"), rules: inner(), loc }),
        CssRule::Media(MediaRule { query: media("screen"), rules: inner(), loc }),
        CssRule::Media(MediaRule { query: media("print"), rules: CssRuleList(vec![]), loc }),
        CssRule::Supports(SupportsRule { condition: red(), rules: inner(), loc }),
        CssRule::Supports(SupportsRule { condition: blue, rules: inner(), loc }),
        CssRule::Supports(SupportsRule { condition: red(), rules: inner(), loc: later }),
        CssRule::Other(PlainRule { lines: vec!["x".to_string()], loc }),
        CssRule::Other(PlainRule { lines: vec!["y".to_string()], loc }),
        CssRule::Ignored,
    ]
}

#[test]
fn rules_are_the_same_where_all_their_parts_are() {
    let a = rules_of_each_kind();
    let b = rules_of_each_kind();
    for i in 0..a.len() {
        for j in 0..b.len() {
            assert_eq!(a[i] == b[j], i == j, "{:?} {:?}", a[i], b[j]);
        }
    }
    assert!(CssRuleList(a) == CssRuleList(b));
}

#[test]
fn a_copy_of_a_rule_is_the_same_and_stands_for_itself() {
    let list = CssRuleList(rules_of_each_kind());
    let mut copy = list.clone();
    assert!(copy == list);
    copy.0.pop();
    assert!(copy != list);
    let rule = SupportsRule {
        condition: SupportsCondition::Selector("a > b".to_string()),
        rules: list,
        loc: Location { source_index: 3, line: 4, column: 5 },
    };
    let mut other = rule.clone();
    assert!(other == rule);
    other.rules.0.clear();
    assert!(other != rule);
    assert_eq!(rule.rules.0.len(), rules_of_each_kind().len());
}

#[test]
fn a_bundle_is_made_once() {
    let provider = fs(&[
        ("/a.css", "@import \"b.css\" print; .a { color: red }"),
        ("/b.css", ".b { color: red }"),
    ]);
    let mut bundler = Bundler::new(&provider, None, TestParser);
    assert!(!print(&bundler.bundle("/a.css").unwrap(), true).is_empty());
    let again = bundler.bundle("/a.css").unwrap();
    assert_eq!(again.rules.0.len(), 0);
    assert_eq!(again.sources, vec!["/a.css", "/b.css"]);
}

#[test]
fn minified_rules_have_no_blank_space() {
    let provider = fs(&[
        ("/a.css", "@layer x, y.z; @import \"b.css\" supports(color: red) print;"),
        ("/b.css", ".b { color: red }"),
    ]);
    let mut bundler = Bundler::new(&provider, None, TestParser);
    let sheet = bundler.bundle("/a.css").unwrap();
    assert_eq!(
        print(&sheet, true),
        "@layer x, y.z;@supports (color: red){@media print{.b {  color: red;}}}"
    );
}

#[test]
fn urls_are_quoted() {
    let rule = ImportRule {
        url: "a\"b\\c\n\0\u{1f}\u{7f}\u{80}.css".to_string(),
        layer: None,
        supports: Some(SupportsCondition::Selector("a > b".to_string())),
        media: MediaList::new(),
        loc: Location { source_index: 0, line: 3, column: 4 },
    };
    let mut printer = Printer::new(false);
    printer.write_str("\u{e9} ");
    rule.to_css(&mut printer);
    assert_eq!(
        printer.text(),
        "\u{e9} @import \"a\\\"b\\\\c\\a \u{fffd}\\1f \\7f \u{80}.css\" supports(selector(a > b));"
    );
    assert_eq!(printer.mappings().len(), 1);
    assert_eq!(printer.mappings()[0].offset, 3);
    assert_eq!(printer.mappings()[0].loc, Location { source_index: 0, line: 3, column: 4 });
}

#[test]
fn reasons_are_given_in_words() {
    assert_eq!(BundleErrorKind::IOError("gone".to_string()).reason(), "gone");
    assert_eq!(
        BundleErrorKind::ParserError(ParserError::EndOfInput).reason(),
        "Unexpected end of input"
    );
    assert_eq!(
        BundleErrorKind::ParserError(ParserError::Custom("odd".to_string())).reason(),
        "odd"
    );
    assert_eq!(
        BundleErrorKind::UnsupportedImportCondition.reason(),
        "Unsupported import condition"
    );
    assert_eq!(
        BundleErrorKind::UnsupportedMediaBooleanLogic.reason(),
        "Unsupported boolean logic in @import media query"
    );
    assert_eq!(
        BundleErrorKind::UnsupportedLayerCombination.reason(),
        "Unsupported layer combination in @import"
    );
    assert_eq!(BundleErrorKind::TooManyFiles.reason(), "Too many files");
}
