//! The printer that rules are serialized to.
use crate::location::Location;
use vstd::prelude::*;
use vstd::string::*;
use vstd::utf8::encode_utf8;

verus! {

/// Ties a byte offset of the printed text to the place that it was printed for.
#[derive(Debug, Clone, Copy, PartialEq, Eq, Structural)]
pub struct Mapping {
    pub offset: usize,
    pub loc: Location,
}

/// Collects serialized CSS.
#[derive(Debug)]
pub struct Printer {
    text: String,
    indent: usize,
    minify: bool,
    mappings: Vec<Mapping>,
}

/// What a printer holds: the text so far, the indentation of the next line, whether
/// insignificant whitespace is left out, and the recorded mappings.
#[verifier::ext_equal]
pub struct PrinterView {
    pub text: Seq<char>,
    pub indent: usize,
    pub minify: bool,
    pub mappings: Seq<Mapping>,
}

/// `n` spaces.
pub open spec fn spaces(n: nat) -> Seq<char> {
    Seq::new(n, |i: int| ' ')
}

impl PrinterView {
    /// The printer after `s` was written.
    pub open spec fn write(self, s: Seq<char>) -> PrinterView {
        PrinterView { text: self.text + s, ..self }
    }

    /// The printer after whitespace that may be left out.
    pub open spec fn whitespace(self) -> PrinterView {
        if self.minify {
            self
        } else {
            self.write(" "@)
        }
    }

    /// The printer after the end of a line, with the next line indented.
    pub open spec fn newline(self) -> PrinterView {
        if self.minify {
            self
        } else {
            self.write("\n"@).write(spaces(self.indent as nat))
        }
    }

    /// The printer with the following lines indented by two more spaces.
    pub open spec fn indent(self) -> PrinterView {
        PrinterView {
            indent: if self.indent <= usize::MAX - 2 {
                (self.indent + 2) as usize
            } else {
                usize::MAX
            },
            ..self
        }
    }

    /// The printer with the following lines indented by two spaces less.
    pub open spec fn dedent(self) -> PrinterView {
        PrinterView {
            indent: if self.indent >= 2 {
                (self.indent - 2) as usize
            } else {
                0
            },
            ..self
        }
    }

    /// The printer with a mapping from the end of its text to `loc`.
    pub open spec fn add_mapping(self, loc: Location) -> PrinterView {
        PrinterView {
            mappings: self.mappings.push(
                Mapping { offset: encode_utf8(self.text).len() as usize, loc },
            ),
            ..self
        }
    }
}

impl View for Printer {
    type V = PrinterView;

    closed spec fn view(&self) -> PrinterView {
        PrinterView {
            text: self.text@,
            indent: self.indent,
            minify: self.minify,
            mappings: self.mappings@,
        }
    }
}

impl Printer {
    /// An empty printer.
    pub fn new(minify: bool) -> (r: Printer)
        ensures
            r@ == (PrinterView { text: Seq::empty(), indent: 0, minify, mappings: Seq::empty() }),
    {
        Printer { text: String::new(), indent: 0, minify, mappings: Vec::new() }
    }

    /// The text printed so far.
    pub fn text(&self) -> (r: &str)
        ensures
            r@ == self@.text,
    {
        self.text.as_str()
    }

    /// The recorded mappings.
    pub fn mappings(&self) -> (r: &Vec<Mapping>)
        ensures
            r@ == self@.mappings,
    {
        &self.mappings
    }

    /// Whether insignificant whitespace is left out.
    pub fn minify(&self) -> (r: bool)
        ensures
            r == self@.minify,
    {
        self.minify
    }

    /// Writes `s`.
    pub fn write_str(&mut self, s: &str)
        ensures
            final(self)@ == old(self)@.write(s@),
    {
        self.text.append(s);
    }

    /// Writes a space, unless minifying.
    pub fn whitespace(&mut self)
        ensures
            final(self)@ == old(self)@.whitespace(),
    {
        if !self.minify {
            self.write_str(" ");
        }
    }

    /// Ends the line and indents the next one, unless minifying.
    pub fn newline(&mut self)
        ensures
            final(self)@ == old(self)@.newline(),
    {
        if !self.minify {
            self.write_str("\n");
            let ghost start = self@;
            let mut k: usize = 0;
            proof {
                reveal_strlit(" ");
                assert(start.text + spaces(0) =~= start.text);
            }
            while k < self.indent
                invariant
                    k <= self.indent,
                    self@ == start.write(spaces(k as nat)),
                    " "@ =~= seq![' '],
                decreases self.indent - k,
            {
                self.write_str(" ");
                k = k + 1;
                assert(start.text + spaces((k - 1) as nat) + " "@ =~= start.text + spaces(k as nat));
            }
        }
    }

    /// Indents the following lines by two more spaces.
    pub fn indent(&mut self)
        ensures
            final(self)@ == old(self)@.indent(),
    {
        self.indent = if self.indent <= usize::MAX - 2 { self.indent + 2 } else { usize::MAX };
    }

    /// Indents the following lines by two spaces less.
    pub fn dedent(&mut self)
        ensures
            final(self)@ == old(self)@.dedent(),
    {
        self.indent = if self.indent >= 2 { self.indent - 2 } else { 0 };
    }

    /// Ties the place where the next text goes to `loc`.
    pub fn add_mapping(&mut self, loc: Location)
        ensures
            final(self)@ == old(self)@.add_mapping(loc),
    {
        let offset: usize = self.text.as_str().len();
        self.mappings.push(Mapping { offset, loc });
    }
}

} // verus!
