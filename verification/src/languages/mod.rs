//! Language support: parsers that report the named scopes of a source file.
use vstd::prelude::*;

pub mod python;
pub mod rust;

verus! {

/// A named scope of a source file and its lines.
#[derive(Debug, Clone, PartialEq)]
pub struct ParsedSymbol {
    pub name: String,
    pub start_line: usize,
    pub end_line: usize,
}

/// A parsed symbol as plain values.
pub struct SymbolView {
    pub name: Seq<char>,
    pub start_line: int,
    pub end_line: int,
}

impl View for ParsedSymbol {
    type V = SymbolView;

    open spec fn view(&self) -> SymbolView {
        SymbolView { name: self.name@, start_line: self.start_line as int, end_line: self.end_line as int }
    }
}

/// The views of a list of symbols.
pub open spec fn symbols_view(s: Seq<ParsedSymbol>) -> Seq<SymbolView> {
    s.map_values(|p: ParsedSymbol| p@)
}

/// Why a parser gave up on a file.
#[derive(Debug, Clone, PartialEq, Eq)]
pub enum ParseError {
    /// The text is not valid in the language; the message says where.
    Syntax(String),
}

/// The longest text, in characters, that a parser takes: indentation is
/// counted up to four per character, and the count must fit in a `usize`.
pub const MAX_PARSE_LEN: usize = usize::MAX / 4;

/// `MAX_PARSE_LEN` as a number.
pub open spec fn max_parse_len() -> nat {
    MAX_PARSE_LEN as nat
}

/// A parser for one language.
pub trait LanguageParser {
    /// The named scopes of the source text.
    fn parse(&self, content: &str) -> (r: Result<Vec<ParsedSymbol>, ParseError>)
        requires
            content@.len() <= max_parse_len(),
    ;
}

/// The parser registered for a file extension.
#[derive(Debug, Clone, Copy, PartialEq, Eq)]
pub enum ParserKind {
    Rust(rust::RustParser),
    Python(python::PythonParser),
}

/// The parser registered for an extension: `rs` for Rust, `py` for Python.
pub open spec fn parser_for(extension: Seq<char>) -> Option<ParserKind> {
    if extension == seq!['r', 's'] {
        Some(ParserKind::Rust(rust::RustParser))
    } else if extension == seq!['p', 'y'] {
        Some(ParserKind::Python(python::PythonParser))
    } else {
        None
    }
}

/// The parser for files with the extension, if the language is supported.
pub fn get_parser(extension: &str) -> (r: Option<ParserKind>)
    ensures
        r == parser_for(extension@),
{
    let e = crate::text::chars_of(extension);
    if e.len() == 2 && e[0] == 'r' && e[1] == 's' {
        assert(e@ =~= seq!['r', 's']);
        Some(ParserKind::Rust(rust::RustParser))
    } else if e.len() == 2 && e[0] == 'p' && e[1] == 'y' {
        assert(e@ =~= seq!['p', 'y']);
        Some(ParserKind::Python(python::PythonParser))
    } else {
        None
    }
}

} // verus!
