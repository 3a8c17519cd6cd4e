//! Python support: classes and functions found by their declaration lines,
//! their extent by indentation.
use vstd::prelude::*;
use crate::text::{trim_ws, lines_of, chars_of, trim, lines, concat, string_of};
use crate::matching::{regex_capture, regex_source, regex_valid, compile_regex, capture_group, opt_chars};
use crate::languages::{ParsedSymbol, SymbolView, symbols_view, ParseError, LanguageParser, max_parse_len};

verus! {

/// The Python language parser.
#[derive(Debug, Clone, Copy, PartialEq, Eq)]
pub struct PythonParser;

/// A class declaration line; group 1 is the class name.
pub const CLASS_PATTERN: &'static str = r"^\s*class\s+(?P<name>[a-zA-Z_][a-zA-Z0-9_]*)";

/// A function declaration line; group 1 is the function name.
pub const DEF_PATTERN: &'static str = r"^\s*(?:async\s+)?def\s+(?P<name>[a-zA-Z_][a-zA-Z0-9_]*)";

/// Indentation width: a space counts 1, a tab 4, up to the first other character.
pub open spec fn indentation(line: Seq<char>) -> int
    decreases line.len(),
{
    if line.len() > 0 && line[0] == ' ' {
        1 + indentation(line.drop_first())
    } else if line.len() > 0 && line[0] == '\t' {
        4 + indentation(line.drop_first())
    } else {
        0
    }
}

/// A line that is blank or holds only a comment.
pub open spec fn blank_or_comment(line: Seq<char>) -> bool {
    trim_ws(line).len() == 0 || trim_ws(line)[0] == '#'
}

/// Both declaration patterns compile.
pub open spec fn python_patterns_valid() -> bool {
    regex_valid(CLASS_PATTERN@) && regex_valid(DEF_PATTERN@)
}

/// The name a line declares: a class name, else a function name.
pub open spec fn declared_name(line: Seq<char>) -> Option<Seq<char>> {
    match regex_capture(CLASS_PATTERN@, line, 1) {
        Some(n) => Some(n),
        None => regex_capture(DEF_PATTERN@, line, 1),
    }
}

/// A declaration whose block has not ended yet.
pub struct OpenBlock {
    pub indent: int,
    pub name: Seq<char>,
    pub start_line: int,
}

/// The state of a scan: closed symbols, open blocks (innermost last) and the
/// last line that was neither blank nor a comment.
pub struct PyScan {
    pub symbols: Seq<SymbolView>,
    pub stack: Seq<OpenBlock>,
    pub last_line: int,
}

/// The name `local` qualified by the innermost open block: `outer::local`.
pub open spec fn qualify(stack: Seq<OpenBlock>, local: Seq<char>) -> Seq<char> {
    if stack.len() > 0 {
        stack.last().name + seq![':', ':'] + local
    } else {
        local
    }
}

/// Closes the innermost block: it ends at the last non-blank line.
pub open spec fn close_top(st: PyScan) -> PyScan {
    PyScan {
        symbols: st.symbols.push(SymbolView { name: st.stack.last().name, start_line: st.stack.last().start_line, end_line: st.last_line }),
        stack: st.stack.drop_last(),
        last_line: st.last_line,
    }
}

/// Closes the blocks indented at least as deep as `indent`.
pub open spec fn close_to(st: PyScan, indent: int) -> PyScan
    decreases st.stack.len(),
{
    if st.stack.len() > 0 && indent <= st.stack.last().indent {
        close_to(close_top(st), indent)
    } else {
        st
    }
}

/// Closes every open block.
pub open spec fn close_all(st: PyScan) -> PyScan
    decreases st.stack.len(),
{
    if st.stack.len() > 0 {
        close_all(close_top(st))
    } else {
        st
    }
}

/// One line of the scan.
pub open spec fn scan_line(st: PyScan, line_num: int, line: Seq<char>) -> PyScan {
    if blank_or_comment(line) {
        st
    } else {
        let indent = indentation(line);
        let st1 = close_to(st, indent);
        let stack = match declared_name(line) {
            Some(local) => st1.stack.push(OpenBlock { indent, name: qualify(st1.stack, local), start_line: line_num }),
            None => st1.stack,
        };
        PyScan { symbols: st1.symbols, stack, last_line: line_num }
    }
}

/// The state after the first `k` lines.
pub open spec fn scan_lines(lines: Seq<Seq<char>>, k: nat) -> PyScan
    decreases k,
{
    if k == 0 {
        PyScan { symbols: Seq::empty(), stack: Seq::empty(), last_line: 1 }
    } else {
        scan_line(scan_lines(lines, (k - 1) as nat), k as int, lines[k - 1])
    }
}

/// The symbols of a Python text, in the order their blocks close.
pub open spec fn python_symbols(content: Seq<char>) -> Seq<SymbolView> {
    let ls = lines_of(content);
    close_all(scan_lines(ls, ls.len())).symbols
}

/// Every open block starts between line 1 and the last non-blank line, and
/// every closed symbol ends at or after its start.
pub open spec fn scan_ok(st: PyScan) -> bool {
    &&& st.last_line >= 1
    &&& forall|i: int| 0 <= i < st.stack.len() ==> 1 <= #[trigger] st.stack[i].start_line <= st.last_line
    &&& forall|i: int|
        0 <= i < st.symbols.len() ==> 1 <= #[trigger] st.symbols[i].start_line <= st.symbols[i].end_line
}

proof fn lemma_close_to_ok(st: PyScan, indent: int)
    requires
        scan_ok(st),
    ensures
        scan_ok(close_to(st, indent)),
        close_to(st, indent).last_line == st.last_line,
    decreases st.stack.len(),
{
    if st.stack.len() > 0 && indent <= st.stack.last().indent {
        let nx = close_top(st);
        assert(scan_ok(nx)) by {
            assert forall|i: int| 0 <= i < nx.symbols.len() implies 1 <= #[trigger] nx.symbols[i].start_line
                <= nx.symbols[i].end_line by {
                if i < st.symbols.len() {
                    assert(nx.symbols[i] == st.symbols[i]);
                } else {
                    assert(st.stack[st.stack.len() - 1].start_line <= st.last_line);
                }
            }
            assert forall|i: int| 0 <= i < nx.stack.len() implies 1 <= #[trigger] nx.stack[i].start_line
                <= nx.last_line by {
                assert(nx.stack[i] == st.stack[i]);
            }
        }
        lemma_close_to_ok(nx, indent);
    }
}

proof fn lemma_close_all_ok(st: PyScan)
    requires
        scan_ok(st),
    ensures
        scan_ok(close_all(st)),
    decreases st.stack.len(),
{
    if st.stack.len() > 0 {
        let nx = close_top(st);
        assert(scan_ok(nx)) by {
            assert forall|i: int| 0 <= i < nx.symbols.len() implies 1 <= #[trigger] nx.symbols[i].start_line
                <= nx.symbols[i].end_line by {
                if i < st.symbols.len() {
                    assert(nx.symbols[i] == st.symbols[i]);
                } else {
                    assert(st.stack[st.stack.len() - 1].start_line <= st.last_line);
                }
            }
            assert forall|i: int| 0 <= i < nx.stack.len() implies 1 <= #[trigger] nx.stack[i].start_line
                <= nx.last_line by {
                assert(nx.stack[i] == st.stack[i]);
            }
        }
        lemma_close_all_ok(nx);
    }
}

proof fn lemma_scan_lines_ok(lines: Seq<Seq<char>>, k: nat)
    ensures
        scan_ok(scan_lines(lines, k)),
        scan_lines(lines, k).last_line <= if k == 0 { 1 } else { k as int },
    decreases k,
{
    if k > 0 {
        lemma_scan_lines_ok(lines, (k - 1) as nat);
        let st = scan_lines(lines, (k - 1) as nat);
        let line = lines[k - 1];
        if !blank_or_comment(line) {
            let indent = indentation(line);
            lemma_close_to_ok(st, indent);
            let st1 = close_to(st, indent);
            let nx = scan_line(st, k as int, line);
            assert forall|i: int| 0 <= i < nx.stack.len() implies 1 <= #[trigger] nx.stack[i].start_line
                <= nx.last_line by {
                if i < st1.stack.len() {
                    assert(nx.stack[i] == st1.stack[i]);
                }
            }
        }
    }
}

/// Every symbol that the Python scan reports starts on a line counted from 1
/// and ends on or after the line it starts on.
pub proof fn lemma_python_symbols_well_formed(content: Seq<char>)
    ensures
        forall|i: int|
            0 <= i < python_symbols(content).len() ==> 1 <= #[trigger] python_symbols(content)[i].start_line
                <= python_symbols(content)[i].end_line,
{
    let ls = lines_of(content);
    lemma_scan_lines_ok(ls, ls.len());
    lemma_close_all_ok(scan_lines(ls, ls.len()));
}

struct ActiveBlock {
    indent: usize,
    name: Vec<char>,
    start_line: usize,
}

impl View for ActiveBlock {
    type V = OpenBlock;

    closed spec fn view(&self) -> OpenBlock {
        OpenBlock { indent: self.indent as int, name: self.name@, start_line: self.start_line as int }
    }
}

spec fn blocks_view(s: Seq<ActiveBlock>) -> Seq<OpenBlock> {
    s.map_values(|b: ActiveBlock| b@)
}

proof fn lemma_indentation_bound(line: Seq<char>)
    ensures
        0 <= indentation(line) <= 4 * line.len(),
    decreases line.len(),
{
    if line.len() > 0 {
        lemma_indentation_bound(line.drop_first());
    }
}

/// Indentation width of a line.
fn get_indentation(line: &[char]) -> (r: usize)
    requires
        line@.len() <= max_parse_len(),
    ensures
        r == indentation(line@),
{
    let mut count: usize = 0;
    let mut i: usize = 0;
    assert(line@.skip(0) =~= line@);
    while i < line.len() && (line[i] == ' ' || line[i] == '\t')
        invariant
            i <= line@.len(),
            line@.len() <= max_parse_len(),
            count <= 4 * i,
            indentation(line@) == count + indentation(line@.skip(i as int)),
        decreases line.len() - i,
    {
        assert(line@.skip(i as int).drop_first() =~= line@.skip(i + 1));
        if line[i] == ' ' {
            count = count + 1;
        } else {
            count = count + 4;
        }
        i = i + 1;
    }
    count
}

/// Whether a line is blank or only a comment.
fn is_empty_or_comment(line: &[char]) -> (r: bool)
    ensures
        r == blank_or_comment(line@),
{
    let trimmed = trim(line);
    trimmed.len() == 0 || trimmed[0] == '#'
}

proof fn lemma_line_lengths(s: Seq<char>)
    ensures
        forall|i: int| 0 <= i < line_split(s).0.len() ==> #[trigger] line_split(s).0[i].len() <= s.len(),
        line_split(s).1.len() <= s.len(),
        forall|i: int| 0 <= i < lines_of(s).len() ==> #[trigger] lines_of(s)[i].len() <= s.len(),
    decreases s.len(),
{
    if s.len() > 0 {
        lemma_line_lengths(s.drop_last());
    }
}

use crate::text::line_split;

impl PythonParser {
    /// The named scopes of a Python text: each class and function, named
    /// after the blocks that enclose it, from its declaration line to the last
    /// non-blank line before a line indented no deeper. (None at all should
    /// the declaration patterns fail to compile.)
    pub fn parse_symbols(&self, content: &str) -> (r: Vec<ParsedSymbol>)
        requires
            content@.len() <= max_parse_len(),
        ensures
            symbols_view(r@) == if python_patterns_valid() {
                python_symbols(content@)
            } else {
                Seq::<SymbolView>::empty()
            },
    {
        let class_re = match compile_regex(CLASS_PATTERN) {
            Some(re) => re,
            None => {
                let v: Vec<ParsedSymbol> = Vec::new();
                assert(symbols_view(v@) =~= Seq::<SymbolView>::empty());
                return v;
            },
        };
        let def_re = match compile_regex(DEF_PATTERN) {
            Some(re) => re,
            None => {
                let v: Vec<ParsedSymbol> = Vec::new();
                assert(symbols_view(v@) =~= Seq::<SymbolView>::empty());
                return v;
            },
        };
        let text = chars_of(content);
        let ls = lines(&text);
        let ghost lv = lines_of(content@);
        assert(ls@.map_values(|l: Vec<char>| l@) == lv);
        proof {
            lemma_line_lengths(content@);
        }
        let mut symbols: Vec<ParsedSymbol> = Vec::new();
        let mut stack: Vec<ActiveBlock> = Vec::new();
        let mut last_line: usize = 1;
        let mut i: usize = 0;
        assert(symbols_view(symbols@) =~= Seq::<SymbolView>::empty());
        assert(blocks_view(stack@) =~= Seq::<OpenBlock>::empty());
        while i < ls.len()
            invariant
                i <= ls@.len(),
                lv == ls@.map_values(|l: Vec<char>| l@),
                lv.len() == ls@.len(),
                forall|j: int| 0 <= j < lv.len() ==> #[trigger] lv[j].len() <= max_parse_len(),
                regex_source(class_re) == CLASS_PATTERN@,
                regex_source(def_re) == DEF_PATTERN@,
                scan_lines(lv, i as nat) == (PyScan { symbols: symbols_view(symbols@), stack: blocks_view(stack@), last_line: last_line as int }),
            decreases ls.len() - i,
        {
            let line = &ls[i];
            assert(line@ == lv[i as int]);
            let line_num = i + 1;
            if !is_empty_or_comment(line) {
                let indent = get_indentation(line);
                let ghost st0 = PyScan { symbols: symbols_view(symbols@), stack: blocks_view(stack@), last_line: last_line as int };
                while stack.len() > 0 && indent <= stack[stack.len() - 1].indent
                    invariant
                        close_to(st0, indent as int) == close_to(PyScan { symbols: symbols_view(symbols@), stack: blocks_view(stack@), last_line: last_line as int }, indent as int),
                    decreases stack.len(),
                {
                    let ghost cur = PyScan { symbols: symbols_view(symbols@), stack: blocks_view(stack@), last_line: last_line as int };
                    let top = stack.pop().unwrap();
                    let sym = ParsedSymbol { name: string_of(&top.name), start_line: top.start_line, end_line: last_line };
                    symbols.push(sym);
                    proof {
                        assert(blocks_view(stack@) =~= cur.stack.drop_last());
                        assert(symbols_view(symbols@) =~= close_top(cur).symbols);
                    }
                }
                let ghost st1 = PyScan { symbols: symbols_view(symbols@), stack: blocks_view(stack@), last_line: last_line as int };
                assert(st1 == close_to(st0, indent as int));
                let local = match capture_group(&class_re, line, 1) {
                    Some(n) => Some(n),
                    None => capture_group(&def_re, line, 1),
                };
                assert(opt_chars(local) == declared_name(line@));
                match local {
                    Some(n) => {
                        let name = if stack.len() > 0 {
                            let sep = vec![':', ':'];
                            let outer = concat(&stack[stack.len() - 1].name, &sep);
                            concat(&outer, &n)
                        } else {
                            n
                        };
                        assert(name@ == qualify(st1.stack, n@));
                        stack.push(ActiveBlock { indent, name, start_line: line_num });
                        assert(blocks_view(stack@) =~= st1.stack.push(OpenBlock { indent: indent as int, name: qualify(st1.stack, n@), start_line: line_num as int }));
                    },
                    None => {},
                }
                last_line = line_num;
            }
            i = i + 1;
        }
        assert(lv.len() == ls@.len());
        let ghost st_end = PyScan { symbols: symbols_view(symbols@), stack: blocks_view(stack@), last_line: last_line as int };
        while stack.len() > 0
            invariant
                close_all(st_end) == close_all(PyScan { symbols: symbols_view(symbols@), stack: blocks_view(stack@), last_line: last_line as int }),
            decreases stack.len(),
        {
            let ghost cur = PyScan { symbols: symbols_view(symbols@), stack: blocks_view(stack@), last_line: last_line as int };
            let top = stack.pop().unwrap();
            let sym = ParsedSymbol { name: string_of(&top.name), start_line: top.start_line, end_line: last_line };
            symbols.push(sym);
            proof {
                assert(blocks_view(stack@) =~= cur.stack.drop_last());
                assert(symbols_view(symbols@) =~= close_top(cur).symbols);
            }
        }
        symbols
    }
}

impl LanguageParser for PythonParser {
    /// Python parsing never fails: the symbols of `parse_symbols`.
    fn parse(&self, content: &str) -> (r: Result<Vec<ParsedSymbol>, ParseError>)
        ensures
            r matches Ok(v) && symbols_view(v@) == if python_patterns_valid() {
                python_symbols(content@)
            } else {
                Seq::<SymbolView>::empty()
            },
    {
        Ok(self.parse_symbols(content))
    }
}

} // verus!
