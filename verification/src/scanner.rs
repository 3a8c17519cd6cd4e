//! Discovery of tagged items in file contents.
use vstd::prelude::*;
use crate::config::Config;
use crate::text::{trim_start_pat, copy, concat, has_char, trim_end_matches, ends_with_exec, slice_of,
    trim_start_matches_str, trim_ws, trim_start_char, trim_end_char, ends_with, trim_char, starts_with, contains, replace_char, lines_of,
    chars_of, lines, trim, trim_start_matches, trim_matches, starts_with_exec, contains_exec, replace_char_exec,
    string_of};
use crate::matching::{regex_capture, regex_matches, regex_source, regex_valid, compile_regex, capture_group, find_all,
    opt_chars};
use crate::languages::{ParsedSymbol, SymbolView, symbols_view, ParserKind, parser_for, get_parser, max_parse_len};
use crate::languages::python::{python_symbols, python_patterns_valid, lemma_python_symbols_well_formed};

verus! {

/// Lines `start..=end` of a file, counted from 1.
#[derive(Debug, Clone, Copy, PartialEq, Eq)]
pub struct LineRange {
    pub start: usize,
    pub end: usize,
}

/// An item as found in a file, before it is placed in the graph.
#[derive(Debug, Clone, PartialEq)]
pub struct RawItem {
    pub id: String,
    pub file_path: String,
    pub line_range: LineRange,
    pub title: String,
    pub derived_from: Vec<String>,
}

/// A found item as plain values.
pub struct RawItemView {
    pub id: Seq<char>,
    pub file_path: Seq<char>,
    pub line_range: LineRange,
    pub title: Seq<char>,
    pub derived_from: Seq<Seq<char>>,
}

impl View for RawItem {
    type V = RawItemView;

    open spec fn view(&self) -> RawItemView {
        RawItemView {
            id: self.id@,
            file_path: self.file_path@,
            line_range: self.line_range,
            title: self.title@,
            derived_from: self.derived_from@.map_values(|s: String| s@),
        }
    }
}

/// The views of a list of found items.
pub open spec fn raw_items_view(items: Seq<RawItem>) -> Seq<RawItemView> {
    items.map_values(|r: RawItem| r@)
}

/// A tag `@id@`; group 1 is the whole tag, group 2 the identifier.
pub const TAG_PATTERN: &'static str = r"(?P<full>@(?P<id>[a-zA-Z0-9][a-zA-Z0-9\.\-]*)@)";

/// A link declaration `FROM: a, b`; group 1 is the list of identifiers.
pub const FROM_PATTERN: &'static str = r"FROM:\s*(@?[a-zA-Z0-9\.\-]+@?(?:\s*,\s*@?[a-zA-Z0-9\.\-]+@?)*)";

/// A line of a multi-line link list: a `//` comment indented by at least two
/// blanks, whose first word (group 1) is an identifier.
pub const LIST_PATTERN: &'static str = r"^\s*//\s{2,}([a-zA-Z0-9][a-zA-Z0-9\.\-]*)(?:\s|$)";

/// One identifier of a link list, possibly between `@` signs.
pub const ID_PATTERN: &'static str = r"@?([a-zA-Z0-9][a-zA-Z0-9\.\-]*)@?";

/// `r#"`, which opens a raw string.
pub open spec fn raw_open() -> Seq<char> {
    seq!['r', '#', '"']
}

/// `"#`, which closes a raw string.
pub open spec fn raw_close() -> Seq<char> {
    seq!['"', '#']
}

/// The line opens a raw string.
pub open spec fn opens_raw(line: Seq<char>) -> bool {
    contains(trim_ws(line), raw_open())
}

/// The line closes a raw string.
pub open spec fn closes_raw(line: Seq<char>) -> bool {
    contains(trim_ws(line), raw_close())
}

/// Inside a raw string after the first `i` lines.
pub open spec fn raw_before(lines: Seq<Seq<char>>, i: nat) -> bool
    decreases i,
{
    if i == 0 {
        false
    } else {
        let inside = raw_before(lines, (i - 1) as nat) || opens_raw(lines[i - 1]);
        inside && !closes_raw(lines[i - 1])
    }
}

/// Line `i` belongs to a raw string (or opens or closes one) and is skipped.
pub open spec fn skipped(lines: Seq<Seq<char>>, i: int) -> bool {
    raw_before(lines, i as nat) || opens_raw(lines[i])
}

/// The trimmed line is a comment (`<!--`, `//` or `/*`) holding the tag.
pub open spec fn comment_def(t: Seq<char>, full: Seq<char>) -> bool {
    (starts_with(t, seq!['<', '!', '-', '-']) || starts_with(t, seq!['/', '/']) || starts_with(t, seq!['/', '*']))
        && contains(t, full)
}

/// The trimmed line defines the tagged item rather than refers to it: a
/// comment, a `#` comment, or (in files without a parser) a line that starts
/// with the tag.
pub open spec fn is_definition(t: Seq<char>, full: Seq<char>, has_parser: bool) -> bool {
    comment_def(t, full) || (starts_with(t, seq!['#']) && contains(t, full)) || (!has_parser && starts_with(t, full))
}

/// The whole first tag of the line.
pub open spec fn tag_full(line: Seq<char>) -> Option<Seq<char>> {
    regex_capture(TAG_PATTERN@, line, 1)
}

/// The identifier of the first tag of the line.
pub open spec fn tag_id(line: Seq<char>) -> Option<Seq<char>> {
    regex_capture(TAG_PATTERN@, line, 2)
}

/// The title a heading line gives: trimmed, then leading `#`, `*` and `-`
/// removed (in that order), then trimmed again.
pub open spec fn title_text(line: Seq<char>) -> Seq<char> {
    trim_ws(trim_start_char(trim_start_char(trim_start_char(trim_ws(line), '#'), '*'), '-'))
}

/// The line starts a new tagged comment section.
pub open spec fn ends_section(line: Seq<char>) -> bool {
    match tag_full(line) {
        Some(f) => comment_def(trim_ws(line), f),
        None => false,
    }
}

/// The first line from `j` on with a non-empty title.
pub open spec fn first_title_from(lines: Seq<Seq<char>>, j: int) -> Option<int>
    decreases lines.len() - j,
{
    if j < 0 || j >= lines.len() {
        None
    } else if title_text(lines[j]).len() > 0 {
        Some(j)
    } else {
        first_title_from(lines, j + 1)
    }
}

/// The first line from `k` on that starts a new section, or the line count.
pub open spec fn section_end_from(lines: Seq<Seq<char>>, k: int) -> int
    decreases lines.len() - k,
{
    if k < 0 || k >= lines.len() {
        lines.len() as int
    } else if ends_section(lines[k]) {
        k
    } else {
        section_end_from(lines, k + 1)
    }
}

/// Title and lines of an item tagged on line `i` of a file without a parser:
/// the first non-empty line after the tag gives the title, and the section
/// runs up to the line before the next tagged comment.
pub open spec fn markdown_item(lines: Seq<Seq<char>>, i: int) -> (Seq<char>, LineRange) {
    match first_title_from(lines, i + 1) {
        Some(j) => (title_text(lines[j]), LineRange { start: (j + 1) as usize, end: section_end_from(lines, j + 1) as usize }),
        None => (Seq::empty(), LineRange { start: (i + 1) as usize, end: (i + 1) as usize }),
    }
}

/// A symbol that contains the line or starts after it.
pub open spec fn eligible(sym: SymbolView, line: int) -> bool {
    sym.start_line > line || sym.end_line >= line
}

/// The distance of a symbol from the line (0 when it contains it) and its size.
pub open spec fn sym_key(sym: SymbolView, line: int) -> (int, int) {
    (if sym.start_line <= line && sym.end_line >= line { 0 } else { sym.start_line - line }, sym.end_line - sym.start_line)
}

/// Lexicographic order of keys.
pub open spec fn key_lt(a: (int, int), b: (int, int)) -> bool {
    a.0 < b.0 || (a.0 == b.0 && a.1 < b.1)
}

/// Among the first `k` symbols, the first eligible one of least key.
pub open spec fn best_symbol(syms: Seq<SymbolView>, line: int, k: nat) -> Option<int>
    decreases k,
{
    if k == 0 {
        None
    } else {
        let b = best_symbol(syms, line, (k - 1) as nat);
        if eligible(syms[k - 1], line) && (b is None || key_lt(sym_key(syms[k - 1], line), sym_key(syms[b->0], line))) {
            Some(k - 1)
        } else {
            b
        }
    }
}

/// Title and lines of an item tagged on line `line_num` of a parsed file:
/// those of the nearest symbol that contains or follows the line.
pub open spec fn parsed_item(syms: Seq<SymbolView>, line_num: int) -> (Seq<char>, LineRange) {
    match best_symbol(syms, line_num, syms.len()) {
        Some(b) => (syms[b].name, LineRange { start: syms[b].start_line as usize, end: syms[b].end_line as usize }),
        None => (Seq::empty(), LineRange { start: line_num as usize, end: line_num as usize }),
    }
}

/// `FROM:`.
pub open spec fn from_marker() -> Seq<char> {
    seq!['F', 'R', 'O', 'M', ':']
}

/// The identifiers of the list lines from line `j` on, up to the first line
/// that is not one.
pub open spec fn list_ids(lines: Seq<Seq<char>>, j: int) -> Seq<Seq<char>>
    decreases lines.len() - j,
{
    if 0 <= j < lines.len() {
        match regex_capture(LIST_PATTERN@, lines[j], 1) {
            Some(id) => seq![id] + list_ids(lines, j + 1),
            None => Seq::empty(),
        }
    } else {
        Seq::empty()
    }
}

/// The identifiers that the item tagged on line `i` derives from: those of
/// the link declaration on the line (`FROM: a, @b@`), or, when the line has
/// `FROM:` with no identifier after it, those listed on the lines below.
pub open spec fn derived_ids(lines: Seq<Seq<char>>, i: int) -> Seq<Seq<char>> {
    match regex_capture(FROM_PATTERN@, lines[i], 1) {
        Some(tags) => regex_matches(ID_PATTERN@, tags).map_values(|m: Seq<char>| trim_char(m, '@')),
        None => if contains(lines[i], from_marker()) {
            list_ids(lines, i + 1)
        } else {
            Seq::empty()
        },
    }
}

/// The item defined on line `i`, if any.
pub open spec fn item_at(lines: Seq<Seq<char>>, syms: Option<Seq<SymbolView>>, path: Seq<char>, i: int) -> Option<RawItemView> {
    if skipped(lines, i) {
        None
    } else {
        match (tag_full(lines[i]), tag_id(lines[i])) {
            (Some(full), Some(id)) => if is_definition(trim_ws(lines[i]), full, syms is Some) {
                let (title, range) = match syms {
                    Some(s) => parsed_item(s, i + 1),
                    None => markdown_item(lines, i),
                };
                Some(RawItemView {
                    id,
                    file_path: replace_char(path, '\\', '/'),
                    line_range: range,
                    title,
                    derived_from: derived_ids(lines, i),
                })
            } else {
                None
            },
            _ => None,
        }
    }
}

/// Whether one is inside a raw string after the first `n` lines: exactly
/// when some earlier line opened one without closing it, and no line since
/// has closed it. (A line that opens and closes a raw string leaves one
/// outside.)
pub proof fn lemma_raw_state(lines: Seq<Seq<char>>, n: nat)
    requires
        n <= lines.len(),
    ensures
        raw_before(lines, n) <==> exists|o: int|
            0 <= o < n && #[trigger] opens_raw(lines[o]) && !closes_raw(lines[o]) && forall|m: int|
                o < m < n ==> !#[trigger] closes_raw(lines[m]),
    decreases n,
{
    if n > 0 {
        let k = (n - 1) as nat;
        lemma_raw_state(lines, k);
        if raw_before(lines, n) {
            if !opens_raw(lines[k as int]) {
                let o = choose|o: int|
                    0 <= o < k && #[trigger] opens_raw(lines[o]) && !closes_raw(lines[o]) && forall|m: int|
                        o < m < k ==> !#[trigger] closes_raw(lines[m]);
                assert(forall|m: int| o < m < n ==> !#[trigger] closes_raw(lines[m]));
            } else {
                assert(forall|m: int| k < m < n ==> !#[trigger] closes_raw(lines[m]));
            }
        }
        if exists|o: int|
            0 <= o < n && #[trigger] opens_raw(lines[o]) && !closes_raw(lines[o]) && forall|m: int|
                o < m < n ==> !#[trigger] closes_raw(lines[m]) {
            let o = choose|o: int|
                0 <= o < n && #[trigger] opens_raw(lines[o]) && !closes_raw(lines[o]) && forall|m: int|
                    o < m < n ==> !#[trigger] closes_raw(lines[m]);
            if o < k {
                assert(!closes_raw(lines[k as int]));
                assert(forall|m: int| o < m < k ==> !#[trigger] closes_raw(lines[m]));
            }
        }
    }
}

proof fn lemma_first_title(lines: Seq<Seq<char>>, k: int)
    requires
        0 <= k <= lines.len(),
    ensures
        match first_title_from(lines, k) {
            Some(j) => k <= j < lines.len() && title_text(lines[j]).len() > 0 && forall|m: int|
                k <= m < j ==> #[trigger] title_text(lines[m]).len() == 0,
            None => forall|m: int| k <= m < lines.len() ==> #[trigger] title_text(lines[m]).len() == 0,
        },
    decreases lines.len() - k,
{
    if k < lines.len() && title_text(lines[k]).len() == 0 {
        lemma_first_title(lines, k + 1);
    }
}

proof fn lemma_section_end(lines: Seq<Seq<char>>, k: int)
    requires
        0 <= k <= lines.len(),
    ensures
        k <= section_end_from(lines, k) <= lines.len(),
        forall|m: int| k <= m < section_end_from(lines, k) ==> !#[trigger] ends_section(lines[m]),
        section_end_from(lines, k) < lines.len() ==> ends_section(lines[section_end_from(lines, k)]),
    decreases lines.len() - k,
{
    if k < lines.len() && !ends_section(lines[k]) {
        lemma_section_end(lines, k + 1);
    }
}

/// A comment line (`<!--`, `//` or `/*`) holding a tag.
pub open spec fn tagged_comment(line: Seq<char>) -> bool {
    regex_capture(TAG_PATTERN@, line, 1) matches Some(f) && (starts_with(trim_ws(line), seq!['<', '!', '-', '-'])
        || starts_with(trim_ws(line), seq!['/', '/']) || starts_with(trim_ws(line), seq!['/', '*'])) && contains(
        trim_ws(line),
        f,
    )
}

/// What the title and line range of a tagged line's item are, in a file
/// without a parser (see `lemma_markdown_extent`).
pub open spec fn markdown_extent_ok(lines: Seq<Seq<char>>, i: int, title: Seq<char>, range: LineRange) -> bool {
    ||| exists|j: int, e: int|
        #![trigger title_text(lines[j]), lines[e]]
        i < j < e + 1 && e <= lines.len() && title_text(lines[j]).len() > 0 && (forall|m: int|
            i < m < j ==> #[trigger] title_text(lines[m]).len() == 0) && title == title_text(lines[j]) && range.start == (j
            + 1) as usize && range.end == e as usize && (forall|m: int| j < m < e ==> !#[trigger] tagged_comment(lines[m]))
            && (e < lines.len() ==> tagged_comment(lines[e]))
    ||| (forall|m: int| i < m < lines.len() ==> #[trigger] title_text(lines[m]).len() == 0) && title.len() == 0
        && range.start == (i + 1) as usize && range.end == (i + 1) as usize
}

proof fn lemma_markdown_item(lines: Seq<Seq<char>>, i: int)
    requires
        0 <= i < lines.len(),
    ensures
        markdown_extent_ok(lines, i, markdown_item(lines, i).0, markdown_item(lines, i).1),
{
    lemma_first_title(lines, i + 1);
    match first_title_from(lines, i + 1) {
        Some(j) => {
            lemma_section_end(lines, j + 1);
            let e = section_end_from(lines, j + 1);
            assert forall|m: int| j < m < e implies !#[trigger] tagged_comment(lines[m]) by {
                assert(!ends_section(lines[m]));
            }
            if e < lines.len() {
                assert(ends_section(lines[e]));
            }
            let _ = lines[e];
            assert(title_text(lines[j]).len() > 0);
        },
        None => {},
    }
}

/// In a file without a parser, an item takes its title from the first line
/// after the tag whose heading text is not empty, and its lines run from
/// there up to the line before the next comment holding a tag, or to the end
/// of the file; blank lines do not end it. With no such title line, the item
/// has no title and only the tag's line.
pub proof fn lemma_markdown_extent(lines: Seq<Seq<char>>, path: Seq<char>, i: int)
    requires
        0 <= i < lines.len(),
        item_at(lines, None, path, i) is Some,
    ensures
        markdown_extent_ok(
            lines,
            i,
            item_at(lines, None, path, i)->Some_0.title,
            item_at(lines, None, path, i)->Some_0.line_range,
        ),
{
    lemma_markdown_item(lines, i);
}

/// The items defined on the first `k` lines, in line order.
pub open spec fn scan_items(lines: Seq<Seq<char>>, syms: Option<Seq<SymbolView>>, path: Seq<char>, k: nat) -> Seq<RawItemView>
    decreases k,
{
    if k == 0 {
        Seq::empty()
    } else {
        scan_items(lines, syms, path, (k - 1) as nat) + match item_at(lines, syms, path, k - 1) {
            Some(it) => seq![it],
            None => Seq::empty(),
        }
    }
}

/// The items a file's text defines.
pub open spec fn scanned_items(content: Seq<char>, syms: Option<Seq<SymbolView>>, path: Seq<char>) -> Seq<RawItemView> {
    scan_items(lines_of(content), syms, path, lines_of(content).len())
}

fn comment_def_exec(t: &[char], full: &[char]) -> (r: bool)
    ensures
        r == comment_def(t@, full@),
{
    let html = vec!['<', '!', '-', '-'];
    let line_c = vec!['/', '/'];
    let block_c = vec!['/', '*'];
    assert(html@ =~= seq!['<', '!', '-', '-']);
    assert(line_c@ =~= seq!['/', '/']);
    assert(block_c@ =~= seq!['/', '*']);
    (starts_with_exec(t, &html) || starts_with_exec(t, &line_c) || starts_with_exec(t, &block_c))
        && contains_exec(t, full)
}

fn definition_exec(t: &[char], full: &[char], has_parser: bool) -> (r: bool)
    ensures
        r == is_definition(t@, full@, has_parser),
{
    let hash = vec!['#'];
    assert(hash@ =~= seq!['#']);
    comment_def_exec(t, full) || (starts_with_exec(t, &hash) && contains_exec(t, full))
        || (!has_parser && starts_with_exec(t, full))
}

/// The title a heading line gives.
fn title_of(line: &[char]) -> (r: Vec<char>)
    ensures
        r@ == title_text(line@),
{
    let a = trim(line);
    let b = trim_start_matches(&a, '#');
    let c = trim_start_matches(&b, '*');
    let d = trim_start_matches(&c, '-');
    trim(&d)
}

/// Title and lines of a tagged item in a file without a parser.
fn markdown_extent(ls: &Vec<Vec<char>>, section_start: &Vec<bool>, i: usize, Ghost(lv): Ghost<Seq<Seq<char>>>) -> (r: (Vec<char>, LineRange))
    requires
        lv == ls@.map_values(|l: Vec<char>| l@),
        section_start@.len() == lv.len(),
        forall|k: int| 0 <= k < lv.len() ==> section_start@[k] == ends_section(lv[k]),
        i < lv.len(),
    ensures
        (r.0@, r.1) == markdown_item(lv, i as int),
{
    let n = ls.len();
    let mut j: usize = i + 1;
    while j < n
        invariant
            lv == ls@.map_values(|l: Vec<char>| l@),
            n == lv.len(),
            i < j <= n,
            section_start@.len() == lv.len(),
            forall|k: int| 0 <= k < lv.len() ==> section_start@[k] == ends_section(lv[k]),
            first_title_from(lv, i + 1) == first_title_from(lv, j as int),
        decreases n - j,
    {
        let title = title_of(&ls[j]);
        assert(ls@[j as int]@ == lv[j as int]);
        if title.len() > 0 {
            let mut end: usize = j + 1;
            let mut k: usize = j + 1;
            while k < n && !section_start[k]
                invariant
                    n == lv.len(),
                    section_start@.len() == lv.len(),
                    forall|q: int| 0 <= q < lv.len() ==> section_start@[q] == ends_section(lv[q]),
                    j < k <= n,
                    section_end_from(lv, j + 1) == section_end_from(lv, k as int),
                decreases n - k,
            {
                k = k + 1;
            }
            assert(section_end_from(lv, k as int) == k);
            assert(first_title_from(lv, j as int) == Some(j as int));
            return (title, LineRange { start: j + 1, end: k });
        }
        j = j + 1;
    }
    (Vec::new(), LineRange { start: i + 1, end: i + 1 })
}

/// The first eligible symbol of least key.
fn best_symbol_exec(syms: &Vec<ParsedSymbol>, line: usize) -> (r: Option<usize>)
    requires
        forall|k: int| 0 <= k < syms@.len() ==> syms@[k].start_line <= syms@[k].end_line,
    ensures
        match r {
            Some(b) => b < syms@.len() && best_symbol(symbols_view(syms@), line as int, syms@.len()) == Some(b as int),
            None => best_symbol(symbols_view(syms@), line as int, syms@.len()) is None,
        },
{
    let ghost sv = symbols_view(syms@);
    let mut best: Option<usize> = None;
    let mut best_d: usize = 0;
    let mut best_s: usize = 0;
    let mut k: usize = 0;
    while k < syms.len()
        invariant
            k <= syms@.len(),
            sv == symbols_view(syms@),
            forall|q: int| 0 <= q < syms@.len() ==> syms@[q].start_line <= syms@[q].end_line,
            match best {
                Some(b) => b < k && best_symbol(sv, line as int, k as nat) == Some(b as int)
                    && sym_key(sv[b as int], line as int) == (best_d as int, best_s as int),
                None => best_symbol(sv, line as int, k as nat) is None,
            },
        decreases syms.len() - k,
    {
        let st = syms[k].start_line;
        let en = syms[k].end_line;
        assert(sv[k as int].start_line == st && sv[k as int].end_line == en);
        if st > line || en >= line {
            let d: usize = if st <= line && en >= line { 0 } else { st - line };
            let sz: usize = en - st;
            let better = match best {
                None => true,
                Some(_) => d < best_d || (d == best_d && sz < best_s),
            };
            if better {
                best = Some(k);
                best_d = d;
                best_s = sz;
            }
        }
        k = k + 1;
    }
    best
}

/// The compiled tag, link-list and identifier patterns.
struct TagPatterns {
    tag: regex::Regex,
    from: regex::Regex,
    id: regex::Regex,
    list: regex::Regex,
}

impl TagPatterns {
    /// Each pattern was compiled from its constant.
    spec fn compiled(&self) -> bool {
        &&& regex_source(self.tag) == TAG_PATTERN@
        &&& regex_source(self.from) == FROM_PATTERN@
        &&& regex_source(self.id) == ID_PATTERN@
        &&& regex_source(self.list) == LIST_PATTERN@
    }
}

/// The identifiers listed on the lines from `j` on (see `list_ids`).
fn list_from(pats: &TagPatterns, ls: &Vec<Vec<char>>, j: usize, Ghost(lv): Ghost<Seq<Seq<char>>>) -> (r: Vec<String>)
    requires
        pats.compiled(),
        lv == ls@.map_values(|l: Vec<char>| l@),
        j <= ls@.len(),
    ensures
        r@.map_values(|s: String| s@) == list_ids(lv, j as int),
{
    let mut out: Vec<String> = Vec::new();
    let mut k: usize = j;
    let mut going = true;
    while going && k < ls.len()
        invariant
            pats.compiled(),
            lv == ls@.map_values(|l: Vec<char>| l@),
            j <= k <= ls@.len(),
            going ==> out@.map_values(|s: String| s@) + list_ids(lv, k as int) == list_ids(lv, j as int),
            !going ==> out@.map_values(|s: String| s@) == list_ids(lv, j as int),
        decreases ls.len() - k + if going { 1int } else { 0int },
    {
        assert(ls@[k as int]@ == lv[k as int]);
        match capture_group(&pats.list, &ls[k], 1) {
            Some(id) => {
                let ghost before = out@.map_values(|s: String| s@);
                out.push(string_of(&id));
                assert(out@.map_values(|s: String| s@) =~= before.push(id@));
                assert(list_ids(lv, k as int) == seq![id@] + list_ids(lv, k + 1));
                assert(before + list_ids(lv, k as int) =~= before.push(id@) + list_ids(lv, k + 1));
                k = k + 1;
            },
            None => {
                assert(list_ids(lv, k as int) == Seq::<Seq<char>>::empty());
                assert(out@.map_values(|s: String| s@) + Seq::<Seq<char>>::empty() =~= out@.map_values(|s: String| s@));
                going = false;
            },
        }
    }
    if going {
        assert(list_ids(lv, k as int) == Seq::<Seq<char>>::empty());
        assert(out@.map_values(|s: String| s@) + Seq::<Seq<char>>::empty() =~= out@.map_values(|s: String| s@));
    }
    out
}

/// The identifiers that the item tagged on line `i` derives from.
fn derived_list(pats: &TagPatterns, ls: &Vec<Vec<char>>, i: usize, Ghost(lv): Ghost<Seq<Seq<char>>>) -> (r: Vec<String>)
    requires
        pats.compiled(),
        lv == ls@.map_values(|l: Vec<char>| l@),
        i < ls@.len(),
    ensures
        r@.map_values(|s: String| s@) == derived_ids(lv, i as int),
{
    let n = ls.len();
    let line = &ls[i];
    assert(line@ == lv[i as int]);
    let mut out: Vec<String> = Vec::new();
    match capture_group(&pats.from, line, 1) {
        Some(tags) => {
            let ms = find_all(&pats.id, &tags);
            let ghost mv = ms@.map_values(|m: Vec<char>| m@);
            let mut k: usize = 0;
            while k < ms.len()
                invariant
                    k <= ms@.len(),
                    mv == ms@.map_values(|m: Vec<char>| m@),
                    mv == regex_matches(ID_PATTERN@, tags@),
                    out@.map_values(|s: String| s@) =~= mv.take(k as int).map_values(|m: Seq<char>| trim_char(m, '@')),
                decreases ms.len() - k,
            {
                let t = trim_matches(&ms[k], '@');
                assert(ms@[k as int]@ == mv[k as int]);
                let ghost before = out@.map_values(|s: String| s@);
                out.push(string_of(&t));
                assert(out@.map_values(|s: String| s@) =~= before.push(trim_char(mv[k as int], '@')));
                assert(mv.take(k + 1) =~= mv.take(k as int).push(mv[k as int]));
                assert(mv.take(k + 1).map_values(|m: Seq<char>| trim_char(m, '@')) =~= mv.take(k as int).map_values(|m: Seq<char>| trim_char(m, '@')).push(trim_char(mv[k as int], '@')));
                k = k + 1;
            }
            assert(mv.take(ms@.len() as int) =~= mv);
        },
        None => {
            let marker = vec!['F', 'R', 'O', 'M', ':'];
            assert(marker@ =~= from_marker());
            if contains_exec(line, &marker) {
                assert(i < n);
                return list_from(pats, ls, i + 1, Ghost(lv));
            }
            assert(out@.map_values(|s: String| s@) =~= Seq::<Seq<char>>::empty());
        },
    }
    out
}

/// The views of optional parser output.
pub open spec fn opt_symbols(p: Option<Vec<ParsedSymbol>>) -> Option<Seq<SymbolView>> {
    match p {
        Some(v) => Some(symbols_view(v@)),
        None => None,
    }
}

/// Parser output in which every symbol ends at or after its start.
pub open spec fn well_formed_symbols(p: Option<Vec<ParsedSymbol>>) -> bool {
    p matches Some(v) ==> forall|k: int| 0 <= k < v@.len() ==> v@[k].start_line <= v@[k].end_line
}

/// The items that the text of file `path` defines: `parsed` is the output of
/// the file's language parser, or `None` when its language has no parser.
fn scan_text(pats: &TagPatterns, path: &str, content: &str, parsed: Option<Vec<ParsedSymbol>>) -> (r: Vec<RawItem>)
    requires
        pats.compiled(),
        well_formed_symbols(parsed),
    ensures
        raw_items_view(r@) == scanned_items(content@, opt_symbols(parsed), path@),
{
    let text = chars_of(content);
    let ls = lines(&text);
    let ghost lv = lines_of(content@);
    let n = ls.len();
    let mut fulls: Vec<Option<Vec<char>>> = Vec::new();
    let mut section_start: Vec<bool> = Vec::new();
    let mut k: usize = 0;
    while k < n
        invariant
            pats.compiled(),
            n == ls@.len(),
            lv == ls@.map_values(|l: Vec<char>| l@),
            k <= n,
            fulls@.len() == k,
            section_start@.len() == k,
            forall|q: int| 0 <= q < k ==> opt_chars(#[trigger] fulls@[q]) == tag_full(lv[q]),
            forall|q: int| 0 <= q < k ==> #[trigger] section_start@[q] == ends_section(lv[q]),
        decreases n - k,
    {
        assert(ls@[k as int]@ == lv[k as int]);
        let full = capture_group(&pats.tag, &ls[k], 1);
        let trimmed = trim(&ls[k]);
        let starts = match &full {
            Some(f) => comment_def_exec(&trimmed, f),
            None => false,
        };
        fulls.push(full);
        section_start.push(starts);
        k = k + 1;
    }
    let has_parser = parsed.is_some();
    let ghost syms_view = opt_symbols(parsed);
    let syms: Vec<ParsedSymbol> = match parsed {
        Some(v) => v,
        None => Vec::new(),
    };
    let portable = string_of(&replace_char_exec(&chars_of(path), '\\', '/'));
    let open_pat = vec!['r', '#', '"'];
    let close_pat = vec!['"', '#'];
    assert(open_pat@ =~= raw_open());
    assert(close_pat@ =~= raw_close());
    let mut items: Vec<RawItem> = Vec::new();
    let mut in_raw = false;
    let mut i: usize = 0;
    assert(raw_items_view(items@) =~= Seq::<RawItemView>::empty());
    while i < n
        invariant
            pats.compiled(),
            n == ls@.len(),
            lv == ls@.map_values(|l: Vec<char>| l@),
            lv.len() == n,
            i <= n,
            fulls@.len() == n,
            section_start@.len() == n,
            forall|q: int| 0 <= q < n ==> opt_chars(#[trigger] fulls@[q]) == tag_full(lv[q]),
            forall|q: int| 0 <= q < n ==> #[trigger] section_start@[q] == ends_section(lv[q]),
            has_parser == syms_view is Some,
            syms_view matches Some(sv) ==> sv == symbols_view(syms@),
            forall|q: int| 0 <= q < syms@.len() ==> syms@[q].start_line <= syms@[q].end_line,
            portable@ == replace_char(path@, '\\', '/'),
            open_pat@ == raw_open(),
            close_pat@ == raw_close(),
            in_raw == raw_before(lv, i as nat),
            raw_items_view(items@) == scan_items(lv, syms_view, path@, i as nat),
        decreases n - i,
    {
        let line = &ls[i];
        assert(line@ == lv[i as int]);
        let trimmed = trim(line);
        if contains_exec(&trimmed, &open_pat) {
            in_raw = true;
        }
        let ghost before = raw_items_view(items@);
        if in_raw && contains_exec(&trimmed, &close_pat) {
            in_raw = false;
            assert(item_at(lv, syms_view, path@, i as int) is None);
        } else if in_raw {
            assert(item_at(lv, syms_view, path@, i as int) is None);
        } else {
            let id = capture_group(&pats.tag, line, 2);
            match (&fulls[i], id) {
                (Some(full), Some(id)) => {
                    if definition_exec(&trimmed, full, has_parser) {
                        let line_num = i + 1;
                        let (title, range): (String, LineRange) = if has_parser {
                            match best_symbol_exec(&syms, line_num) {
                                Some(b) => (syms[b].name.clone(), LineRange { start: syms[b].start_line, end: syms[b].end_line }),
                                None => (String::new(), LineRange { start: line_num, end: line_num }),
                            }
                        } else {
                            let (t, rg) = markdown_extent(&ls, &section_start, i, Ghost(lv));
                            (string_of(&t), rg)
                        };
                        let derived_from = derived_list(pats, &ls, i, Ghost(lv));
                        let item = RawItem {
                            id: string_of(&id),
                            file_path: portable.clone(),
                            line_range: range,
                            title,
                            derived_from,
                        };
                        items.push(item);
                        assert(raw_items_view(items@) =~= before.push(item_at(lv, syms_view, path@, i as int)->Some_0));
                    } else {
                        assert(item_at(lv, syms_view, path@, i as int) is None);
                    }
                },
                _ => {
                    assert(item_at(lv, syms_view, path@, i as int) is None);
                },
            }
        }
        assert(raw_items_view(items@) =~= scan_items(lv, syms_view, path@, (i + 1) as nat));
        i = i + 1;
    }
    items
}

/// `globset::Glob`.
#[verifier::external_type_specification]
#[verifier::external_body]
pub struct ExGlob(globset::Glob);

/// `globset::GlobSetBuilder`.
#[verifier::external_type_specification]
#[verifier::external_body]
pub struct ExGlobSetBuilder(globset::GlobSetBuilder);

/// `globset::GlobSet`.
#[verifier::external_type_specification]
#[verifier::external_body]
pub struct ExGlobSet(globset::GlobSet);

/// `globset::Error`.
#[verifier::external_type_specification]
#[verifier::external_body]
pub struct ExGlobError(globset::Error);

/// The patterns added to a builder, in order.
pub uninterp spec fn builder_globs(b: globset::GlobSetBuilder) -> Seq<Seq<char>>;

/// The patterns of a built set, in order.
pub uninterp spec fn set_globs(s: globset::GlobSet) -> Seq<Seq<char>>;

/// `globset::GlobSetBuilder::build` succeeds on a builder holding globs made
/// (with default options) from these pattern texts, in this order.
pub uninterp spec fn set_builds(patterns: Seq<Seq<char>>) -> bool;

/// `globset::Glob::new` accepts the pattern.
pub uninterp spec fn glob_valid(pattern: Seq<char>) -> bool;

/// The pattern text a `globset::Glob` was made from.
pub uninterp spec fn glob_text(g: globset::Glob) -> Seq<char>;

/// The glob pattern matches the path, as a `globset::Glob` compiled from it
/// decides.
pub uninterp spec fn glob_matches(pattern: Seq<char>, path: Seq<char>) -> bool;

/// `globset::GlobSetBuilder::new`: a builder with no patterns.
#[verifier::external_body]
fn new_builder() -> (b: globset::GlobSetBuilder)
    ensures
        builder_globs(b) == Seq::<Seq<char>>::empty(),
{
    globset::GlobSetBuilder::new()
}

/// `globset::Glob::new`: succeeds exactly on the patterns named valid, and
/// the glob keeps the text it was made from (`Glob::glob` gives it back).
#[verifier::external_body]
fn new_glob(pattern: &[char]) -> (r: Result<globset::Glob, globset::Error>)
    ensures
        r is Ok <==> glob_valid(pattern@),
        r matches Ok(g) ==> glob_text(g) == pattern@,
{
    let text: String = pattern.iter().collect();
    globset::Glob::new(&text)
}

/// `globset::GlobSetBuilder::add`: the glob is appended to the builder's
/// patterns.
#[verifier::external_body]
fn add_glob(b: &mut globset::GlobSetBuilder, g: globset::Glob)
    ensures
        builder_globs(*final(b)) == builder_globs(*old(b)).push(glob_text(g)),
{
    b.add(g);
}

/// `globset::GlobSetBuilder::build`: a set of the added patterns, or an error
/// when they cannot be compiled together. Whether it succeeds depends on the
/// added patterns alone, and is named `set_builds`.
#[verifier::external_body]
fn build_set(b: &globset::GlobSetBuilder) -> (r: Result<globset::GlobSet, globset::Error>)
    ensures
        r is Ok <==> set_builds(builder_globs(*b)),
        r matches Ok(s) ==> set_globs(s) == builder_globs(*b),
{
    b.build()
}

/// `globset::GlobSet::is_match`: whether any pattern of the set matches the
/// path, as its documentation states.
#[verifier::external_body]
fn set_is_match(s: &globset::GlobSet, path: &[char]) -> (r: bool)
    ensures
        r == (exists|i: int| 0 <= i < set_globs(*s).len() && glob_matches(#[trigger] set_globs(*s)[i], path@)),
{
    let text: String = path.iter().collect();
    s.is_match(&text)
}

/// The message of a glob error (`Display` of `globset::Error`).
#[verifier::external_body]
fn glob_error_message(e: &globset::Error) -> String {
    e.to_string()
}

/// Why a scanner could not be set up.
#[derive(Debug, Clone, PartialEq, Eq)]
pub enum ScanError {
    /// The ignore patterns could not be compiled together; the message says why.
    IgnorePatterns(String),
    /// A tag pattern (given) is not a valid regular expression.
    InvalidPattern(String),
}

/// `**/` + `s`.
pub open spec fn anywhere(s: Seq<char>) -> Seq<char> {
    seq!['*', '*', '/'] + s
}

/// `s` + `/**`.
pub open spec fn below(s: Seq<char>) -> Seq<char> {
    s + seq!['/', '*', '*']
}

/// The globs one ignore entry stands for: the entry itself (trimmed, with
/// `\` written `/`); the same anywhere in the tree when it has no `/`; and,
/// for a name without a trailing `*`, everything below it, wherever it is,
/// and the name anywhere; for `dir/**` or `dir/*`, the directory itself,
/// here and anywhere.
pub open spec fn candidate_globs(raw: Seq<char>) -> Seq<Seq<char>> {
    let pat = replace_char(trim_ws(raw), '\\', '/');
    if pat.len() == 0 {
        Seq::empty()
    } else {
        let base = if !pat.contains('/') {
            seq![pat, anywhere(pat)]
        } else {
            seq![pat]
        };
        let trimmed = trim_end_char(pat, '/');
        let rest = if !ends_with(trimmed, seq!['*']) {
            seq![below(trimmed), anywhere(below(trim_start_char(trimmed, '/'))), anywhere(trim_start_char(trimmed, '/'))]
        } else if ends_with(pat, seq!['/', '*', '*']) || ends_with(pat, seq!['/', '*']) {
            let dir = trim_end_char(trim_end_char(pat, '*'), '/');
            if dir.len() > 0 {
                seq![dir, anywhere(trim_start_char(dir, '/'))]
            } else {
                Seq::empty()
            }
        } else {
            Seq::empty()
        };
        base + rest
    }
}

/// An ignore entry written with a trailing `/` covers the same subtree as
/// the entry without it: for a name `d` (not ending in `/` or `*`), the
/// globs of `d/` and those of `d` both hold `d/**`, and, with `d`'s leading
/// `/` removed, `**/d/**` and `**/d`.
pub proof fn lemma_trailing_slash_entry(raw: Seq<char>, d: Seq<char>)
    requires
        d.len() > 0,
        d.last() != '/',
        d.last() != '*',
        !d.contains('\\'),
        trim_ws(d) == d,
        trim_ws(raw) == d + seq!['/'],
    ensures
        candidate_globs(raw).contains(d + seq!['/', '*', '*']),
        candidate_globs(raw).contains(seq!['*', '*', '/'] + trim_start_char(d, '/') + seq!['/', '*', '*']),
        candidate_globs(raw).contains(seq!['*', '*', '/'] + trim_start_char(d, '/')),
        candidate_globs(d).contains(d + seq!['/', '*', '*']),
        candidate_globs(d).contains(seq!['*', '*', '/'] + trim_start_char(d, '/') + seq!['/', '*', '*']),
        candidate_globs(d).contains(seq!['*', '*', '/'] + trim_start_char(d, '/')),
{
    let ds = d + seq!['/'];
    assert(replace_char(ds, '\\', '/') =~= ds) by {
        assert forall|k: int| 0 <= k < ds.len() implies ds[k] != '\\' by {
            if k < d.len() {
                assert(d.contains(d[k]));
            }
        }
    }
    assert(replace_char(d, '\\', '/') =~= d) by {
        assert forall|k: int| 0 <= k < d.len() implies d[k] != '\\' by {
            assert(d.contains(d[k]));
        }
    }
    assert(ds.drop_last() =~= d);
    assert(trim_end_char(d, '/') == d);
    assert(ds.last() == '/');
    assert(trim_end_char(ds, '/') == trim_end_char(ds.drop_last(), '/'));
    assert(trim_end_char(ds, '/') == d);
    assert(d.skip(d.len() - 1) =~= seq![d.last()]);
    assert(!ends_with(d, seq!['*'])) by {
        if ends_with(d, seq!['*']) {
            assert(d.skip(d.len() - 1)[0] == seq!['*'][0]);
        }
    }
    let t = trim_start_char(d, '/');
    let g = candidate_globs(raw);
    let h = candidate_globs(d);
    let n1 = g.len() - 3;
    assert(g[n1] == d + seq!['/', '*', '*']);
    assert(g[n1 + 1] == seq!['*', '*', '/'] + t + seq!['/', '*', '*']) by {
        assert(seq!['*', '*', '/'] + (t + seq!['/', '*', '*']) =~= seq!['*', '*', '/'] + t + seq!['/', '*', '*']);
    }
    assert(g[n1 + 2] == seq!['*', '*', '/'] + t);
    let n2 = h.len() - 3;
    assert(h[n2] == d + seq!['/', '*', '*']);
    assert(h[n2 + 1] == seq!['*', '*', '/'] + t + seq!['/', '*', '*']) by {
        assert(seq!['*', '*', '/'] + (t + seq!['/', '*', '*']) =~= seq!['*', '*', '/'] + t + seq!['/', '*', '*']);
    }
    assert(h[n2 + 2] == seq!['*', '*', '/'] + t);
}

/// The valid globs among `cands`, in order.
pub open spec fn valid_globs(cands: Seq<Seq<char>>) -> Seq<Seq<char>>
    decreases cands.len(),
{
    if cands.len() == 0 {
        Seq::empty()
    } else {
        valid_globs(cands.drop_last()) + if glob_valid(cands.last()) {
            seq![cands.last()]
        } else {
            Seq::empty()
        }
    }
}

/// The globs installed for a list of ignore entries.
pub open spec fn ignore_globs(entries: Seq<Seq<char>>) -> Seq<Seq<char>>
    decreases entries.len(),
{
    if entries.len() == 0 {
        Seq::empty()
    } else {
        ignore_globs(entries.drop_last()) + valid_globs(candidate_globs(entries.last()))
    }
}

/// The ignore entries of a configuration.
pub open spec fn ignore_entries(config: Config) -> Seq<Seq<char>> {
    match config.paths.ignore {
        Some(v) => v@.map_values(|s: String| s@),
        None => Seq::empty(),
    }
}

/// The last component of a path as `std::path::Path::file_name` gives it on
/// Unix: trailing `/` and `.` components are skipped; none for `..`, `.` or
/// an empty path.
pub open spec fn file_name_of(p: Seq<char>) -> Option<Seq<char>>
    decreases p.len(),
{
    let t = trim_end_char(p, '/');
    if t.len() == 0 {
        None
    } else {
        proof {
            lemma_trim_end_char_len(p, '/');
            lemma_last_index(t, '/');
        }
        let cut = last_index(t, '/');
        let last = t.skip(cut + 1);
        if last == seq!['.'] {
            if cut < 0 {
                None
            } else {
                file_name_of(t.take(cut))
            }
        } else if last == seq!['.', '.'] {
            None
        } else {
            Some(last)
        }
    }
}

pub proof fn lemma_trim_end_char_len(s: Seq<char>, c: char)
    ensures
        trim_end_char(s, c).len() <= s.len(),
    decreases s.len(),
{
    if s.len() > 0 && s.last() == c {
        lemma_trim_end_char_len(s.drop_last(), c);
    }
}

pub proof fn lemma_last_index(t: Seq<char>, c: char)
    ensures
        -1 <= last_index(t, c) < t.len(),
        last_index(t, c) >= 0 ==> t[last_index(t, c)] == c,
        forall|k: int| last_index(t, c) < k < t.len() ==> t[k] != c,
    decreases t.len(),
{
    if t.len() > 0 && t.last() != c {
        lemma_last_index(t.drop_last(), c);
        assert forall|k: int| last_index(t, c) < k < t.len() implies t[k] != c by {
            if k < t.len() - 1 {
                assert(t.drop_last()[k] == t[k]);
            }
        }
    }
}

/// The position of the last `c` in `t`, or -1.
pub open spec fn last_index(t: Seq<char>, c: char) -> int
    decreases t.len(),
{
    if t.len() == 0 {
        -1
    } else if t.last() == c {
        t.len() - 1
    } else {
        last_index(t.drop_last(), c)
    }
}

/// The extension of a path as `std::path::Path::extension` gives it: what
/// follows the last `.` of the file name, unless that `.` starts the name
/// or there is none.
pub open spec fn extension_of(p: Seq<char>) -> Option<Seq<char>> {
    match file_name_of(p) {
        Some(name) => {
            let d = last_index(name, '.');
            if d <= 0 {
                None
            } else {
                Some(name.skip(d + 1))
            }
        },
        None => None,
    }
}

/// The extension of a path (see `extension_of`).
pub fn extension(path: &str) -> (r: Option<Vec<char>>)
    ensures
        opt_chars(r) == extension_of(path@),
{
    match file_name_exec(&chars_of(path)) {
        Some(name) => {
            proof {
                lemma_last_index(name@, '.');
            }
            let mut j: usize = name.len();
            while j > 0 && name[j - 1] != '.'
                invariant
                    j <= name@.len(),
                    forall|k: int| j <= k < name@.len() ==> name@[k] != '.',
                decreases j,
            {
                j = j - 1;
            }
            assert(last_index(name@, '.') == j - 1);
            if j <= 1 {
                None
            } else {
                let e = slice_of(&name, j, name.len());
                assert(e@ =~= name@.skip(j as int));
                Some(e)
            }
        },
        None => None,
    }
}

/// The extension of a path, or nothing when it has none.
pub open spec fn extension_text(p: Seq<char>) -> Seq<char> {
    match extension_of(p) {
        Some(e) => e,
        None => Seq::empty(),
    }
}

/// The parser output a file is scanned with: none for a file whose
/// extension has no parser, the Python scan of its text for a Python file,
/// and `rust` for a Rust file.
pub open spec fn file_symbols(path: Seq<char>, content: Seq<char>, rust: Seq<SymbolView>) -> Option<Seq<SymbolView>> {
    match parser_for(extension_text(path)) {
        Some(ParserKind::Python(_)) => Some(
            if python_patterns_valid() {
                python_symbols(content)
            } else {
                Seq::empty()
            },
        ),
        Some(ParserKind::Rust(_)) => Some(rust),
        None => None,
    }
}

/// The parser for the file at `path`, chosen by its extension (a file
/// without one has none).
pub fn parser_for_path(path: &str) -> (r: Option<ParserKind>)
    ensures
        r == parser_for(extension_text(path@)),
{
    let ext = match extension(path) {
        Some(e) => string_of(&e),
        None => String::new(),
    };
    get_parser(ext.as_str())
}

/// Some pattern of the list matches the path.
pub open spec fn any_glob_matches(globs: Seq<Seq<char>>, path: Seq<char>) -> bool {
    exists|i: int| 0 <= i < globs.len() && glob_matches(#[trigger] globs[i], path)
}

/// A path is ignored when a pattern matches it (with `\` written `/` and
/// leading `./` dropped) or matches its file name.
pub open spec fn ignored_by(globs: Seq<Seq<char>>, path: Seq<char>) -> bool {
    let clean = trim_start_pat(replace_char(path, '\\', '/'), seq!['.', '/']);
    any_glob_matches(globs, clean) || match file_name_of(path) {
        Some(name) => any_glob_matches(globs, name),
        None => false,
    }
}

/// The globs that one ignore entry stands for, in the order they are tried.
fn entry_globs(raw: &str) -> (r: Vec<Vec<char>>)
    ensures
        r@.map_values(|g: Vec<char>| g@) == candidate_globs(raw@),
{
    let pat = replace_char_exec(&trim(&chars_of(raw)), '\\', '/');
    let mut r: Vec<Vec<char>> = Vec::new();
    if pat.len() == 0 {
        assert(r@.map_values(|g: Vec<char>| g@) =~= candidate_globs(raw@));
        return r;
    }
    let star_star_slash = vec!['*', '*', '/'];
    let slash_star_star = vec!['/', '*', '*'];
    let slash_star = vec!['/', '*'];
    let star = vec!['*'];
    assert(star_star_slash@ =~= seq!['*', '*', '/']);
    assert(slash_star_star@ =~= seq!['/', '*', '*']);
    assert(slash_star@ =~= seq!['/', '*']);
    assert(star@ =~= seq!['*']);
    r.push(copy(&pat));
    if !has_char(&pat, '/') {
        r.push(concat(&star_star_slash, &pat));
    }
    let trimmed = trim_end_matches(&pat, '/');
    if !ends_with_exec(&trimmed, &star) {
        let bare = trim_start_matches(&trimmed, '/');
        r.push(concat(&trimmed, &slash_star_star));
        r.push(concat(&star_star_slash, &concat(&bare, &slash_star_star)));
        r.push(concat(&star_star_slash, &bare));
    } else if ends_with_exec(&pat, &slash_star_star) || ends_with_exec(&pat, &slash_star) {
        let dir = trim_end_matches(&trim_end_matches(&pat, '*'), '/');
        if dir.len() > 0 {
            let bare = trim_start_matches(&dir, '/');
            r.push(copy(&dir));
            r.push(concat(&star_star_slash, &bare));
        }
    }
    assert(r@.map_values(|g: Vec<char>| g@) =~= candidate_globs(raw@));
    r
}

/// The last component of a path (see `file_name_of`).
fn file_name_exec(p: &[char]) -> (r: Option<Vec<char>>)
    ensures
        opt_chars(r) == file_name_of(p@),
    decreases p@.len(),
{
    let t = trim_end_matches(p, '/');
    if t.len() == 0 {
        return None;
    }
    proof {
        lemma_trim_end_char_len(p@, '/');
        lemma_last_index(t@, '/');
    }
    let mut j: usize = t.len();
    while j > 0 && t[j - 1] != '/'
        invariant
            j <= t@.len(),
            forall|k: int| j <= k < t@.len() ==> t@[k] != '/',
        decreases j,
    {
        j = j - 1;
    }
    assert(last_index(t@, '/') == j - 1);
    let last = slice_of(&t, j, t.len());
    assert(last@ =~= t@.skip(j as int));
    if last.len() == 1 && last[0] == '.' {
        assert(last@ =~= seq!['.']);
        if j == 0 {
            None
        } else {
            let head = slice_of(&t, 0, j - 1);
            assert(head@ =~= t@.take(j - 1));
            file_name_exec(&head)
        }
    } else if last.len() == 2 && last[0] == '.' && last[1] == '.' {
        assert(last@ =~= seq!['.', '.']);
        None
    } else {
        assert(last@ != seq!['.']);
        assert(last@ != seq!['.', '.']);
        Some(last)
    }
}

/// The tag, link, identifier and list patterns all compile.
pub open spec fn tag_patterns_valid() -> bool {
    regex_valid(TAG_PATTERN@) && regex_valid(FROM_PATTERN@) && regex_valid(ID_PATTERN@) && regex_valid(LIST_PATTERN@)
}

/// Finds tagged items in files and decides which paths to skip.
pub struct Scanner {
    config: Config,
    patterns: TagPatterns,
    ignore_globset: globset::GlobSet,
}

impl Scanner {
    #[verifier::type_invariant]
    spec fn patterns_compiled(self) -> bool {
        self.patterns.compiled()
    }

    /// The configuration the scanner was made with.
    pub closed spec fn configuration(&self) -> Config {
        self.config
    }

    /// The ignore patterns in force, in the order they were added.
    pub closed spec fn globs(&self) -> Seq<Seq<char>> {
        set_globs(self.ignore_globset)
    }

    /// A scanner for `config`: each ignore entry is expanded into the globs
    /// of `candidate_globs`; those that are not valid patterns are skipped,
    /// and the others are compiled into one set; then the tag patterns are
    /// compiled. Fails when that set cannot be built, or with the first tag
    /// pattern that does not compile.
    pub fn new(config: Config) -> (r: Result<Scanner, ScanError>)
        ensures
            r is Ok <==> set_builds(ignore_globs(ignore_entries(config))) && tag_patterns_valid(),
            r matches Err(ScanError::IgnorePatterns(_)) <==> !set_builds(ignore_globs(ignore_entries(config))),
            r matches Ok(s) ==> s.configuration() == config && s.globs() == ignore_globs(ignore_entries(config)),
            r matches Err(ScanError::InvalidPattern(p)) ==> !regex_valid(p@) && (p@ == TAG_PATTERN@ || p@ == FROM_PATTERN@
                || p@ == ID_PATTERN@ || p@ == LIST_PATTERN@),
    {
        let mut builder = new_builder();
        let ghost entries = ignore_entries(config);
        match &config.paths.ignore {
            Some(list) => {
                let mut i: usize = 0;
                assert(entries.take(0) =~= Seq::<Seq<char>>::empty());
                while i < list.len()
                    invariant
                        config.paths.ignore == Some(*list),
                        entries == ignore_entries(config),
                        entries =~= list@.map_values(|s: String| s@),
                        i <= list@.len(),
                        builder_globs(builder) == ignore_globs(entries.take(i as int)),
                    decreases list.len() - i,
                {
                    let cands = entry_globs(list[i].as_str());
                    let ghost cv = cands@.map_values(|g: Vec<char>| g@);
                    let ghost before = builder_globs(builder);
                    let mut j: usize = 0;
                    assert(cv.take(0) =~= Seq::<Seq<char>>::empty());
                    while j < cands.len()
                        invariant
                            cv == cands@.map_values(|g: Vec<char>| g@),
                            j <= cands@.len(),
                            builder_globs(builder) == before + valid_globs(cv.take(j as int)),
                        decreases cands.len() - j,
                    {
                        match new_glob(&cands[j]) {
                            Ok(g) => add_glob(&mut builder, g),
                            Err(_) => {},
                        }
                        assert(cv.take(j + 1).drop_last() =~= cv.take(j as int));
                        assert(cands@[j as int]@ == cv[j as int]);
                        j = j + 1;
                    }
                    assert(cv.take(j as int) =~= cv);
                    assert(entries.take(i + 1).drop_last() =~= entries.take(i as int));
                    assert(entries[i as int] == list@[i as int]@);
                    i = i + 1;
                }
                assert(entries.take(i as int) =~= entries);
            },
            None => {
                assert(entries =~= Seq::<Seq<char>>::empty());
            },
        }
        let ignore_globset = match build_set(&builder) {
            Ok(set) => set,
            Err(e) => {
                return Err(ScanError::IgnorePatterns(glob_error_message(&e)));
            },
        };
        let tag = match compile_regex(TAG_PATTERN) {
            Some(re) => re,
            None => {
                return Err(ScanError::InvalidPattern(TAG_PATTERN.to_owned()));
            },
        };
        let from = match compile_regex(FROM_PATTERN) {
            Some(re) => re,
            None => {
                return Err(ScanError::InvalidPattern(FROM_PATTERN.to_owned()));
            },
        };
        let id = match compile_regex(ID_PATTERN) {
            Some(re) => re,
            None => {
                return Err(ScanError::InvalidPattern(ID_PATTERN.to_owned()));
            },
        };
        let list = match compile_regex(LIST_PATTERN) {
            Some(re) => re,
            None => {
                return Err(ScanError::InvalidPattern(LIST_PATTERN.to_owned()));
            },
        };
        Ok(Scanner { config, patterns: TagPatterns { tag, from, id, list }, ignore_globset })
    }

    /// The configuration the scanner was made with.
    pub fn config(&self) -> (r: &Config)
        ensures
            *r == self.configuration(),
    {
        &self.config
    }

    /// Whether `path` is to be skipped: an ignore pattern matches the path
    /// (with `\` written `/` and leading `./` dropped) or its file name.
    pub fn should_ignore(&self, path: &str) -> (r: bool)
        ensures
            r == ignored_by(self.globs(), path@),
    {
        let raw = chars_of(path);
        let dot_slash = vec!['.', '/'];
        assert(dot_slash@ =~= seq!['.', '/']);
        let clean = trim_start_matches_str(&replace_char_exec(&raw, '\\', '/'), &dot_slash);
        if set_is_match(&self.ignore_globset, &clean) {
            return true;
        }
        match file_name_exec(&raw) {
            Some(name) => set_is_match(&self.ignore_globset, &name),
            None => false,
        }
    }

    /// The items that the file at `path` defines, its parser chosen by its
    /// extension: Python files are scanned for their scopes here, and for a
    /// Rust file `rust_symbols` is what the syntax walk of its text found
    /// (it is not read for other files).
    pub fn scan_source(&self, path: &str, content: &str, rust_symbols: Vec<ParsedSymbol>) -> (r: Vec<RawItem>)
        requires
            parser_for(extension_text(path@)) matches Some(ParserKind::Python(_)) ==> content@.len() <= max_parse_len(),
            forall|k: int| 0 <= k < rust_symbols@.len() ==> rust_symbols@[k].start_line <= rust_symbols@[k].end_line,
        ensures
            raw_items_view(r@) == scanned_items(content@, file_symbols(path@, content@, symbols_view(rust_symbols@)), path@),
    {
        let parsed = match parser_for_path(path) {
            None => None,
            Some(ParserKind::Python(p)) => {
                proof {
                    lemma_python_symbols_well_formed(content@);
                }
                let v = p.parse_symbols(content);
                assert forall|k: int| 0 <= k < v@.len() implies v@[k].start_line <= v@[k].end_line by {
                    assert(symbols_view(v@)[k] == v@[k]@);
                    if python_patterns_valid() {
                        assert(symbols_view(v@) == python_symbols(content@));
                        assert(1 <= python_symbols(content@)[k].start_line <= python_symbols(content@)[k].end_line);
                    } else {
                        assert(symbols_view(v@).len() == 0);
                    }
                }
                Some(v)
            },
            Some(ParserKind::Rust(_)) => Some(rust_symbols),
        };
        self.scan_file(path, content, parsed)
    }

    /// The items that the file at `path` defines, given its text and the
    /// output of its language's parser (`None` for a file that has none).
    pub fn scan_file(&self, path: &str, content: &str, parsed: Option<Vec<ParsedSymbol>>) -> (r: Vec<RawItem>)
        requires
            well_formed_symbols(parsed),
        ensures
            raw_items_view(r@) == scanned_items(content@, opt_symbols(parsed), path@),
    {
        proof {
            use_type_invariant(self);
        }
        scan_text(&self.patterns, path, content, parsed)
    }
}

} // verus!
