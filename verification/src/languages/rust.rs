//! Rust support: the naming of scopes while a syntax tree is walked.
//!
//! The walk itself is driven from outside the library; `RustVisitor` holds
//! its state and decides, at each item, which symbol is recorded and under
//! which name.
use vstd::prelude::*;
use crate::languages::{ParsedSymbol, SymbolView, symbols_view};

verus! {

/// The Rust language parser.
#[derive(Debug, Clone, Copy, PartialEq, Eq)]
pub struct RustParser;

/// `::`.
pub open spec fn path_sep() -> Seq<char> {
    seq![':', ':']
}

/// The scope names joined with `::`.
pub open spec fn join_path(path: Seq<Seq<char>>) -> Seq<char>
    decreases path.len(),
{
    if path.len() == 0 {
        Seq::empty()
    } else if path.len() == 1 {
        path[0]
    } else {
        join_path(path.drop_last()) + path_sep() + path.last()
    }
}

/// An item's name inside the scopes `path`: the bare name at top level,
/// else the joined path, `::` and the name.
pub open spec fn qualified(path: Seq<Seq<char>>, name: Seq<char>) -> Seq<char> {
    if path.len() == 0 {
        name
    } else {
        join_path(path) + path_sep() + name
    }
}

/// The text with every space removed.
pub open spec fn without_spaces(s: Seq<char>) -> Seq<char>
    decreases s.len(),
{
    if s.len() == 0 {
        Seq::empty()
    } else {
        without_spaces(s.drop_last()) + if s.last() == ' ' {
            Seq::empty()
        } else {
            seq![s.last()]
        }
    }
}

/// A symbol as plain values.
pub open spec fn symbol(name: Seq<char>, start: usize, end: usize) -> SymbolView {
    SymbolView { name, start_line: start as int, end_line: end as int }
}

/// The state of a walk over a Rust syntax tree: the symbols recorded so far
/// and the names of the enclosing modules and impl blocks.
pub struct RustVisitor {
    items: Vec<ParsedSymbol>,
    path_stack: Vec<String>,
}

impl RustVisitor {
    /// The symbols recorded so far, in order.
    pub closed spec fn symbols(&self) -> Seq<SymbolView> {
        symbols_view(self.items@)
    }

    /// The names of the enclosing scopes, outermost first.
    pub closed spec fn scopes(&self) -> Seq<Seq<char>> {
        self.path_stack@.map_values(|s: String| s@)
    }

    /// A visitor at the top of a file: nothing recorded, no enclosing scope.
    pub fn new() -> (v: RustVisitor)
        ensures
            v.symbols() == Seq::<SymbolView>::empty(),
            v.scopes() == Seq::<Seq<char>>::empty(),
    {
        let v = RustVisitor { items: Vec::new(), path_stack: Vec::new() };
        assert(v.symbols() =~= Seq::<SymbolView>::empty());
        assert(v.scopes() =~= Seq::<Seq<char>>::empty());
        v
    }

    /// The enclosing scopes joined with `::`.
    pub fn current_path(&self) -> (r: String)
        ensures
            r@ == join_path(self.scopes()),
    {
        let mut out: Vec<char> = Vec::new();
        let mut i: usize = 0;
        let ghost path = self.scopes();
        while i < self.path_stack.len()
            invariant
                path == self.scopes(),
                path == self.path_stack@.map_values(|s: String| s@),
                i <= path.len(),
                out@ == join_path(path.take(i as int)),
            decreases self.path_stack.len() - i,
        {
            let part = crate::text::chars_of(self.path_stack[i].as_str());
            assert(path.take(i + 1).drop_last() =~= path.take(i as int));
            if i > 0 {
                out.push(':');
                out.push(':');
            }
            let ghost before = out@;
            let mut k: usize = 0;
            while k < part.len()
                invariant
                    k <= part@.len(),
                    out@ == before + part@.take(k as int),
                decreases part.len() - k,
            {
                out.push(part[k]);
                assert(part@.take(k + 1) =~= part@.take(k as int).push(part@[k as int]));
                k = k + 1;
            }
            assert(part@.take(k as int) =~= part@);
            assert(part@ == path[i as int]);
            if i == 0 {
                assert(out@ =~= join_path(path.take(1)));
            } else {
                assert(out@ =~= join_path(path.take(i as int)) + path_sep() + path[i as int]);
            }
            i = i + 1;
        }
        assert(path.take(i as int) =~= path);
        crate::text::string_of(&out)
    }

    /// Enters the scope `name`.
    pub fn push_path(&mut self, name: String)
        ensures
            final(self).scopes() == old(self).scopes().push(name@),
            final(self).symbols() == old(self).symbols(),
    {
        self.path_stack.push(name);
        assert(self.scopes() =~= old(self).scopes().push(name@));
    }

    /// Leaves the innermost scope (nothing happens at top level).
    pub fn pop_path(&mut self)
        ensures
            final(self).scopes() == if old(self).scopes().len() == 0 {
                old(self).scopes()
            } else {
                old(self).scopes().drop_last()
            },
            final(self).symbols() == old(self).symbols(),
    {
        let _ = self.path_stack.pop();
        assert(self.scopes() =~= if old(self).scopes().len() == 0 {
            old(self).scopes()
        } else {
            old(self).scopes().drop_last()
        });
    }

    /// Appends a symbol.
    fn record(&mut self, name: String, start: usize, end: usize)
        ensures
            final(self).symbols() == old(self).symbols().push(symbol(name@, start, end)),
            final(self).scopes() == old(self).scopes(),
    {
        self.items.push(ParsedSymbol { name, start_line: start, end_line: end });
        assert(self.symbols() =~= old(self).symbols().push(symbol(name@, start, end)));
    }

    /// A `mod name` item on lines `start..=end`: its scope is entered, and
    /// an inline module (one with a body) is recorded under its full path.
    /// The caller walks the body and then calls `pop_path`.
    pub fn enter_mod(&mut self, name: String, start: usize, end: usize, inline: bool)
        ensures
            final(self).scopes() == old(self).scopes().push(name@),
            final(self).symbols() == if inline {
                old(self).symbols().push(symbol(join_path(old(self).scopes().push(name@)), start, end))
            } else {
                old(self).symbols()
            },
    {
        self.push_path(name);
        if inline {
            let full = self.current_path();
            self.record(full, start, end);
        }
    }

    /// A function, struct, enum or trait named `name` on lines
    /// `start..=end`: recorded under its name qualified by the enclosing
    /// scopes. Its body is not walked.
    pub fn record_item(&mut self, name: String, start: usize, end: usize)
        ensures
            final(self).symbols() == old(self).symbols().push(symbol(qualified(old(self).scopes(), name@), start, end)),
            final(self).scopes() == old(self).scopes(),
    {
        if self.path_stack.len() == 0 {
            self.record(name, start, end);
        } else {
            let full = self.current_path();
            let joined = crate::text::concat(&crate::text::concat(&crate::text::chars_of(full.as_str()), &[':', ':']),
                &crate::text::chars_of(name.as_str()));
            assert(seq![':', ':'] =~= path_sep());
            self.record(crate::text::string_of(&joined), start, end);
        }
    }

    /// An `impl` block for the type written `type_text`, on lines
    /// `start..=end`: the type, with its spaces removed, becomes a scope,
    /// and the block is recorded under the full path. The caller walks the
    /// block's items and then calls `pop_path`.
    pub fn enter_impl(&mut self, type_text: &str, start: usize, end: usize)
        ensures
            final(self).scopes() == old(self).scopes().push(without_spaces(type_text@)),
            final(self).symbols() == old(self).symbols().push(
                symbol(join_path(old(self).scopes().push(without_spaces(type_text@))), start, end),
            ),
    {
        let text = crate::text::chars_of(type_text);
        let mut kept: Vec<char> = Vec::new();
        let mut i: usize = 0;
        while i < text.len()
            invariant
                i <= text@.len(),
                kept@ == without_spaces(text@.take(i as int)),
            decreases text.len() - i,
        {
            assert(text@.take(i + 1).drop_last() =~= text@.take(i as int));
            if text[i] != ' ' {
                kept.push(text[i]);
            }
            assert(kept@ =~= without_spaces(text@.take(i + 1)));
            i = i + 1;
        }
        assert(text@.take(i as int) =~= text@);
        self.push_path(crate::text::string_of(&kept));
        let full = self.current_path();
        self.record(full, start, end);
    }

    /// A function inside an `impl` block, on lines `start..=end`: recorded
    /// as the joined scopes, `::` and its name.
    pub fn record_impl_fn(&mut self, name: String, start: usize, end: usize)
        ensures
            final(self).symbols() == old(self).symbols().push(
                symbol(join_path(old(self).scopes()) + path_sep() + name@, start, end),
            ),
            final(self).scopes() == old(self).scopes(),
    {
        let full = self.current_path();
        let joined = crate::text::concat(&crate::text::concat(&crate::text::chars_of(full.as_str()), &[':', ':']),
            &crate::text::chars_of(name.as_str()));
        assert(seq![':', ':'] =~= path_sep());
        self.record(crate::text::string_of(&joined), start, end);
    }

    /// The symbols recorded, in the order they were met.
    pub fn into_items(self) -> (r: Vec<ParsedSymbol>)
        ensures
            symbols_view(r@) == self.symbols(),
    {
        self.items
    }
}

/// Leaving a scope just entered restores the scopes: `push_path` followed
/// by `pop_path` leaves the visitor's scopes as they were.
pub proof fn lemma_enter_leave(scopes: Seq<Seq<char>>, name: Seq<char>)
    ensures
        scopes.push(name).len() != 0,
        scopes.push(name).drop_last() == scopes,
{
    assert(scopes.push(name).drop_last() =~= scopes);
}

} // verus!
