//! The standalone page: the graph's JSON written into the page template.
use vstd::prelude::*;
use crate::text::{starts_with, occurs_at, occurs_at_exec, chars_of, string_of};

verus! {

/// `str::replace(pat, rep)` for a non-empty `pat`: every non-overlapping
/// occurrence, found from the left, is replaced.
pub open spec fn replace_all(s: Seq<char>, pat: Seq<char>, rep: Seq<char>) -> Seq<char>
    decreases s.len(),
{
    if pat.len() == 0 || s.len() == 0 {
        s
    } else if starts_with(s, pat) {
        rep + replace_all(s.skip(pat.len() as int), pat, rep)
    } else {
        seq![s[0]] + replace_all(s.drop_first(), pat, rep)
    }
}

/// The statement in the page template that stands for the graph data.
pub open spec fn placeholder() -> Seq<char> {
    "window.__GRAPH_DATA__ = null;"@
}

/// The statement that sets the graph data to `json`.
pub open spec fn data_statement(json: Seq<char>) -> Seq<char> {
    "window.__GRAPH_DATA__ = "@ + json + ";"@
}

/// Every occurrence of `pat` in `s` replaced with `rep`, as `str::replace`.
pub fn replace_all_exec(s: &[char], pat: &[char], rep: &[char]) -> (r: Vec<char>)
    requires
        pat@.len() > 0,
    ensures
        r@ == replace_all(s@, pat@, rep@),
{
    let mut out: Vec<char> = Vec::new();
    let mut i: usize = 0;
    assert(s@.skip(0) =~= s@);
    assert(out@ + replace_all(s@, pat@, rep@) =~= replace_all(s@, pat@, rep@));
    while i < s.len()
        invariant
            pat@.len() > 0,
            i <= s@.len(),
            out@ + replace_all(s@.skip(i as int), pat@, rep@) == replace_all(s@, pat@, rep@),
        decreases s.len() - i,
    {
        let ghost rest = s@.skip(i as int);
        if occurs_at_exec(s, pat, i) {
            assert(rest.take(pat@.len() as int) =~= s@.subrange(i as int, i + pat@.len()));
            assert(rest.skip(pat@.len() as int) =~= s@.skip(i + pat@.len()));
            let ghost before = out@;
            let mut k: usize = 0;
            while k < rep.len()
                invariant
                    k <= rep@.len(),
                    out@ == before + rep@.take(k as int),
                decreases rep.len() - k,
            {
                out.push(rep[k]);
                assert(rep@.take(k + 1) =~= rep@.take(k as int).push(rep@[k as int]));
                k = k + 1;
            }
            assert(rep@.take(k as int) =~= rep@);
            assert(before + (rep@ + replace_all(s@.skip(i + pat@.len()), pat@, rep@)) =~= out@ + replace_all(
                s@.skip(i + pat@.len()),
                pat@,
                rep@,
            ));
            i = i + pat.len();
        } else {
            assert(!starts_with(rest, pat@)) by {
                if starts_with(rest, pat@) {
                    assert(s@.subrange(i as int, i + pat@.len()) =~= rest.take(pat@.len() as int));
                }
            }
            assert(rest.drop_first() =~= s@.skip(i + 1));
            let ghost before = out@;
            out.push(s[i]);
            assert(before + (seq![s@[i as int]] + replace_all(s@.skip(i + 1), pat@, rep@)) =~= out@ + replace_all(
                s@.skip(i + 1),
                pat@,
                rep@,
            ));
            i = i + 1;
        }
    }
    assert(s@.skip(i as int) =~= Seq::<char>::empty());
    assert(out@ + Seq::<char>::empty() =~= out@);
    out
}

/// The standalone page: the template with its data placeholder statement
/// replaced, wherever it occurs, by the statement that sets the graph JSON.
pub fn embed_graph_data(template: &str, graph_json: &str) -> (r: String)
    ensures
        r@ == replace_all(template@, placeholder(), data_statement(graph_json@)),
{
    let pat = chars_of("window.__GRAPH_DATA__ = null;");
    let head = chars_of("window.__GRAPH_DATA__ = ");
    let json = chars_of(graph_json);
    let tail = chars_of(";");
    let rep = crate::text::concat(&crate::text::concat(&head, &json), &tail);
    proof {
        reveal_strlit("window.__GRAPH_DATA__ = null;");
    }
    let r = replace_all_exec(&chars_of(template), &pat, &rep);
    string_of(&r)
}

} // verus!
