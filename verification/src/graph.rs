//! The traceability graph: items keyed by identifier, linked by the
//! identifiers they derive from, and the checks run over it.
use vstd::prelude::*;
use crate::text::{chars_of, eq, starts_with_exec};
use crate::config::{Config, TypeMapping, TypeMappingView, mappings_view, type_match};
use crate::scanner::{RawItem, RawItemView, raw_items_view};
use crate::order::{seq_lt, lex_lt, lemma_lt_irreflexive, lemma_lt_transitive, lemma_lt_total, lemma_lt_asymmetric};
use crate::scanner::LineRange;

verus! {

/// An item of the graph.
#[derive(Debug, Clone)]
pub struct TraceItem {
    pub id: String,
    pub item_type: String,
    pub requirement_type: Option<String>,
    pub title: String,
    pub file_path: String,
    pub line_range: LineRange,
    pub derived_from: Vec<String>,
}

/// An item as plain values.
pub struct TraceItemView {
    pub id: Seq<char>,
    pub item_type: Seq<char>,
    pub requirement_type: Option<Seq<char>>,
    pub title: Seq<char>,
    pub file_path: Seq<char>,
    pub line_range: LineRange,
    pub derived_from: Seq<Seq<char>>,
}

impl View for TraceItem {
    type V = TraceItemView;

    open spec fn view(&self) -> TraceItemView {
        TraceItemView {
            id: self.id@,
            item_type: self.item_type@,
            requirement_type: match self.requirement_type {
                Some(s) => Some(s@),
                None => None,
            },
            title: self.title@,
            file_path: self.file_path@,
            line_range: self.line_range,
            derived_from: self.derived_from@.map_values(|s: String| s@),
        }
    }
}

/// The views of a list of items.
pub open spec fn items_view(items: Seq<TraceItem>) -> Seq<TraceItemView> {
    items.map_values(|t: TraceItem| t@)
}

/// Identifiers strictly increase along the sequence.
pub open spec fn sorted_by_id(s: Seq<TraceItemView>) -> bool {
    forall|i: int, j: int| 0 <= i < j < s.len() ==> seq_lt(s[i].id, s[j].id)
}

/// Some item has the identifier.
pub open spec fn has_id(s: Seq<TraceItemView>, id: Seq<char>) -> bool {
    exists|i: int| 0 <= i < s.len() && s[i].id == id
}

/// The item with the identifier, if any.
pub open spec fn lookup(s: Seq<TraceItemView>, id: Seq<char>) -> Option<TraceItemView> {
    if has_id(s, id) {
        Some(s[choose|i: int| 0 <= i < s.len() && s[i].id == id])
    } else {
        None
    }
}

/// The name of the requirement item type.
pub open spec fn requirement_type() -> Seq<char> {
    seq!['R', 'e', 'q', 'u', 'i', 'r', 'e', 'm', 'e', 'n', 't']
}

/// The name of the test item type.
pub open spec fn test_type() -> Seq<char> {
    seq!['T', 'e', 's', 't']
}

/// A problem found in the graph.
#[derive(Debug, PartialEq)]
pub enum ValidationIssue {
    /// An item other than a requirement that derives from no requirement,
    /// directly or through other items.
    Orphan(String),
    /// An item (first) that derives from an identifier (second) no item has.
    BrokenLink(String, String),
    /// An identifier that a later found item repeats.
    DuplicateId(String),
    /// A requirement from which no test derives, directly or transitively.
    UntestedRequirement(String),
    /// An item that derives from itself, directly or through other items.
    CyclicDependency(String),
}

/// An issue as plain values.
pub enum IssueView {
    Orphan(Seq<char>),
    BrokenLink(Seq<char>, Seq<char>),
    DuplicateId(Seq<char>),
    UntestedRequirement(Seq<char>),
    CyclicDependency(Seq<char>),
}

impl View for ValidationIssue {
    type V = IssueView;

    open spec fn view(&self) -> IssueView {
        match self {
            ValidationIssue::Orphan(a) => IssueView::Orphan(a@),
            ValidationIssue::BrokenLink(a, b) => IssueView::BrokenLink(a@, b@),
            ValidationIssue::DuplicateId(a) => IssueView::DuplicateId(a@),
            ValidationIssue::UntestedRequirement(a) => IssueView::UntestedRequirement(a@),
            ValidationIssue::CyclicDependency(a) => IssueView::CyclicDependency(a@),
        }
    }
}

/// The views of a list of issues.
pub open spec fn issues_view(s: Seq<ValidationIssue>) -> Seq<IssueView> {
    s.map_values(|i: ValidationIssue| i@)
}

/// Broken links of item `src`: its targets, in order, that no item has.
pub open spec fn broken_of(s: Seq<TraceItemView>, src: Seq<char>, targets: Seq<Seq<char>>) -> Seq<IssueView>
    decreases targets.len(),
{
    if targets.len() == 0 {
        Seq::empty()
    } else {
        broken_of(s, src, targets.drop_last()) + if has_id(s, targets.last()) {
            Seq::empty()
        } else {
            seq![IssueView::BrokenLink(src, targets.last())]
        }
    }
}

/// Broken links of the first `k` items.
pub open spec fn broken_links(s: Seq<TraceItemView>, k: nat) -> Seq<IssueView>
    decreases k,
{
    if k == 0 {
        Seq::empty()
    } else {
        broken_links(s, (k - 1) as nat) + broken_of(s, s[k - 1].id, s[k - 1].derived_from)
    }
}

/// Item `c` derives from item `p`.
pub open spec fn derives(s: Seq<TraceItemView>, c: int, p: int) -> bool {
    s[c].derived_from.contains(s[p].id)
}

/// One derivation step from item `a` to item `c`: downward (`up` false) to
/// an item that derives from `a`, upward (`up` true) to an item `a` derives
/// from.
pub open spec fn linked(s: Seq<TraceItemView>, up: bool, a: int, c: int) -> bool {
    if up {
        derives(s, a, c)
    } else {
        derives(s, c, a)
    }
}

/// Item `b` is reached from item `a` along at most `n` derivation steps in
/// the direction `up`.
pub open spec fn reaches(s: Seq<TraceItemView>, up: bool, a: int, b: int, n: nat) -> bool
    decreases n,
{
    a == b || (n > 0 && exists|c: int|
        0 <= c < s.len() && #[trigger] linked(s, up, a, c) && reaches(s, up, c, b, (n - 1) as nat))
}

/// Some test derives from item `a`, directly or transitively (or `a` is one).
pub open spec fn tested(s: Seq<TraceItemView>, a: int) -> bool {
    exists|b: int, n: nat| 0 <= b < s.len() && #[trigger] reaches(s, false, a, b, n) && s[b].item_type == test_type()
}

/// Item `a` derives from a requirement, directly or through other items (or
/// is one).
pub open spec fn derives_from_requirement(s: Seq<TraceItemView>, a: int) -> bool {
    exists|b: int, n: nat| 0 <= b < s.len() && #[trigger] reaches(s, true, a, b, n) && s[b].item_type == requirement_type()
}

/// An orphan: an item other than a requirement that derives from no
/// requirement, directly or through other items.
pub open spec fn is_orphan(s: Seq<TraceItemView>, i: int) -> bool {
    s[i].item_type != requirement_type() && !derives_from_requirement(s, i)
}

/// Orphans among the first `k` items.
pub open spec fn orphans(s: Seq<TraceItemView>, k: nat) -> Seq<IssueView>
    decreases k,
{
    if k == 0 {
        Seq::empty()
    } else {
        orphans(s, (k - 1) as nat) + if is_orphan(s, k - 1) {
            seq![IssueView::Orphan(s[k - 1].id)]
        } else {
            Seq::empty()
        }
    }
}

/// Item `a` lies on a derivation cycle: some item derives from `a`, and `a`
/// is reached from it going down the derivation links.
pub open spec fn on_cycle(s: Seq<TraceItemView>, a: int) -> bool {
    exists|c: int, n: nat| 0 <= c < s.len() && derives(s, c, a) && #[trigger] reaches(s, false, c, a, n)
}

/// Items on a derivation cycle among the first `k` items.
pub open spec fn cycles(s: Seq<TraceItemView>, k: nat) -> Seq<IssueView>
    decreases k,
{
    if k == 0 {
        Seq::empty()
    } else {
        cycles(s, (k - 1) as nat) + if on_cycle(s, k - 1) {
            seq![IssueView::CyclicDependency(s[k - 1].id)]
        } else {
            Seq::empty()
        }
    }
}

/// Untested requirements among the first `k` items.
pub open spec fn untested(s: Seq<TraceItemView>, k: nat) -> Seq<IssueView>
    decreases k,
{
    if k == 0 {
        Seq::empty()
    } else {
        untested(s, (k - 1) as nat) + if s[k - 1].item_type == requirement_type() && !tested(s, k - 1) {
            seq![IssueView::UntestedRequirement(s[k - 1].id)]
        } else {
            Seq::empty()
        }
    }
}

/// All issues of a graph, in the order they are reported: broken links, then
/// orphans, then untested requirements, then items on a derivation cycle,
/// each in increasing order of identifier.
pub open spec fn validation_issues(s: Seq<TraceItemView>) -> Seq<IssueView> {
    broken_links(s, s.len()) + orphans(s, s.len()) + untested(s, s.len()) + cycles(s, s.len())
}

proof fn lemma_reaches_extend(s: Seq<TraceItemView>, up: bool, a: int, b: int, m: nat, c: int)
    requires
        reaches(s, up, a, b, m),
        0 <= c < s.len(),
        linked(s, up, b, c),
    ensures
        reaches(s, up, a, c, m + 1),
    decreases m,
{
    if a == b {
        assert(reaches(s, up, c, c, m));
    } else {
        let c1 = choose|c1: int|
            0 <= c1 < s.len() && #[trigger] linked(s, up, a, c1) && reaches(s, up, c1, b, (m - 1) as nat);
        lemma_reaches_extend(s, up, c1, b, (m - 1) as nat, c);
        assert(reaches(s, up, c1, c, m));
    }
}

proof fn lemma_closed_contains(s: Seq<TraceItemView>, up: bool, vs: Set<int>, a: int, b: int, m: nat)
    requires
        vs.contains(a),
        forall|i: int, c: int| vs.contains(i) && 0 <= c < s.len() && #[trigger] linked(s, up, i, c) ==> vs.contains(c),
        reaches(s, up, a, b, m),
    ensures
        vs.contains(b),
    decreases m,
{
    if a != b {
        let c1 = choose|c1: int|
            0 <= c1 < s.len() && #[trigger] linked(s, up, a, c1) && reaches(s, up, c1, b, (m - 1) as nat);
        lemma_closed_contains(s, up, vs, c1, b, (m - 1) as nat);
    }
}

/// The characters of the requirement type name.
fn requirement_chars() -> (r: Vec<char>)
    ensures
        r@ == requirement_type(),
{
    proof {
        reveal_strlit("Requirement");
    }
    let r = chars_of("Requirement");
    assert(r@ =~= requirement_type());
    r
}

/// The characters of the test type name.
fn test_chars() -> (r: Vec<char>)
    ensures
        r@ == test_type(),
{
    proof {
        reveal_strlit("Test");
    }
    let r = chars_of("Test");
    assert(r@ =~= test_type());
    r
}

/// The position of a key in a list of keys.
fn find_key(keys: &Vec<Vec<char>>, k: &[char]) -> (r: Option<usize>)
    ensures
        match r {
            Some(i) => i < keys@.len() && keys@[i as int]@ == k@,
            None => forall|i: int| 0 <= i < keys@.len() ==> keys@[i]@ != k@,
        },
{
    let mut i: usize = 0;
    while i < keys.len()
        invariant
            i <= keys@.len(),
            forall|j: int| 0 <= j < i ==> keys@[j]@ != k@,
        decreases keys.len() - i,
    {
        if eq(&keys[i], k) {
            return Some(i);
        }
        i = i + 1;
    }
    None
}

/// Whether an item marked in `is_test` is reached from item `start`, by a
/// depth-first search over the derivation links in the direction `up`
/// (`children` lists, for each item, the items one step away).
fn search(
    Ghost(s): Ghost<Seq<TraceItemView>>,
    Ghost(up): Ghost<bool>,
    start: usize,
    children: &Vec<Vec<usize>>,
    is_test: &Vec<bool>,
) -> (r: bool)
    requires
        start < s.len(),
        children@.len() == s.len(),
        is_test@.len() == s.len(),
        forall|p: int, k: int| 0 <= p < s.len() && 0 <= k < children@[p]@.len() ==> children@[p]@[k] < s.len(),
        forall|p: int, x: int| 0 <= p < s.len() && 0 <= x < s.len() && linked(s, up, p, x) ==> children@[p]@.contains(x as usize),
        forall|p: int, k: int| 0 <= p < s.len() && 0 <= k < children@[p]@.len() ==> linked(s, up, p, children@[p]@[k] as int),
    ensures
        r == exists|b: int, n: nat| 0 <= b < s.len() && #[trigger] reaches(s, up, start as int, b, n) && is_test@[b],
{
    let n = children.len();
    let mut visited: Vec<bool> = Vec::new();
    let mut i: usize = 0;
    while i < n
        invariant
            i <= n,
            visited@.len() == i,
            forall|j: int| 0 <= j < i ==> !visited@[j],
        decreases n - i,
    {
        visited.push(false);
        i = i + 1;
    }
    visited.set(start, true);
    let mut stack: Vec<usize> = Vec::new();
    stack.push(start);
    let ghost mut vs: Set<int> = Set::empty().insert(start as int);
    assert(reaches(s, up, start as int, start as int, 0));
    proof {
        vstd::set_lib::lemma_int_range(0, n as int);
        vstd::set_lib::lemma_len_subset(vs, vstd::set_lib::set_int_range(0, n as int));
    }
    assert(stack@[0] == start);
    assert(stack@.contains(start));
    while stack.len() > 0
        invariant
            n == s.len(),
            start < n,
            children@.len() == n,
            is_test@.len() == n,
            forall|p: int, k: int| 0 <= p < n && 0 <= k < children@[p]@.len() ==> children@[p]@[k] < n,
            forall|p: int, x: int| 0 <= p < n && 0 <= x < n && linked(s, up, p, x) ==> children@[p]@.contains(x as usize),
            forall|p: int, k: int| 0 <= p < n && 0 <= k < children@[p]@.len() ==> linked(s, up, p, children@[p]@[k] as int),
            visited@.len() == n,
            vs.finite(),
            vs.len() <= n,
            forall|i: int| 0 <= i < n ==> (visited@[i] <==> vs.contains(i)),
            forall|i: int| vs.contains(i) ==> 0 <= i < n,
            vs.contains(start as int),
            forall|k: int| 0 <= k < stack@.len() ==> stack@[k] < n && vs.contains(stack@[k] as int),
            forall|k1: int, k2: int| 0 <= k1 < k2 < stack@.len() ==> stack@[k1] != stack@[k2],
            forall|i: int| #[trigger] vs.contains(i) ==> exists|m: nat| reaches(s, up, start as int, i, m),
            forall|i: int| #[trigger] vs.contains(i) && !stack@.contains(i as usize) ==> {
                &&& !is_test@[i]
                &&& forall|c: int| 0 <= c < n && linked(s, up, i, c) ==> vs.contains(c)
            },
        decreases (n - vs.len()) + stack.len(),
    {
        let ghost stack0 = stack@;
        let cur = stack.pop().unwrap();
        assert(stack@ == stack0.drop_last());
        assert(!stack@.contains(cur)) by {
            if stack@.contains(cur) {
                let k = choose|k: int| 0 <= k < stack@.len() && stack@[k] == cur;
                assert(stack0[k] == stack0[stack0.len() - 1]);
            }
        }
        if is_test[cur] {
            assert(vs.contains(cur as int));
            let ghost m = choose|m: nat| reaches(s, up, start as int, cur as int, m);
            assert(reaches(s, up, start as int, cur as int, m));
            return true;
        }
        let ghost vs1 = vs;
        let ghost stack1 = stack@;
        assert forall|i: int| #[trigger] vs1.contains(i) && !stack1.contains(i as usize) && i != cur implies !stack0.contains(i as usize) by {
            if stack0.contains(i as usize) {
                let kk = choose|kk: int| 0 <= kk < stack0.len() && stack0[kk] == i as usize;
                if kk < stack1.len() {
                    assert(stack1[kk] == i as usize);
                }
            }
        }
        let ch = &children[cur];
        let mut k: usize = 0;
        while k < ch.len()
            invariant
                n == s.len(),
                cur < n,
                !is_test@[cur as int],
                vs.contains(cur as int),
                ch@ == children@[cur as int]@,
                k <= ch@.len(),
                forall|j: int| 0 <= j < ch@.len() ==> ch@[j] < n,
                forall|j: int| 0 <= j < ch@.len() ==> linked(s, up, cur as int, ch@[j] as int),
                visited@.len() == n,
                vs.finite(),
                forall|i: int| 0 <= i < n ==> (visited@[i] <==> vs.contains(i)),
                forall|i: int| vs.contains(i) ==> 0 <= i < n,
                vs.contains(start as int),
                vs.len() + stack1.len() == vs1.len() + stack@.len(),
                vs1.subset_of(vs),
                !stack@.contains(cur),
                forall|i: int| 0 <= i < stack1.len() ==> stack@[i] == stack1[i],
                stack1.len() <= stack@.len(),
                forall|k: int| 0 <= k < stack@.len() ==> stack@[k] < n && vs.contains(stack@[k] as int),
                forall|k1: int, k2: int| 0 <= k1 < k2 < stack@.len() ==> stack@[k1] != stack@[k2],
                forall|i: int| vs.contains(i) && !vs1.contains(i) ==> stack@.contains(i as usize),
                forall|j: int| 0 <= j < k ==> vs.contains(ch@[j] as int),
                forall|i: int| #[trigger] vs.contains(i) ==> exists|m: nat| reaches(s, up, start as int, i, m),
                forall|i: int| #[trigger] vs1.contains(i) && !stack1.contains(i as usize) && i != cur ==> {
                    &&& !is_test@[i]
                    &&& forall|c: int| 0 <= c < n && linked(s, up, i, c) ==> vs1.contains(c)
                },
            decreases ch.len() - k,
        {
            let x = ch[k];
            if !visited[x] {
                proof {
                    let m = choose|m: nat| reaches(s, up, start as int, cur as int, m);
                    lemma_reaches_extend(s, up, start as int, cur as int, m, x as int);
                }
                let ghost stack_before = stack@;
                visited.set(x, true);
                stack.push(x);
                proof {
                    vs = vs.insert(x as int);
                    assert(stack@[stack@.len() - 1] == x);
                    assert forall|i: int| vs.contains(i) && !vs1.contains(i) implies stack@.contains(i as usize) by {
                        if i == x {
                            assert(stack@[stack@.len() - 1] == x);
                        } else {
                            let kk = choose|kk: int| 0 <= kk < stack_before.len() && stack_before[kk] == i as usize;
                            assert(stack@[kk] == i as usize);
                        }
                    }
                    assert(!stack@.contains(cur)) by {
                        if stack@.contains(cur) {
                            let kk = choose|kk: int| 0 <= kk < stack@.len() && stack@[kk] == cur;
                            if kk < stack_before.len() {
                                assert(stack_before[kk] == cur);
                            }
                        }
                    }
                    assert forall|i: int| #[trigger] vs.contains(i) implies exists|m: nat| reaches(s, up, start as int, i, m) by {
                        if i == x {
                            let m = choose|m: nat| reaches(s, up, start as int, cur as int, m);
                            assert(reaches(s, up, start as int, x as int, m + 1));
                        }
                    }
                }
            }
            k = k + 1;
        }
        proof {
            assert forall|i: int| #[trigger] vs.contains(i) && !stack@.contains(i as usize) implies {
                &&& !is_test@[i]
                &&& forall|c: int| 0 <= c < n && linked(s, up, i, c) ==> vs.contains(c)
            } by {
                assert(vs1.contains(i));
                if i == cur {
                    assert forall|c: int| 0 <= c < n && linked(s, up, i, c) implies vs.contains(c) by {
                        assert(children@[cur as int]@.contains(c as usize));
                        let j = choose|j: int| 0 <= j < ch@.len() && ch@[j] == c as usize;
                    }
                } else {
                    assert(!stack1.contains(i as usize)) by {
                        if stack1.contains(i as usize) {
                            let kk = choose|kk: int| 0 <= kk < stack1.len() && stack1[kk] == i as usize;
                            assert(stack@[kk] == i as usize);
                        }
                    }
                    assert(forall|c: int| 0 <= c < n && linked(s, up, i, c) ==> vs1.contains(c));
                }
            }
            vstd::set_lib::lemma_int_range(0, n as int);
            vstd::set_lib::lemma_len_subset(vs, vstd::set_lib::set_int_range(0, n as int));
        }
    }
    proof {
        assert forall|i: int, c: int| vs.contains(i) && 0 <= c < s.len() && #[trigger] linked(s, up, i, c) implies vs.contains(c) by {
            assert(!stack@.contains(i as usize));
        }
        if exists|b: int, n: nat| 0 <= b < s.len() && #[trigger] reaches(s, up, start as int, b, n) && is_test@[b] {
            let (b, m) = choose|b: int, m: nat| 0 <= b < s.len() && #[trigger] reaches(s, up, start as int, b, m) && is_test@[b];
            lemma_closed_contains(s, up, vs, start as int, b, m);
            assert(!stack@.contains(b as usize));
        }
    }
    false
}

/// The item type given to identifiers that no mapping covers.
pub open spec fn unknown_type() -> Seq<char> {
    seq!['U', 'n', 'k', 'n', 'o', 'w', 'n']
}

/// The graph item made from a found item: its type and requirement type come
/// from the first mapping whose prefix starts its identifier.
pub open spec fn convert(r: RawItemView, types: Seq<TypeMappingView>) -> TraceItemView {
    TraceItemView {
        id: r.id,
        item_type: match type_match(types, r.id) {
            Some(m) => m.item_type,
            None => unknown_type(),
        },
        requirement_type: match type_match(types, r.id) {
            Some(m) => m.requirement_type,
            None => None,
        },
        title: r.title,
        file_path: r.file_path,
        line_range: r.line_range,
        derived_from: r.derived_from,
    }
}

/// The graph item for the identifier after the first `k` found items: made
/// from the first of them with that identifier.
pub open spec fn first_found(raws: Seq<RawItemView>, types: Seq<TypeMappingView>, id: Seq<char>, k: nat) -> Option<TraceItemView>
    decreases k,
{
    if k == 0 {
        None
    } else {
        let prev = first_found(raws, types, id, (k - 1) as nat);
        if prev is Some {
            prev
        } else if raws[k - 1].id == id {
            Some(convert(raws[k - 1], types))
        } else {
            None
        }
    }
}

/// An earlier found item has the identifier of item `k`.
pub open spec fn seen_before(raws: Seq<RawItemView>, k: int) -> bool {
    exists|j: int| 0 <= j < k && raws[j].id == raws[k].id
}

/// Duplicate identifiers among the first `k` found items, one issue for each
/// item that repeats an earlier identifier.
pub open spec fn duplicates(raws: Seq<RawItemView>, k: nat) -> Seq<IssueView>
    decreases k,
{
    if k == 0 {
        Seq::empty()
    } else {
        duplicates(raws, (k - 1) as nat) + if seen_before(raws, k - 1) {
            seq![IssueView::DuplicateId(raws[k - 1].id)]
        } else {
            Seq::empty()
        }
    }
}

proof fn lemma_first_found_some(raws: Seq<RawItemView>, types: Seq<TypeMappingView>, id: Seq<char>, k: nat)
    requires
        k <= raws.len(),
    ensures
        first_found(raws, types, id, k) is Some <==> exists|j: int| 0 <= j < k && raws[j].id == id,
    decreases k,
{
    if k > 0 {
        lemma_first_found_some(raws, types, id, (k - 1) as nat);
        if exists|j: int| 0 <= j < k && raws[j].id == id {
            let j = choose|j: int| 0 <= j < k && raws[j].id == id;
            if j < k - 1 {
                assert(exists|j: int| 0 <= j < k - 1 && raws[j].id == id);
            }
        }
    }
}

proof fn lemma_first_found_data(raws: Seq<RawItemView>, types: Seq<TypeMappingView>, id: Seq<char>, k: nat)
    requires
        k <= raws.len(),
    ensures
        first_found(raws, types, id, k) matches Some(t) ==> exists|j: int|
            0 <= j < k && #[trigger] raws[j].id == id && (forall|m: int| 0 <= m < j ==> raws[m].id != id) && t.id == id
                && t.title == raws[j].title && t.file_path == raws[j].file_path && t.line_range == raws[j].line_range
                && t.derived_from == raws[j].derived_from,
    decreases k,
{
    if k > 0 {
        lemma_first_found_data(raws, types, id, (k - 1) as nat);
        lemma_first_found_some(raws, types, id, (k - 1) as nat);
    }
}

/// Building keeps each found item's data: the graph item for an identifier
/// has the identifier, title, file, line range and links of the first found
/// item with that identifier.
pub proof fn lemma_build_keeps_item_data(raws: Seq<RawItemView>, types: Seq<TypeMappingView>, j: int)
    requires
        0 <= j < raws.len(),
        forall|m: int| 0 <= m < j ==> raws[m].id != raws[j].id,
    ensures
        first_found(raws, types, raws[j].id, raws.len()) matches Some(t) && t.id == raws[j].id && t.title == raws[j].title
            && t.file_path == raws[j].file_path && t.line_range == raws[j].line_range && t.derived_from
            == raws[j].derived_from,
{
    let id = raws[j].id;
    lemma_first_found_some(raws, types, id, raws.len());
    lemma_first_found_data(raws, types, id, raws.len());
    let t = first_found(raws, types, id, raws.len())->Some_0;
    let q = choose|q: int|
        0 <= q < raws.len() && #[trigger] raws[q].id == id && (forall|m: int| 0 <= m < q ==> raws[m].id != id) && t.id == id
            && t.title == raws[q].title && t.file_path == raws[q].file_path && t.line_range == raws[q].line_range
            && t.derived_from == raws[q].derived_from;
    if q < j {
        assert(raws[q].id != raws[j].id);
    } else if q > j {
        assert(raws[j].id != id);
    }
}

/// The first type mapping whose prefix starts the identifier.
fn type_for(types: &Vec<TypeMapping>, id: &[char]) -> (r: Option<usize>)
    ensures
        match r {
            Some(i) => i < types@.len() && type_match(mappings_view(types@), id@) == Some(types@[i as int]@),
            None => type_match(mappings_view(types@), id@) is None,
        },
{
    let ghost tv = mappings_view(types@);
    let mut i: usize = 0;
    assert(tv.skip(0) =~= tv);
    while i < types.len()
        invariant
            i <= types@.len(),
            tv == mappings_view(types@),
            type_match(tv, id@) == type_match(tv.skip(i as int), id@),
        decreases types.len() - i,
    {
        let prefix = chars_of(types[i].prefix.as_str());
        assert(tv.skip(i as int)[0] == types@[i as int]@);
        if starts_with_exec(id, &prefix) {
            return Some(i);
        }
        assert(tv.skip(i as int).drop_first() =~= tv.skip(i + 1));
        i = i + 1;
    }
    None
}

fn clone_opt(o: &Option<String>) -> (r: Option<String>)
    ensures
        match o {
            Some(s) => r matches Some(t) && t@ == s@,
            None => r is None,
        },
{
    match o {
        Some(s) => Some(s.clone()),
        None => None,
    }
}

proof fn lemma_untested_members(s: Seq<TraceItemView>, k: nat, v: IssueView)
    requires
        k <= s.len(),
    ensures
        untested(s, k).contains(v) <==> exists|j: int| 0 <= j < k && s[j].item_type == requirement_type()
            && !tested(s, j) && v == IssueView::UntestedRequirement(s[j].id),
    decreases k,
{
    if k > 0 {
        lemma_untested_members(s, (k - 1) as nat, v);
        let prev = untested(s, (k - 1) as nat);
        let cur = untested(s, k);
        if cur.contains(v) {
            let q = choose|q: int| 0 <= q < cur.len() && cur[q] == v;
            if q < prev.len() {
                assert(prev[q] == v);
            }
        }
        if exists|j: int| 0 <= j < k && s[j].item_type == requirement_type() && !tested(s, j)
            && v == IssueView::UntestedRequirement(s[j].id) {
            let j = choose|j: int| 0 <= j < k && s[j].item_type == requirement_type() && !tested(s, j)
                && v == IssueView::UntestedRequirement(s[j].id);
            if j < k - 1 {
                let q = choose|q: int| 0 <= q < prev.len() && prev[q] == v;
                assert(cur[q] == v);
            } else {
                assert(cur[prev.len() as int] == v);
            }
        }
    }
}

proof fn lemma_orphan_members(s: Seq<TraceItemView>, k: nat, v: IssueView)
    requires
        k <= s.len(),
    ensures
        orphans(s, k).contains(v) <==> exists|j: int| 0 <= j < k && is_orphan(s, j) && v == IssueView::Orphan(s[j].id),
    decreases k,
{
    if k > 0 {
        lemma_orphan_members(s, (k - 1) as nat, v);
        let prev = orphans(s, (k - 1) as nat);
        let cur = orphans(s, k);
        if cur.contains(v) {
            let q = choose|q: int| 0 <= q < cur.len() && cur[q] == v;
            if q < prev.len() {
                assert(prev[q] == v);
            }
        }
        if exists|j: int| 0 <= j < k && is_orphan(s, j) && v == IssueView::Orphan(s[j].id) {
            let j = choose|j: int| 0 <= j < k && is_orphan(s, j) && v == IssueView::Orphan(s[j].id);
            if j < k - 1 {
                let q = choose|q: int| 0 <= q < prev.len() && prev[q] == v;
                assert(cur[q] == v);
            } else {
                assert(cur[prev.len() as int] == v);
            }
        }
    }
}

proof fn lemma_cycle_members(s: Seq<TraceItemView>, k: nat, v: IssueView)
    requires
        k <= s.len(),
    ensures
        cycles(s, k).contains(v) <==> exists|j: int| 0 <= j < k && on_cycle(s, j) && v == IssueView::CyclicDependency(s[j].id),
    decreases k,
{
    if k > 0 {
        lemma_cycle_members(s, (k - 1) as nat, v);
        let prev = cycles(s, (k - 1) as nat);
        let cur = cycles(s, k);
        if cur.contains(v) {
            let q = choose|q: int| 0 <= q < cur.len() && cur[q] == v;
            if q < prev.len() {
                assert(prev[q] == v);
            }
        }
        if exists|j: int| 0 <= j < k && on_cycle(s, j) && v == IssueView::CyclicDependency(s[j].id) {
            let j = choose|j: int| 0 <= j < k && on_cycle(s, j) && v == IssueView::CyclicDependency(s[j].id);
            if j < k - 1 {
                let q = choose|q: int| 0 <= q < prev.len() && prev[q] == v;
                assert(cur[q] == v);
            } else {
                assert(cur[prev.len() as int] == v);
            }
        }
    }
}

proof fn lemma_broken_of_members(s: Seq<TraceItemView>, src: Seq<char>, targets: Seq<Seq<char>>, v: IssueView)
    ensures
        broken_of(s, src, targets).contains(v) <==> exists|t: Seq<char>| targets.contains(t) && !has_id(s, t)
            && v == IssueView::BrokenLink(src, t),
    decreases targets.len(),
{
    if targets.len() > 0 {
        let rest = targets.drop_last();
        lemma_broken_of_members(s, src, rest, v);
        let prev = broken_of(s, src, rest);
        let cur = broken_of(s, src, targets);
        if cur.contains(v) {
            let q = choose|q: int| 0 <= q < cur.len() && cur[q] == v;
            if q < prev.len() {
                assert(prev[q] == v);
                let t = choose|t: Seq<char>| rest.contains(t) && !has_id(s, t) && v == IssueView::BrokenLink(src, t);
                let w = choose|w: int| 0 <= w < rest.len() && rest[w] == t;
                assert(targets[w] == t);
            } else {
                assert(targets[targets.len() - 1] == targets.last());
            }
        }
        if exists|t: Seq<char>| targets.contains(t) && !has_id(s, t) && v == IssueView::BrokenLink(src, t) {
            let t = choose|t: Seq<char>| targets.contains(t) && !has_id(s, t) && v == IssueView::BrokenLink(src, t);
            let w = choose|w: int| 0 <= w < targets.len() && targets[w] == t;
            if w < targets.len() - 1 {
                assert(rest[w] == t);
                let q = choose|q: int| 0 <= q < prev.len() && prev[q] == v;
                assert(cur[q] == v);
            } else {
                assert(cur[prev.len() as int] == v);
            }
        }
    }
}

proof fn lemma_broken_members(s: Seq<TraceItemView>, k: nat, v: IssueView)
    requires
        k <= s.len(),
    ensures
        broken_links(s, k).contains(v) <==> exists|j: int, t: Seq<char>| 0 <= j < k && s[j].derived_from.contains(t)
            && !has_id(s, t) && v == IssueView::BrokenLink(s[j].id, t),
    decreases k,
{
    if k > 0 {
        lemma_broken_members(s, (k - 1) as nat, v);
        lemma_broken_of_members(s, s[k - 1].id, s[k - 1].derived_from, v);
        let prev = broken_links(s, (k - 1) as nat);
        let last = broken_of(s, s[k - 1].id, s[k - 1].derived_from);
        let cur = broken_links(s, k);
        if cur.contains(v) {
            let q = choose|q: int| 0 <= q < cur.len() && cur[q] == v;
            if q < prev.len() {
                assert(prev[q] == v);
            } else {
                assert(last[q - prev.len()] == v);
                let t = choose|t: Seq<char>| s[k - 1].derived_from.contains(t) && !has_id(s, t)
                    && v == IssueView::BrokenLink(s[k - 1].id, t);
                assert(exists|j: int, t: Seq<char>| 0 <= j < k && s[j].derived_from.contains(t)
                    && !has_id(s, t) && v == IssueView::BrokenLink(s[j].id, t)) by {
                    assert(0 <= k - 1 < k);
                }
            }
        }
        if exists|j: int, t: Seq<char>| 0 <= j < k && s[j].derived_from.contains(t)
            && !has_id(s, t) && v == IssueView::BrokenLink(s[j].id, t) {
            let (j, t) = choose|j: int, t: Seq<char>| 0 <= j < k && s[j].derived_from.contains(t)
                && !has_id(s, t) && v == IssueView::BrokenLink(s[j].id, t);
            if j < k - 1 {
                let q = choose|q: int| 0 <= q < prev.len() && prev[q] == v;
                assert(cur[q] == v);
            } else {
                let q = choose|q: int| 0 <= q < last.len() && last[q] == v;
                assert(cur[prev.len() + q] == v);
            }
        }
    }
}

proof fn lemma_concat_contains<A>(a: Seq<A>, b: Seq<A>, v: A)
    ensures
        (a + b).contains(v) <==> a.contains(v) || b.contains(v),
{
    if (a + b).contains(v) {
        let q = choose|q: int| 0 <= q < (a + b).len() && (a + b)[q] == v;
        if q < a.len() {
            assert(a[q] == v);
        } else {
            assert(b[q - a.len()] == v);
        }
    }
    if a.contains(v) {
        let q = choose|q: int| 0 <= q < a.len() && a[q] == v;
        assert((a + b)[q] == v);
    }
    if b.contains(v) {
        let q = choose|q: int| 0 <= q < b.len() && b[q] == v;
        assert((a + b)[a.len() + q] == v);
    }
}

proof fn lemma_issue_parts(s: Seq<TraceItemView>, v: IssueView)
    ensures
        validation_issues(s).contains(v) <==> broken_links(s, s.len()).contains(v) || orphans(s, s.len()).contains(v)
            || untested(s, s.len()).contains(v) || cycles(s, s.len()).contains(v),
        broken_links(s, s.len()).contains(v) <==> exists|j: int, t: Seq<char>| 0 <= j < s.len() && s[j].derived_from.contains(t)
            && !has_id(s, t) && v == IssueView::BrokenLink(s[j].id, t),
        orphans(s, s.len()).contains(v) <==> exists|j: int| 0 <= j < s.len() && is_orphan(s, j) && v == IssueView::Orphan(s[j].id),
        untested(s, s.len()).contains(v) <==> exists|j: int| 0 <= j < s.len() && s[j].item_type == requirement_type()
            && !tested(s, j) && v == IssueView::UntestedRequirement(s[j].id),
        cycles(s, s.len()).contains(v) <==> exists|j: int| 0 <= j < s.len() && on_cycle(s, j) && v == IssueView::CyclicDependency(s[j].id),
{
    let n = s.len();
    lemma_concat_contains(broken_links(s, n) + orphans(s, n) + untested(s, n), cycles(s, n), v);
    lemma_concat_contains(broken_links(s, n) + orphans(s, n), untested(s, n), v);
    lemma_concat_contains(broken_links(s, n), orphans(s, n), v);
    lemma_broken_members(s, n, v);
    lemma_orphan_members(s, n, v);
    lemma_untested_members(s, n, v);
    lemma_cycle_members(s, n, v);
}

/// A requirement is reported untested exactly when no test derives from it,
/// directly or through other items.
pub proof fn lemma_untested_reported(s: Seq<TraceItemView>, i: int)
    requires
        sorted_by_id(s),
        0 <= i < s.len(),
    ensures
        validation_issues(s).contains(IssueView::UntestedRequirement(s[i].id)) <==> (
            s[i].item_type == requirement_type() && !tested(s, i)),
{
    let v = IssueView::UntestedRequirement(s[i].id);
    let n = s.len();
    lemma_issue_parts(s, v);
    if untested(s, n).contains(v) {
        let j = choose|j: int| 0 <= j < n && s[j].item_type == requirement_type() && !tested(s, j)
            && v == IssueView::UntestedRequirement(s[j].id);
        if j != i {
            if j < i {
                assert(seq_lt(s[j].id, s[i].id));
            } else {
                assert(seq_lt(s[i].id, s[j].id));
            }
            lemma_lt_irreflexive(s[i].id);
        }
    }
}

/// An item is reported as an orphan exactly when it is not a requirement and
/// derives from no requirement, directly or through other items (a link to
/// an identifier no item has leads nowhere).
pub proof fn lemma_orphan_reported(s: Seq<TraceItemView>, i: int)
    requires
        sorted_by_id(s),
        0 <= i < s.len(),
    ensures
        validation_issues(s).contains(IssueView::Orphan(s[i].id)) <==> is_orphan(s, i),
{
    let v = IssueView::Orphan(s[i].id);
    let n = s.len();
    lemma_issue_parts(s, v);
    if orphans(s, n).contains(v) {
        let j = choose|j: int| 0 <= j < n && is_orphan(s, j) && v == IssueView::Orphan(s[j].id);
        if j != i {
            if j < i {
                assert(seq_lt(s[j].id, s[i].id));
            } else {
                assert(seq_lt(s[i].id, s[j].id));
            }
            lemma_lt_irreflexive(s[i].id);
        }
    }
}

/// An item is reported on a derivation cycle exactly when it derives from
/// itself, directly or through other items.
pub proof fn lemma_cycle_reported(s: Seq<TraceItemView>, i: int)
    requires
        sorted_by_id(s),
        0 <= i < s.len(),
    ensures
        validation_issues(s).contains(IssueView::CyclicDependency(s[i].id)) <==> on_cycle(s, i),
{
    let v = IssueView::CyclicDependency(s[i].id);
    let n = s.len();
    lemma_issue_parts(s, v);
    if cycles(s, n).contains(v) {
        let j = choose|j: int| 0 <= j < n && on_cycle(s, j) && v == IssueView::CyclicDependency(s[j].id);
        if j != i {
            if j < i {
                assert(seq_lt(s[j].id, s[i].id));
            } else {
                assert(seq_lt(s[i].id, s[j].id));
            }
            lemma_lt_irreflexive(s[i].id);
        }
    }
}

/// A broken link from `src` to `target` is reported exactly when an item
/// `src` derives from `target` and no item has the identifier `target`.
pub proof fn lemma_broken_link_reported(s: Seq<TraceItemView>, src: Seq<char>, target: Seq<char>)
    ensures
        validation_issues(s).contains(IssueView::BrokenLink(src, target)) <==> (
            exists|j: int| 0 <= j < s.len() && s[j].id == src && s[j].derived_from.contains(target))
            && !has_id(s, target),
{
    let v = IssueView::BrokenLink(src, target);
    let n = s.len();
    lemma_issue_parts(s, v);
    if exists|j: int| 0 <= j < s.len() && s[j].id == src && s[j].derived_from.contains(target) {
        if !has_id(s, target) {
            let j = choose|j: int| 0 <= j < s.len() && s[j].id == src && s[j].derived_from.contains(target);
            assert(exists|j: int, t: Seq<char>| 0 <= j < n && s[j].derived_from.contains(t)
                && !has_id(s, t) && v == IssueView::BrokenLink(s[j].id, t)) by {
                assert(s[j].derived_from.contains(target));
            }
        }
    }
}

/// The traceability graph: its items in increasing order of identifier, each
/// identifier once.
#[derive(Debug)]
pub struct Graph {
    items: Vec<TraceItem>,
}

impl View for Graph {
    type V = Seq<TraceItemView>;

    closed spec fn view(&self) -> Seq<TraceItemView> {
        items_view(self.items@)
    }
}

impl Default for Graph {
    /// An empty graph.
    fn default() -> (r: Self)
        ensures
            r@ == Seq::<TraceItemView>::empty(),
    {
        Graph::new()
    }
}

/// In a sorted sequence, the item at `i` is the one found under its identifier.
pub proof fn lemma_lookup_at(s: Seq<TraceItemView>, i: int)
    requires
        sorted_by_id(s),
        0 <= i < s.len(),
    ensures
        lookup(s, s[i].id) == Some(s[i]),
{
    let j = choose|j: int| 0 <= j < s.len() && s[j].id == s[i].id;
    if j != i {
        lemma_lt_irreflexive(s[i].id);
    }
}

impl Graph {
    #[verifier::type_invariant]
    spec fn well_ordered(self) -> bool {
        sorted_by_id(items_view(self.items@))
    }

    /// The items of a graph are sorted by identifier, each identifier once.
    pub fn check_sorted(&self)
        ensures
            sorted_by_id(self@),
    {
        proof {
            use_type_invariant(self);
        }
    }

    /// An empty graph.
    pub fn new() -> (r: Self)
        ensures
            r@ == Seq::<TraceItemView>::empty(),
    {
        let g = Graph { items: Vec::new() };
        assert(items_view(g.items@) =~= Seq::<TraceItemView>::empty());
        g
    }

    /// The number of items.
    pub fn len(&self) -> (r: usize)
        ensures
            r == self@.len(),
    {
        self.items.len()
    }

    /// Whether the graph has no items.
    pub fn is_empty(&self) -> (r: bool)
        ensures
            r == (self@.len() == 0),
    {
        self.items.len() == 0
    }

    /// The items, in increasing order of identifier.
    pub fn items(&self) -> (r: &[TraceItem])
        ensures
            items_view(r@) == self@,
    {
        self.items.as_slice()
    }

    /// The position of the item with the identifier, if any.
    fn position(&self, id: &[char]) -> (r: Option<usize>)
        ensures
            match r {
                Some(i) => i < self@.len() && self@[i as int].id == id@,
                None => !has_id(self@, id@),
            },
    {
        let mut i: usize = 0;
        while i < self.items.len()
            invariant
                i <= self@.len(),
                self@ == items_view(self.items@),
                forall|j: int| 0 <= j < i ==> self@[j].id != id@,
            decreases self.items.len() - i,
        {
            let key = chars_of(self.items[i].id.as_str());
            if eq(&key, id) {
                return Some(i);
            }
            i = i + 1;
        }
        None
    }

    /// The item with the identifier, if any.
    pub fn get(&self, id: &str) -> (r: Option<&TraceItem>)
        ensures
            match r {
                Some(t) => lookup(self@, id@) == Some(t@),
                None => lookup(self@, id@) is None,
            },
    {
        proof {
            use_type_invariant(self);
        }
        let key = chars_of(id);
        match self.position(&key) {
            Some(i) => {
                proof {
                    lemma_lookup_at(self@, i as int);
                }
                Some(&self.items[i])
            },
            None => None,
        }
    }

    /// Whether an item has the identifier.
    pub fn contains(&self, id: &str) -> (r: bool)
        ensures
            r == has_id(self@, id@),
    {
        let key = chars_of(id);
        self.position(&key).is_some()
    }

    /// The graph of the found items and the issues found on the way: an item
    /// whose identifier was seen before is left out and reported as a
    /// duplicate; then the graph's own issues follow.
    pub fn build(raw_items: Vec<RawItem>, config: &Config) -> (r: (Self, Vec<ValidationIssue>))
        ensures
            forall|id: Seq<char>| #[trigger] lookup(r.0@, id) == first_found(raw_items_view(raw_items@),
                mappings_view(config.types@), id, raw_items@.len() as nat),
            issues_view(r.1@) == duplicates(raw_items_view(raw_items@), raw_items@.len() as nat)
                + validation_issues(r.0@),
            sorted_by_id(r.0@),
            forall|j: int|
                0 <= j < raw_items@.len() && (forall|m: int| 0 <= m < j ==> raw_items@[m].id@ != raw_items@[j].id@)
                    ==> (lookup(r.0@, #[trigger] raw_items@[j].id@) matches Some(t) && t.title == raw_items@[j].title@
                    && t.file_path == raw_items@[j].file_path@ && t.line_range == raw_items@[j].line_range
                    && t.derived_from == raw_items@[j]@.derived_from),
    {
        let ghost raws = raw_items_view(raw_items@);
        let ghost types = mappings_view(config.types@);
        let mut graph = Graph::new();
        let mut issues: Vec<ValidationIssue> = Vec::new();
        let n = raw_items.len();
        for raw in it: raw_items
            invariant
                n == raw_items@.len(),
                it.seq() == raw_items@,
                raws == raw_items_view(raw_items@),
                types == mappings_view(config.types@),
                forall|id: Seq<char>| #[trigger] lookup(graph@, id) == first_found(raws, types, id, it.index() as nat),
                issues_view(issues@) == duplicates(raws, it.index() as nat),
        {
            let ghost k = it.index();
            assert(raw@ == raws[k as int]);
            proof {
                lemma_first_found_some(raws, types, raw@.id, k as nat);
            }
            let ghost before = issues_view(issues@);
            if graph.contains(raw.id.as_str()) {
                assert(lookup(graph@, raw@.id) is Some);
                issues.push(ValidationIssue::DuplicateId(raw.id.clone()));
                assert(issues_view(issues@) =~= before.push(IssueView::DuplicateId(raws[k as int].id)));
                assert(issues_view(issues@) =~= duplicates(raws, (k + 1) as nat));
                assert forall|id: Seq<char>| #[trigger] lookup(graph@, id) == first_found(raws, types, id, (k + 1) as nat) by {
                    lemma_first_found_some(raws, types, id, k as nat);
                }
            } else {
                assert(!seen_before(raws, k as int));
                let key = chars_of(raw.id.as_str());
                let ghost conv = convert(raws[k as int], types);
                let (item_type, requirement_type) = match type_for(&config.types, &key) {
                    Some(t) => {
                        let it = config.types[t].item_type.clone();
                        let rt = clone_opt(&config.types[t].requirement_type);
                        assert(types[t as int] == config.types@[t as int]@);
                        (it, rt)
                    },
                    None => {
                        proof {
                            reveal_strlit("Unknown");
                        }
                        let u = "Unknown".to_owned();
                        assert(u@ =~= unknown_type());
                        (u, None)
                    },
                };
                assert(item_type@ == conv.item_type);
                assert(match requirement_type { Some(x) => Some(x@), None => None } == conv.requirement_type);
                let item = TraceItem {
                    id: raw.id,
                    item_type,
                    requirement_type,
                    title: raw.title,
                    file_path: raw.file_path,
                    line_range: raw.line_range,
                    derived_from: raw.derived_from,
                };
                assert(item@ == convert(raws[k as int], types));
                let ghost g0 = graph@;
                graph.insert(item);
                assert(issues_view(issues@) =~= duplicates(raws, (k + 1) as nat));
                assert forall|id: Seq<char>| #[trigger] lookup(graph@, id) == first_found(raws, types, id, (k + 1) as nat) by {
                    lemma_first_found_some(raws, types, id, k as nat);
                    assert(lookup(graph@, id) == if id == raws[k as int].id { Some(convert(raws[k as int], types)) } else { lookup(g0, id) });
                }
            }
        }
        let mut found = graph.validate();
        issues.append(&mut found);
        proof {
            use_type_invariant(&graph);
            let raws = raw_items_view(raw_items@);
            let types = mappings_view(config.types@);
            assert forall|j: int|
                0 <= j < raw_items@.len() && (forall|m: int| 0 <= m < j ==> raw_items@[m].id@ != raw_items@[j].id@)
                    implies (lookup(graph@, #[trigger] raw_items@[j].id@) matches Some(t) && t.title == raw_items@[j].title@
                    && t.file_path == raw_items@[j].file_path@ && t.line_range == raw_items@[j].line_range
                    && t.derived_from == raw_items@[j]@.derived_from) by {
                assert(raws[j] == raw_items@[j]@);
                assert forall|m: int| 0 <= m < j implies raws[m].id != raws[j].id by {
                    assert(raws[m] == raw_items@[m]@);
                }
                lemma_build_keeps_item_data(raws, types, j);
            }
        }
        (graph, issues)
    }

    /// All issues of the graph: broken links, orphans, untested requirements
    /// and items on derivation cycles, as `validation_issues` lists them.
    pub fn validate(&self) -> (r: Vec<ValidationIssue>)
        ensures
            issues_view(r@) == validation_issues(self@),
    {
        proof {
            use_type_invariant(self);
        }
        let ghost s = self@;
        let n = self.items.len();
        let req = requirement_chars();
        let tst = test_chars();
        let mut keys: Vec<Vec<char>> = Vec::new();
        let mut is_test: Vec<bool> = Vec::new();
        let mut is_req: Vec<bool> = Vec::new();
        let mut children: Vec<Vec<usize>> = Vec::new();
        let mut parents: Vec<Vec<usize>> = Vec::new();
        let mut i: usize = 0;
        while i < n
            invariant
                n == s.len(),
                s == items_view(self.items@),
                tst@ == test_type(),
                req@ == requirement_type(),
                i <= n,
                keys@.len() == i,
                is_test@.len() == i,
                is_req@.len() == i,
                children@.len() == i,
                parents@.len() == i,
                forall|j: int| 0 <= j < i ==> keys@[j]@ == s[j].id,
                forall|j: int| 0 <= j < i ==> is_test@[j] == (s[j].item_type == test_type()),
                forall|j: int| 0 <= j < i ==> is_req@[j] == (s[j].item_type == requirement_type()),
                forall|j: int| 0 <= j < i ==> children@[j]@.len() == 0,
                forall|j: int| 0 <= j < i ==> parents@[j]@.len() == 0,
            decreases n - i,
        {
            assert(s[i as int] == self.items@[i as int]@);
            keys.push(chars_of(self.items[i].id.as_str()));
            is_test.push(eq(&chars_of(self.items[i].item_type.as_str()), &tst));
            is_req.push(eq(&chars_of(self.items[i].item_type.as_str()), &req));
            children.push(Vec::new());
            parents.push(Vec::new());
            i = i + 1;
        }
        let mut issues: Vec<ValidationIssue> = Vec::new();
        let mut c: usize = 0;
        while c < n
            invariant
                n == s.len(),
                s == items_view(self.items@),
                sorted_by_id(s),
                c <= n,
                keys@.len() == n,
                children@.len() == n,
                forall|j: int| 0 <= j < n ==> keys@[j]@ == s[j].id,
                issues_view(issues@) == broken_links(s, c as nat),
                parents@.len() == n,
                forall|x: int, k: int| 0 <= x < n && 0 <= k < parents@[x]@.len() ==> parents@[x]@[k] < n,
                forall|x: int, k: int| 0 <= x < n && 0 <= k < parents@[x]@.len() ==> derives(s, x, parents@[x]@[k] as int),
                forall|x: int, p: int| 0 <= x < c && 0 <= p < n && derives(s, x, p) ==> parents@[x]@.contains(p as usize),
                forall|x: int| c <= x < n ==> parents@[x]@.len() == 0,
                forall|p: int, k: int| 0 <= p < n && 0 <= k < children@[p]@.len() ==> children@[p]@[k] < c,
                forall|p: int, k: int| 0 <= p < n && 0 <= k < children@[p]@.len() ==> derives(s, children@[p]@[k] as int, p),
                forall|p: int, x: int| 0 <= p < n && 0 <= x < c && derives(s, x, p) ==> children@[p]@.contains(x as usize),
            decreases n - c,
        {
            let targets = &self.items[c].derived_from;
            let ghost tv = s[c as int].derived_from;
            assert(tv == targets@.map_values(|t: String| t@));
            let ghost base = issues_view(issues@);
            let mut t: usize = 0;
            while t < targets.len()
                invariant
                    n == s.len(),
                    s == items_view(self.items@),
                    sorted_by_id(s),
                    c < n,
                    targets@.map_values(|t: String| t@) == tv,
                    tv == s[c as int].derived_from,
                    t <= targets@.len(),
                    keys@.len() == n,
                    children@.len() == n,
                    forall|j: int| 0 <= j < n ==> keys@[j]@ == s[j].id,
                    base == broken_links(s, c as nat),
                    issues_view(issues@) == base + broken_of(s, s[c as int].id, tv.take(t as int)),
                    forall|p: int, k: int| 0 <= p < n && 0 <= k < children@[p]@.len() ==> children@[p]@[k] <= c,
                    forall|p: int, k: int| 0 <= p < n && 0 <= k < children@[p]@.len() ==> derives(s, children@[p]@[k] as int, p),
                    forall|p: int, x: int| 0 <= p < n && 0 <= x < c && derives(s, x, p) ==> children@[p]@.contains(x as usize),
                    forall|p: int| 0 <= p < n && tv.take(t as int).contains(s[p].id) ==> children@[p]@.contains(c),
                    parents@.len() == n,
                    forall|x: int, k: int| 0 <= x < n && 0 <= k < parents@[x]@.len() ==> parents@[x]@[k] < n,
                    forall|x: int, k: int| 0 <= x < n && 0 <= k < parents@[x]@.len() ==> derives(s, x, parents@[x]@[k] as int),
                    forall|x: int, p: int| 0 <= x < c && 0 <= p < n && derives(s, x, p) ==> parents@[x]@.contains(p as usize),
                    forall|x: int| c < x < n ==> parents@[x]@.len() == 0,
                    forall|p: int| 0 <= p < n && tv.take(t as int).contains(s[p].id) ==> parents@[c as int]@.contains(p as usize),
                decreases targets.len() - t,
            {
                let tk = chars_of(targets[t].as_str());
                assert(tv.take(t + 1).drop_last() =~= tv.take(t as int));
                assert(tv.take(t + 1).last() == tk@);
                match find_key(&keys, &tk) {
                    None => {
                        let ghost before = issues_view(issues@);
                        issues.push(ValidationIssue::BrokenLink(self.items[c].id.clone(), targets[t].clone()));
                        assert(!has_id(s, tk@));
                        assert(issues_view(issues@) =~= before.push(IssueView::BrokenLink(s[c as int].id, tk@)));
                        assert(issues_view(issues@) =~= base + broken_of(s, s[c as int].id, tv.take(t + 1)));
                        assert forall|p: int| 0 <= p < n && tv.take(t + 1).contains(s[p].id) implies children@[p]@.contains(c) by {
                            let q = choose|q: int| 0 <= q < t + 1 && #[trigger] tv.take(t + 1)[q] == s[p].id;
                            if q == t {
                                assert(keys@[p]@ == tk@);
                            } else {
                                assert(tv.take(t as int)[q] == s[p].id);
                            }
                        }
                        assert forall|p: int| 0 <= p < n && tv.take(t + 1).contains(s[p].id) implies parents@[c as int]@.contains(p as usize) by {
                            let q = choose|q: int| 0 <= q < t + 1 && #[trigger] tv.take(t + 1)[q] == s[p].id;
                            if q == t {
                                assert(keys@[p]@ == tk@);
                            } else {
                                assert(tv.take(t as int)[q] == s[p].id);
                            }
                        }
                    },
                    Some(p) => {
                        assert(has_id(s, tk@));
                        assert(issues_view(issues@) =~= base + broken_of(s, s[c as int].id, tv.take(t + 1)));
                        let ghost old_children = children@;
                        let mut cp = children[p].clone();
                        assert(cp@ =~= old_children[p as int]@);
                        cp.push(c);
                        children.set(p, cp);
                        let ghost old_parents = parents@;
                        let mut pp = parents[c].clone();
                        assert(pp@ =~= old_parents[c as int]@);
                        pp.push(p);
                        parents.set(c, pp);
                        assert(derives(s, c as int, p as int)) by {
                            assert(tv[t as int] == tk@);
                        }
                        assert forall|x: int, k: int| 0 <= x < n && 0 <= k < parents@[x]@.len() implies derives(s, x, parents@[x]@[k] as int)
                            && parents@[x]@[k] < n by {
                            if x == c && k == old_parents[x]@.len() {
                            } else {
                                assert(parents@[x]@[k] == old_parents[x]@[k]);
                            }
                        }
                        assert forall|x: int, q: int| 0 <= x < c && 0 <= q < n && derives(s, x, q) implies parents@[x]@.contains(q as usize) by {
                            let kk = choose|kk: int| 0 <= kk < old_parents[x]@.len() && old_parents[x]@[kk] == q as usize;
                            assert(parents@[x]@[kk] == q as usize);
                        }
                        assert forall|q: int| 0 <= q < n && tv.take(t + 1).contains(s[q].id) implies parents@[c as int]@.contains(q as usize) by {
                            let qq = choose|qq: int| 0 <= qq < t + 1 && #[trigger] tv.take(t + 1)[qq] == s[q].id;
                            if qq == t {
                                assert(keys@[q]@ == tk@);
                                assert(s[q].id == s[p as int].id);
                                if q != p {
                                    if q < p {
                                        assert(seq_lt(s[q].id, s[p as int].id));
                                    } else {
                                        assert(seq_lt(s[p as int].id, s[q].id));
                                    }
                                    lemma_lt_irreflexive(s[q].id);
                                }
                                assert(parents@[c as int]@[old_parents[c as int]@.len() as int] == p);
                            } else {
                                assert(tv.take(t as int)[qq] == s[q].id);
                                let kk = choose|kk: int| 0 <= kk < old_parents[c as int]@.len() && old_parents[c as int]@[kk] == q as usize;
                                assert(parents@[c as int]@[kk] == q as usize);
                            }
                        }
                        assert(tv.contains(s[p as int].id)) by {
                            assert(tv[t as int] == tk@);
                        }
                        assert forall|q: int, k: int| 0 <= q < n && 0 <= k < children@[q]@.len() implies derives(s, children@[q]@[k] as int, q) by {
                            if q == p && k == old_children[q]@.len() {
                            } else {
                                assert(children@[q]@[k] == old_children[q]@[k]);
                            }
                        }
                        assert forall|q: int, k: int| 0 <= q < n && 0 <= k < children@[q]@.len() implies children@[q]@[k] <= c by {
                            if q == p && k == old_children[q]@.len() {
                            } else {
                                assert(children@[q]@[k] == old_children[q]@[k]);
                            }
                        }
                        assert forall|q: int, x: int| 0 <= q < n && 0 <= x < c && derives(s, x, q) implies children@[q]@.contains(x as usize) by {
                            let kk = choose|kk: int| 0 <= kk < old_children[q]@.len() && old_children[q]@[kk] == x as usize;
                            assert(children@[q]@[kk] == x as usize);
                        }
                        assert forall|q: int| 0 <= q < n && tv.take(t + 1).contains(s[q].id) implies children@[q]@.contains(c) by {
                            let qq = choose|qq: int| 0 <= qq < t + 1 && #[trigger] tv.take(t + 1)[qq] == s[q].id;
                            if qq == t {
                                assert(keys@[q]@ == tk@);
                                assert(s[q].id == s[p as int].id);
                                if q != p {
                                    if q < p {
                                        assert(seq_lt(s[q].id, s[p as int].id));
                                    } else {
                                        assert(seq_lt(s[p as int].id, s[q].id));
                                    }
                                    lemma_lt_irreflexive(s[q].id);
                                }
                                assert(children@[q]@[old_children[q]@.len() as int] == c);
                            } else {
                                assert(tv.take(t as int)[qq] == s[q].id);
                                let kk = choose|kk: int| 0 <= kk < old_children[q]@.len() && old_children[q]@[kk] == c;
                                assert(children@[q]@[kk] == c);
                            }
                        }
                    },
                }
                t = t + 1;
            }
            assert(tv.take(targets@.len() as int) =~= tv);
            assert forall|p: int, x: int| 0 <= p < n && 0 <= x < c + 1 && derives(s, x, p) implies children@[p]@.contains(x as usize) by {
                if x == c {
                    assert(tv.contains(s[p].id));
                }
            }
            assert forall|x: int, p: int| 0 <= x < c + 1 && 0 <= p < n && derives(s, x, p) implies parents@[x]@.contains(p as usize) by {
                if x == c {
                    assert(tv.contains(s[p].id));
                }
            }
            c = c + 1;
        }
        let mut o: usize = 0;
        let ghost base1 = issues_view(issues@);
        while o < n
            invariant
                n == s.len(),
                s == items_view(self.items@),
                o <= n,
                base1 == broken_links(s, n as nat),
                issues_view(issues@) == base1 + orphans(s, o as nat),
                is_req@.len() == n,
                forall|j: int| 0 <= j < n ==> is_req@[j] == (s[j].item_type == requirement_type()),
                parents@.len() == n,
                forall|x: int, k: int| 0 <= x < n && 0 <= k < parents@[x]@.len() ==> parents@[x]@[k] < n,
                forall|x: int, k: int| 0 <= x < n && 0 <= k < parents@[x]@.len() ==> derives(s, x, parents@[x]@[k] as int),
                forall|x: int, p: int| 0 <= x < n && 0 <= p < n && derives(s, x, p) ==> parents@[x]@.contains(p as usize),
            decreases n - o,
        {
            let ghost before = issues_view(issues@);
            let orphan = if is_req[o] {
                false
            } else {
                !search(Ghost(s), Ghost(true), o, &parents, &is_req)
            };
            proof {
                if !is_req@[o as int] {
                    assert(orphan == is_orphan(s, o as int)) by {
                        if derives_from_requirement(s, o as int) {
                            let (b, m) = choose|b: int, m: nat| 0 <= b < s.len() && #[trigger] reaches(s, true, o as int, b, m)
                                && s[b].item_type == requirement_type();
                            assert(reaches(s, true, o as int, b, m) && is_req@[b]);
                        } else if !orphan {
                            let (b, m) = choose|b: int, m: nat| 0 <= b < s.len() && #[trigger] reaches(s, true, o as int, b, m)
                                && is_req@[b];
                            assert(reaches(s, true, o as int, b, m) && s[b].item_type == requirement_type());
                        }
                    }
                }
            }
            if orphan {
                issues.push(ValidationIssue::Orphan(self.items[o].id.clone()));
                assert(s[o as int] == self.items@[o as int]@);
                assert(issues_view(issues@) =~= before.push(IssueView::Orphan(s[o as int].id)));
            } else {
                assert(issues_view(issues@) =~= before);
            }
            assert(issues_view(issues@) =~= base1 + orphans(s, (o + 1) as nat));
            o = o + 1;
        }
        let ghost base2 = issues_view(issues@);
        let mut u: usize = 0;
        while u < n
            invariant
                n == s.len(),
                s == items_view(self.items@),
                req@ == requirement_type(),
                u <= n,
                children@.len() == n,
                is_test@.len() == n,
                forall|j: int| 0 <= j < n ==> is_test@[j] == (s[j].item_type == test_type()),
                forall|p: int, k: int| 0 <= p < n && 0 <= k < children@[p]@.len() ==> children@[p]@[k] < n,
                forall|p: int, k: int| 0 <= p < n && 0 <= k < children@[p]@.len() ==> derives(s, children@[p]@[k] as int, p),
                forall|p: int, x: int| 0 <= p < n && 0 <= x < n && derives(s, x, p) ==> children@[p]@.contains(x as usize),
                base2 == broken_links(s, n as nat) + orphans(s, n as nat),
                issues_view(issues@) == base2 + untested(s, u as nat),
            decreases n - u,
        {
            let is_req = eq(&chars_of(self.items[u].item_type.as_str()), &req);
            let ghost before = issues_view(issues@);
            assert(s[u as int] == self.items@[u as int]@);
            let found = if is_req {
                search(Ghost(s), Ghost(false), u, &children, &is_test)
            } else {
                false
            };
            proof {
                if is_req {
                    assert(found == tested(s, u as int)) by {
                        if found {
                            let (b, m) = choose|b: int, m: nat| 0 <= b < s.len() && #[trigger] reaches(s, false, u as int, b, m)
                                && is_test@[b];
                            assert(reaches(s, false, u as int, b, m) && s[b].item_type == test_type());
                        }
                        if tested(s, u as int) {
                            let (b, m) = choose|b: int, m: nat| 0 <= b < s.len() && #[trigger] reaches(s, false, u as int, b, m)
                                && s[b].item_type == test_type();
                            assert(reaches(s, false, u as int, b, m) && is_test@[b]);
                        }
                    }
                }
            }
            if is_req && !found {
                issues.push(ValidationIssue::UntestedRequirement(self.items[u].id.clone()));
                assert(issues_view(issues@) =~= before.push(IssueView::UntestedRequirement(s[u as int].id)));
            } else {
                assert(issues_view(issues@) =~= before);
            }
            assert(issues_view(issues@) =~= base2 + untested(s, (u + 1) as nat));
            u = u + 1;
        }
        let ghost base3 = issues_view(issues@);
        let mut y: usize = 0;
        while y < n
            invariant
                n == s.len(),
                s == items_view(self.items@),
                y <= n,
                children@.len() == n,
                forall|p: int, k: int| 0 <= p < n && 0 <= k < children@[p]@.len() ==> children@[p]@[k] < n,
                forall|p: int, k: int| 0 <= p < n && 0 <= k < children@[p]@.len() ==> derives(s, children@[p]@[k] as int, p),
                forall|p: int, x: int| 0 <= p < n && 0 <= x < n && derives(s, x, p) ==> children@[p]@.contains(x as usize),
                base3 == broken_links(s, n as nat) + orphans(s, n as nat) + untested(s, n as nat),
                issues_view(issues@) == base3 + cycles(s, y as nat),
            decreases n - y,
        {
            let mut target: Vec<bool> = Vec::new();
            let mut q: usize = 0;
            while q < n
                invariant
                    q <= n,
                    y < n,
                    target@.len() == q,
                    forall|j: int| 0 <= j < q ==> target@[j] == (j == y),
                decreases n - q,
            {
                target.push(q == y);
                q = q + 1;
            }
            let ch = &children[y];
            let mut found = false;
            let mut k: usize = 0;
            while k < ch.len()
                invariant
                    n == s.len(),
                    y < n,
                    children@.len() == n,
                    ch@ == children@[y as int]@,
                    forall|p: int, kk: int| 0 <= p < n && 0 <= kk < children@[p]@.len() ==> children@[p]@[kk] < n,
                    forall|p: int, kk: int| 0 <= p < n && 0 <= kk < children@[p]@.len() ==> derives(s, children@[p]@[kk] as int, p),
                    forall|p: int, x: int| 0 <= p < n && 0 <= x < n && derives(s, x, p) ==> children@[p]@.contains(x as usize),
                    target@.len() == n,
                    forall|j: int| 0 <= j < n ==> target@[j] == (j == y),
                    k <= ch@.len(),
                    found == exists|j: int, m: nat| 0 <= j < k && #[trigger] reaches(s, false, ch@[j] as int, y as int, m),
                decreases ch.len() - k,
            {
                let x = ch[k];
                let r = search(Ghost(s), Ghost(false), x, &children, &target);
                proof {
                    if r {
                        let (b, m) = choose|b: int, m: nat| 0 <= b < s.len() && #[trigger] reaches(s, false, x as int, b, m)
                            && target@[b];
                        assert(reaches(s, false, ch@[k as int] as int, y as int, m));
                    }
                    if exists|m: nat| #[trigger] reaches(s, false, x as int, y as int, m) {
                        let m = choose|m: nat| #[trigger] reaches(s, false, x as int, y as int, m);
                        assert(reaches(s, false, x as int, y as int, m) && target@[y as int]);
                    }
                    if exists|j: int, m: nat| 0 <= j < k + 1 && #[trigger] reaches(s, false, ch@[j] as int, y as int, m) {
                        let (j, m) = choose|j: int, m: nat| 0 <= j < k + 1 && #[trigger] reaches(s, false, ch@[j] as int, y as int, m);
                        if j == k {
                            assert(reaches(s, false, x as int, y as int, m));
                        } else {
                            assert(exists|j: int, m: nat| 0 <= j < k && #[trigger] reaches(s, false, ch@[j] as int, y as int, m));
                        }
                    }
                }
                found = found || r;
                k = k + 1;
            }
            proof {
                assert(found == on_cycle(s, y as int)) by {
                    if found {
                        let (j, m) = choose|j: int, m: nat| 0 <= j < ch@.len() && #[trigger] reaches(s, false, ch@[j] as int, y as int, m);
                        assert(derives(s, ch@[j] as int, y as int));
                        assert(reaches(s, false, ch@[j] as int, y as int, m));
                    }
                    if on_cycle(s, y as int) {
                        let (c, m) = choose|c: int, m: nat| 0 <= c < s.len() && derives(s, c, y as int) && #[trigger] reaches(s, false, c, y as int, m);
                        assert(children@[y as int]@.contains(c as usize));
                        let j = choose|j: int| 0 <= j < ch@.len() && ch@[j] == c as usize;
                        assert(reaches(s, false, ch@[j] as int, y as int, m));
                    }
                }
            }
            let ghost before = issues_view(issues@);
            if found {
                issues.push(ValidationIssue::CyclicDependency(self.items[y].id.clone()));
                assert(s[y as int] == self.items@[y as int]@);
                assert(issues_view(issues@) =~= before.push(IssueView::CyclicDependency(s[y as int].id)));
            } else {
                assert(issues_view(issues@) =~= before);
            }
            assert(issues_view(issues@) =~= base3 + cycles(s, (y + 1) as nat));
            y = y + 1;
        }
        issues
    }

    /// Adds the item under its identifier, replacing an item with the same
    /// identifier.
    pub fn insert(&mut self, item: TraceItem)
        ensures
            forall|id: Seq<char>| #[trigger] lookup(final(self)@, id) == if id == item@.id {
                Some(item@)
            } else {
                lookup(old(self)@, id)
            },
            final(self)@.len() == old(self)@.len() + if has_id(old(self)@, item@.id) { 0int } else { 1int },
            sorted_by_id(final(self)@),
    {
        proof {
            use_type_invariant(&*self);
        }
        let ghost s = self@;
        let mut items: Vec<TraceItem> = Vec::new();
        std::mem::swap(&mut items, &mut self.items);
        assert(items_view(items@) == s);
        let key = chars_of(item.id.as_str());
        let mut p: usize = 0;
        while p < items.len() && lex_lt(&chars_of(items[p].id.as_str()), &key)
            invariant
                p <= s.len(),
                s == items_view(items@),
                key@ == item@.id,
                forall|j: int| 0 <= j < p ==> seq_lt(#[trigger] s[j].id, key@),
            decreases items.len() - p,
        {
            p = p + 1;
        }
        let ghost v = item@;
        let replace = p < items.len() && eq(&chars_of(items[p].id.as_str()), &key);
        proof {
            if p < s.len() && !replace {
                lemma_lt_total(s[p as int].id, v.id);
            }
        }
        if replace {
            items.set(p, item);
        } else {
            items.insert(p, item);
        }
        let ghost t = items_view(items@);
        proof {
            if replace {
                assert(s[p as int].id == v.id);
            } else if has_id(s, v.id) {
                let i = choose|i: int| 0 <= i < s.len() && s[i].id == v.id;
                if i < p {
                    lemma_lt_irreflexive(v.id);
                } else if i > p {
                    assert(seq_lt(s[p as int].id, s[i].id));
                    lemma_lt_asymmetric(s[p as int].id, v.id);
                }
                assert(false);
            }
            if replace {
                assert(t =~= s.update(p as int, v));
            } else {
                assert(t =~= s.insert(p as int, v));
            }
            assert forall|i: int, j: int| 0 <= i < j < t.len() implies seq_lt(t[i].id, t[j].id) by {
                if replace {
                    if j == p {
                        assert(seq_lt(s[i].id, v.id));
                    } else if i == p {
                        assert(seq_lt(s[p as int].id, s[j].id));
                    }
                } else {
                    if j == p {
                        assert(seq_lt(s[i].id, v.id));
                    } else if i == p {
                        assert(seq_lt(v.id, s[p as int].id));
                        if j - 1 > p {
                            assert(seq_lt(s[p as int].id, s[j - 1].id));
                            lemma_lt_transitive(v.id, s[p as int].id, s[j - 1].id);
                        }
                    } else if i < p && j > p {
                        assert(seq_lt(s[i].id, s[j - 1].id));
                    } else if i > p {
                        assert(seq_lt(s[i - 1].id, s[j - 1].id));
                    }
                }
            }
            assert forall|id: Seq<char>| #[trigger] lookup(t, id) == if id == v.id {
                Some(v)
            } else {
                lookup(s, id)
            } by {
                if id == v.id {
                    lemma_lookup_at(t, p as int);
                } else if has_id(s, id) {
                    let i = choose|i: int| 0 <= i < s.len() && s[i].id == id;
                    lemma_lookup_at(s, i);
                    if replace {
                        assert(i != p);
                        assert(t[i] == s[i]);
                        lemma_lookup_at(t, i);
                    } else if i < p {
                        assert(t[i] == s[i]);
                        lemma_lookup_at(t, i);
                    } else {
                        assert(t[i + 1] == s[i]);
                        lemma_lookup_at(t, i + 1);
                    }
                } else {
                    if has_id(t, id) {
                        let i = choose|i: int| 0 <= i < t.len() && t[i].id == id;
                        if replace {
                            assert(s[i].id == id);
                        } else if i < p {
                            assert(s[i].id == id);
                        } else if i > p {
                            assert(s[i - 1].id == id);
                        }
                    }
                }
            }
        }
        self.items = items;
        proof {
            use_type_invariant(&*self);
        }
    }
}

} // verus!
