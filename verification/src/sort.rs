//! Dependency graph built from in-source `#use` directives, and the
//! topological sequencing of modules into a build order in which every
//! dependency stands strictly before every module that uses it.

use vstd::prelude::*;

use crate::bytes::{
    bytes_eq, canon_seq, clone_bytes, has_name, lower_trim, name_in, split_lines, split_lines_vec,
    views_of,
};
use crate::walker::{tbl_wf, DirWalker};

verus! {

// ------------------------------------------------------------------
// Directive lines
// ------------------------------------------------------------------

/// A line opening with the directive marker, the bytes of "#use".
pub open spec fn is_use_line(l: Seq<u8>) -> bool {
    l.len() >= 4 && l[0] == 35 && l[1] == 117 && l[2] == 115 && l[3] == 101
}

/// A directive line lacking the separating space after the marker.
pub open spec fn line_malformed(l: Seq<u8>) -> bool {
    is_use_line(l) && !l.contains(32u8)
}

/// What follows the first space of a line (empty when there is none).
pub open spec fn after_first_space(l: Seq<u8>) -> Seq<u8>
    decreases l.len(),
{
    if l.len() == 0 {
        seq![]
    } else if l[0] == 32 {
        l.drop_first()
    } else {
        after_first_space(l.drop_first())
    }
}

/// The module name a well-formed directive line names: the remainder of the
/// line after the first space, lowercased and trimmed.
pub open spec fn target_of(l: Seq<u8>) -> Seq<u8> {
    canon_seq(after_first_space(l))
}

/// The dependency names a module's lines declare, first occurrence order,
/// duplicates collapsed.
pub open spec fn targets_of_lines(lines: Seq<Seq<u8>>) -> Seq<Seq<u8>>
    decreases lines.len(),
{
    if lines.len() == 0 {
        seq![]
    } else {
        let pre = targets_of_lines(lines.drop_last());
        let l = lines.last();
        if is_use_line(l) && l.contains(32u8) {
            if pre.contains(target_of(l)) {
                pre
            } else {
                pre.push(target_of(l))
            }
        } else {
            pre
        }
    }
}

/// The dependency names declared in a module text.
pub open spec fn module_targets(t: Seq<u8>) -> Seq<Seq<u8>> {
    targets_of_lines(split_lines(t))
}

/// Whether a module text holds a malformed directive line.
pub open spec fn text_has_malformed(t: Seq<u8>) -> bool {
    exists|i: int| 0 <= i < split_lines(t).len() && line_malformed(split_lines(t)[i])
}

proof fn lemma_targets_no_dup(lines: Seq<Seq<u8>>)
    ensures
        targets_of_lines(lines).no_duplicates(),
    decreases lines.len(),
{
    if lines.len() > 0 {
        lemma_targets_no_dup(lines.drop_last());
    }
}

proof fn lemma_after_space_at(l: Seq<u8>, i: int)
    requires
        0 <= i < l.len(),
        l[i] == 32,
        forall|k: int| 0 <= k < i ==> l[k] != 32,
    ensures
        after_first_space(l) == l.subrange(i + 1, l.len() as int),
    decreases i,
{
    if i == 0 {
        assert(l.drop_first() =~= l.subrange(1, l.len() as int));
    } else {
        let d = l.drop_first();
        lemma_after_space_at(d, i - 1);
        assert(d.subrange(i, d.len() as int) =~= l.subrange(i + 1, l.len() as int));
    }
}

// ------------------------------------------------------------------
// Graph views
// ------------------------------------------------------------------

/// Spec view of the adjacency list: name and dependency names, as sequences.
pub open spec fn deps_view(d: Seq<(Vec<u8>, Vec<Vec<u8>>)>) -> Seq<(Seq<u8>, Seq<Seq<u8>>)> {
    d.map_values(|p: (Vec<u8>, Vec<Vec<u8>>)| (p.0@, views_of(p.1@)))
}

pub open spec fn dv_has_key(d: Seq<(Seq<u8>, Seq<Seq<u8>>)>, n: Seq<u8>) -> bool {
    exists|i: int| 0 <= i < d.len() && d[i].0 == n
}

pub open spec fn dv_keys_unique(d: Seq<(Seq<u8>, Seq<Seq<u8>>)>) -> bool {
    forall|i: int, j: int| 0 <= i < j < d.len() ==> d[i].0 != d[j].0
}

/// "a uses b": the entry of a lists b among its dependencies.
pub open spec fn dv_edge(d: Seq<(Seq<u8>, Seq<Seq<u8>>)>, a: Seq<u8>, b: Seq<u8>) -> bool {
    exists|i: int| 0 <= i < d.len() && d[i].0 == a && d[i].1.contains(b)
}

pub open spec fn dv_is_target(d: Seq<(Seq<u8>, Seq<Seq<u8>>)>, b: Seq<u8>) -> bool {
    exists|a: Seq<u8>| dv_edge(d, a, b)
}

/// How many distinct modules use `n`, counting only users outside `p`.
pub open spec fn users_outside(
    d: Seq<(Seq<u8>, Seq<Seq<u8>>)>,
    n: Seq<u8>,
    p: Set<Seq<u8>>,
) -> nat
    decreases d.len(),
{
    if d.len() == 0 {
        0
    } else {
        users_outside(d.drop_last(), n, p) + (if d.last().1.contains(n) && !p.contains(
            d.last().0,
        ) {
            1nat
        } else {
            0nat
        })
    }
}

proof fn lemma_users_le(d: Seq<(Seq<u8>, Seq<Seq<u8>>)>, n: Seq<u8>, p: Set<Seq<u8>>)
    ensures
        users_outside(d, n, p) <= d.len(),
    decreases d.len(),
{
    if d.len() > 0 {
        lemma_users_le(d.drop_last(), n, p);
    }
}

proof fn lemma_users_pos(d: Seq<(Seq<u8>, Seq<Seq<u8>>)>, n: Seq<u8>, p: Set<Seq<u8>>)
    ensures
        users_outside(d, n, p) > 0 <==> exists|i: int|
            0 <= i < d.len() && d[i].1.contains(n) && !p.contains(d[i].0),
    decreases d.len(),
{
    if d.len() > 0 {
        let e = d.drop_last();
        lemma_users_pos(e, n, p);
        if users_outside(d, n, p) > 0 {
            if d.last().1.contains(n) && !p.contains(d.last().0) {
                assert(d[d.len() - 1].1.contains(n) && !p.contains(d[d.len() - 1].0));
            } else {
                let i = choose|i: int| 0 <= i < e.len() && e[i].1.contains(n) && !p.contains(e[i].0);
                assert(d[i].1.contains(n) && !p.contains(d[i].0));
            }
        }
        if exists|i: int| 0 <= i < d.len() && d[i].1.contains(n) && !p.contains(d[i].0) {
            let i = choose|i: int| 0 <= i < d.len() && d[i].1.contains(n) && !p.contains(d[i].0);
            if i < d.len() - 1 {
                assert(e[i].1.contains(n) && !p.contains(e[i].0));
            }
        }
    }
}

proof fn lemma_users_nokey(
    d: Seq<(Seq<u8>, Seq<Seq<u8>>)>,
    n: Seq<u8>,
    p: Set<Seq<u8>>,
    a: Seq<u8>,
)
    requires
        forall|i: int| 0 <= i < d.len() ==> d[i].0 != a,
    ensures
        users_outside(d, n, p.insert(a)) == users_outside(d, n, p),
    decreases d.len(),
{
    if d.len() > 0 {
        let e = d.drop_last();
        assert(forall|i: int| 0 <= i < e.len() ==> e[i].0 != a);
        lemma_users_nokey(e, n, p, a);
        assert(d[d.len() - 1].0 != a);
    }
}

/// Marking one more user as processed lowers the count by one exactly when
/// that user has an edge to `n` and was not processed before.
proof fn lemma_users_insert(
    d: Seq<(Seq<u8>, Seq<Seq<u8>>)>,
    n: Seq<u8>,
    p: Set<Seq<u8>>,
    a: Seq<u8>,
)
    requires
        dv_keys_unique(d),
    ensures
        users_outside(d, n, p.insert(a)) + (if dv_edge(d, a, n) && !p.contains(a) {
            1nat
        } else {
            0nat
        }) == users_outside(d, n, p),
    decreases d.len(),
{
    if p.contains(a) {
        assert(p.insert(a) =~= p);
        if d.len() > 0 {
            lemma_users_insert(d.drop_last(), n, p, a);
        }
    } else if d.len() > 0 {
        let e = d.drop_last();
        let last = d[d.len() - 1];
        assert(forall|i: int| 0 <= i < e.len() ==> e[i] == d[i]);
        if last.0 == a {
            assert(forall|i: int| 0 <= i < e.len() ==> e[i].0 != a);
            lemma_users_nokey(e, n, p, a);
            if last.1.contains(n) {
                assert(dv_edge(d, a, n));
            } else {
                if dv_edge(d, a, n) {
                    let i = choose|i: int| 0 <= i < d.len() && d[i].0 == a && d[i].1.contains(n);
                    assert(i == d.len() - 1);
                    assert(false);
                }
            }
        } else {
            assert(dv_keys_unique(e));
            lemma_users_insert(e, n, p, a);
            assert(p.insert(a).contains(last.0) == p.contains(last.0));
            if dv_edge(e, a, n) {
                let i = choose|i: int| 0 <= i < e.len() && e[i].0 == a && e[i].1.contains(n);
                assert(d[i].0 == a && d[i].1.contains(n));
                assert(dv_edge(d, a, n));
            }
            if dv_edge(d, a, n) {
                let i = choose|i: int| 0 <= i < d.len() && d[i].0 == a && d[i].1.contains(n);
                assert(i < d.len() - 1);
                assert(e[i].0 == a && e[i].1.contains(n));
                assert(dv_edge(e, a, n));
            }
        }
    }
}

// ------------------------------------------------------------------
// The graph a module table induces
// ------------------------------------------------------------------

/// The adjacency the table induces: one entry per non-reserved module, in
/// table order, each with its declared dependency names.
pub open spec fn deps_entries_spec(
    tbl: Seq<(Vec<u8>, Vec<u8>)>,
    ignore: Seq<Vec<u8>>,
) -> Seq<(Seq<u8>, Seq<Seq<u8>>)>
    decreases tbl.len(),
{
    if tbl.len() == 0 {
        seq![]
    } else {
        let pre = deps_entries_spec(tbl.drop_last(), ignore);
        let e = tbl[tbl.len() - 1];
        if name_in(ignore, e.0@) {
            pre
        } else {
            pre.push((e.0@, module_targets(e.1@)))
        }
    }
}

/// Structural facts about the induced adjacency.
proof fn lemma_deps_entries_props(tbl: Seq<(Vec<u8>, Vec<u8>)>, ignore: Seq<Vec<u8>>)
    requires
        tbl_wf(tbl),
    ensures
        forall|i: int|
            0 <= i < deps_entries_spec(tbl, ignore).len() ==> exists|k: int|
                0 <= k < tbl.len() && !name_in(ignore, tbl[k].0@) && #[trigger] deps_entries_spec(
                    tbl,
                    ignore,
                )[i] == (tbl[k].0@, module_targets(tbl[k].1@)),
        forall|k: int|
            0 <= k < tbl.len() && !name_in(ignore, tbl[k].0@) ==> exists|i: int|
                0 <= i < deps_entries_spec(tbl, ignore).len() && #[trigger] deps_entries_spec(
                    tbl,
                    ignore,
                )[i] == (tbl[k].0@, module_targets(tbl[k].1@)),
        dv_keys_unique(deps_entries_spec(tbl, ignore)),
        forall|i: int|
            0 <= i < deps_entries_spec(tbl, ignore).len() ==> (#[trigger] deps_entries_spec(
                tbl,
                ignore,
            )[i].1).no_duplicates(),
    decreases tbl.len(),
{
    let d = deps_entries_spec(tbl, ignore);
    if tbl.len() > 0 {
        let pre_tbl = tbl.drop_last();
        let pre = deps_entries_spec(pre_tbl, ignore);
        assert(tbl_wf(pre_tbl));
        lemma_deps_entries_props(pre_tbl, ignore);
        let e = tbl[tbl.len() - 1];
        assert(forall|k: int| 0 <= k < pre_tbl.len() ==> pre_tbl[k] == tbl[k]);
        if !name_in(ignore, e.0@) {
            lemma_targets_no_dup(split_lines(e.1@));
            // the new key differs from every earlier key
            assert forall|i: int| 0 <= i < pre.len() implies pre[i].0 != e.0@ by {
                let k = choose|k: int|
                    0 <= k < pre_tbl.len() && !name_in(ignore, pre_tbl[k].0@) && pre[i] == (
                    pre_tbl[k].0@,
                    module_targets(pre_tbl[k].1@),
                );
                assert(tbl[k].0@ != tbl[tbl.len() - 1].0@);
            }
        }
        assert forall|i: int| 0 <= i < d.len() implies exists|k: int|
            0 <= k < tbl.len() && !name_in(ignore, tbl[k].0@) && #[trigger] d[i] == (
            tbl[k].0@,
            module_targets(tbl[k].1@),
        ) by {
            if i < pre.len() {
                let k = choose|k: int|
                    0 <= k < pre_tbl.len() && !name_in(ignore, pre_tbl[k].0@)
                        && #[trigger] pre[i] == (pre_tbl[k].0@, module_targets(pre_tbl[k].1@));
                assert(d[i] == pre[i]);
                assert(0 <= k < tbl.len() && !name_in(ignore, tbl[k].0@) && d[i] == (
                    tbl[k].0@,
                    module_targets(tbl[k].1@),
                ));
            } else {
                assert(!name_in(ignore, e.0@));
                assert(d[i] == (tbl[tbl.len() - 1].0@, module_targets(tbl[tbl.len() - 1].1@)));
            }
        }
        assert forall|k: int|
            0 <= k < tbl.len() && !name_in(ignore, tbl[k].0@) implies exists|i: int|
            0 <= i < d.len() && #[trigger] d[i] == (tbl[k].0@, module_targets(tbl[k].1@)) by {
            if k < tbl.len() - 1 {
                let i = choose|i: int|
                    0 <= i < pre.len() && #[trigger] pre[i] == (
                    pre_tbl[k].0@,
                    module_targets(pre_tbl[k].1@),
                );
                assert(d[i] == (tbl[k].0@, module_targets(tbl[k].1@)));
            } else {
                assert(d[d.len() - 1] == (tbl[k].0@, module_targets(tbl[k].1@)));
            }
        }
    }
}

/// Error of graph construction: a directive line with no argument separator,
/// identified by module name and zero-based line index.
#[derive(Debug, PartialEq, Eq)]
pub enum GraphError {
    MalformedDirective { module: Vec<u8>, line: usize },
}

/// Extract the dependency name a directive line declares, when the line has
/// a separating space.
fn directive_target(l: &Vec<u8>) -> (r: Option<Vec<u8>>)
    ensures
        r is Some <==> l@.contains(32u8),
        r matches Some(t) ==> t@ == target_of(l@),
{
    let n = l.len();
    let mut i: usize = 0;
    while i < n
        invariant
            0 <= i <= n,
            n == l@.len(),
            forall|k: int| 0 <= k < i ==> l@[k] != 32,
        decreases n - i,
    {
        if l[i] == 32 {
            proof {
                lemma_after_space_at(l@, i as int);
            }
            let mut tail: Vec<u8> = Vec::new();
            let mut k: usize = i + 1;
            while k < n
                invariant
                    i + 1 <= k <= n,
                    n == l@.len(),
                    tail@ == l@.subrange(i + 1, k as int),
                decreases n - k,
            {
                tail.push(l[k]);
                proof {
                    assert(l@.subrange(i + 1, k + 1) =~= l@.subrange(i + 1, k as int).push(
                        l@[k as int],
                    ));
                }
                k = k + 1;
            }
            let t = lower_trim(&tail);
            proof {
                assert(l@.contains(32u8));
            }
            return Some(t);
        }
        i = i + 1;
    }
    proof {
        if l@.contains(32u8) {
            let w = choose|w: int| 0 <= w < l@.len() && l@[w] == 32;
            assert(false);
        }
    }
    None
}

/// Whether a line opens with the directive marker.
fn is_use_line_x(l: &Vec<u8>) -> (r: bool)
    ensures
        r == is_use_line(l@),
{
    l.len() >= 4 && l[0] == 35 && l[1] == 117 && l[2] == 115 && l[3] == 101
}

/// Scan one module text for its declared dependencies; report the first
/// malformed directive line, by index.
fn scan_module(text: &Vec<u8>) -> (r: Result<Vec<Vec<u8>>, usize>)
    ensures
        r is Ok <==> !text_has_malformed(text@),
        r matches Ok(ts) ==> views_of(ts@) == module_targets(text@),
        r matches Err(j) ==> 0 <= j < split_lines(text@).len() && line_malformed(
            split_lines(text@)[j as int],
        ) && (forall|j2: int| 0 <= j2 < j ==> !line_malformed(split_lines(text@)[j2])),
{
    let lines = split_lines_vec(text);
    let n = lines.len();
    let ghost lv = split_lines(text@);
    let mut ts: Vec<Vec<u8>> = Vec::new();
    let mut j: usize = 0;
    proof {
        assert(lv.subrange(0, 0) =~= Seq::<Seq<u8>>::empty());
        assert(views_of(ts@) =~= targets_of_lines(lv.subrange(0, 0)));
    }
    while j < n
        invariant
            0 <= j <= n,
            n == lines@.len(),
            lv == split_lines(text@),
            views_of(lines@) == lv,
            views_of(ts@) == targets_of_lines(lv.subrange(0, j as int)),
            forall|j2: int| 0 <= j2 < j ==> !line_malformed(lv[j2]),
        decreases n - j,
    {
        let ghost pre = lv.subrange(0, j as int);
        proof {
            assert(lv.subrange(0, j + 1).drop_last() =~= pre);
            assert(lv.subrange(0, j + 1).last() == lv[j as int]);
            assert(lines@[j as int]@ == lv[j as int]);
        }
        if is_use_line_x(&lines[j]) {
            match directive_target(&lines[j]) {
                Some(t) => {
                    if !has_name(&ts, &t) {
                        ts.push(t);
                        proof {
                            assert(views_of(ts@) =~= views_of(ts@.drop_last()).push(
                                ts@.last()@,
                            ));
                        }
                    } else {
                        proof {
                            let wi = choose|wi: int|
                                0 <= wi < ts@.len() && ts@[wi]@ == t@;
                            assert(views_of(ts@)[wi] == t@);
                            assert(views_of(ts@).contains(t@));
                            assert(targets_of_lines(pre).contains(target_of(lv[j as int])));
                            assert(targets_of_lines(lv.subrange(0, j + 1)) == targets_of_lines(
                                pre,
                            ));
                        }
                    }
                },
                None => {
                    proof {
                        assert(line_malformed(lv[j as int]));
                        assert(0 <= j < split_lines(text@).len() && line_malformed(
                            split_lines(text@)[j as int],
                        ));
                        assert(text_has_malformed(text@));
                    }
                    return Err(j);
                },
            }
        }
        j = j + 1;
    }
    proof {
        assert(lv.subrange(0, n as int) =~= lv);
        if text_has_malformed(text@) {
            let w = choose|w: int| 0 <= w < lv.len() && line_malformed(lv[w]);
            assert(false);
        }
    }
    Ok(ts)
}

// ------------------------------------------------------------------
// The graph
// ------------------------------------------------------------------

pub open spec fn cnt_has(c: Seq<(Vec<u8>, usize)>, n: Seq<u8>) -> bool {
    exists|i: int| 0 <= i < c.len() && c[i].0@ == n
}

/// Whether a dependency name occurs among the first `upto` entries' lists.
pub open spec fn target_in_prefix(
    d: Seq<(Seq<u8>, Seq<Seq<u8>>)>,
    x: Seq<u8>,
    upto: int,
) -> bool {
    exists|ii: int| 0 <= ii < upto && ii < d.len() && d[ii].1.contains(x)
}

/// Directive graph over the module table: `dependencies` lists, per module,
/// the modules it uses; `dependents` counts, per name, the distinct modules
/// that use it (0: used by nothing else).
#[derive(Debug)]
pub struct DependencyGraph {
    pub dependencies: Vec<(Vec<u8>, Vec<Vec<u8>>)>,
    pub dependents: Vec<(Vec<u8>, usize)>,
}

impl DependencyGraph {
    pub open spec fn dv(self) -> Seq<(Seq<u8>, Seq<Seq<u8>>)> {
        deps_view(self.dependencies@)
    }

    /// "a uses b": module a declares a directive naming b.
    pub open spec fn uses(self, a: Seq<u8>, b: Seq<u8>) -> bool {
        dv_edge(self.dv(), a, b)
    }

    /// A module that takes part in the graph (non-reserved table entry).
    pub open spec fn is_node(self, n: Seq<u8>) -> bool {
        dv_has_key(self.dv(), n)
    }

    /// A name carrying a pending-dependents count: every node, and every
    /// directive target (also a dangling one naming no module of the table).
    pub open spec fn is_entry(self, n: Seq<u8>) -> bool {
        cnt_has(self.dependents@, n)
    }

    pub open spec fn wf(self) -> bool {
        &&& dv_keys_unique(self.dv())
        &&& (forall|i: int, j: int|
            0 <= i < j < self.dependents@.len() ==> self.dependents@[i].0@
                != self.dependents@[j].0@)
        &&& (forall|i: int|
            0 <= i < self.dv().len() ==> (#[trigger] self.dv()[i].1).no_duplicates())
        &&& (forall|n: Seq<u8>| #[trigger] self.is_node(n) ==> self.is_entry(n))
        &&& (forall|a: Seq<u8>, b: Seq<u8>| #[trigger] self.uses(a, b) ==> self.is_entry(b))
        &&& (forall|e: int|
            0 <= e < self.dependents@.len() ==> (#[trigger] self.dependents@[e]).1
                == users_outside(self.dv(), self.dependents@[e].0@, Set::<Seq<u8>>::empty()))
    }

    /// Some member of `s` is used by no member of `s`.
    pub open spec fn has_source(self, s: Set<Seq<u8>>) -> bool {
        exists|n: Seq<u8>|
            s.contains(n) && (forall|u: Seq<u8>| self.uses(u, n) ==> !s.contains(u))
    }

    /// No directive cycle: every nonempty finite set of graph entries has a
    /// member used by none of the set. Equivalent to the absence of a cycle
    /// of `#use` directives: the members of a cycle form a set in which every
    /// member is used by another member.
    pub open spec fn acyclic(self) -> bool {
        forall|s: Set<Seq<u8>>|
            s.finite() && s.len() > 0 && (forall|n: Seq<u8>| s.contains(n) ==> self.is_entry(n))
                ==> #[trigger] self.has_source(s)
    }

    /// The pending-dependents count recorded for a name, if any.
    pub fn pending_of(&self, name: &Vec<u8>) -> (r: Option<usize>)
        ensures
            r is Some <==> self.is_entry(name@),
            r matches Some(c) ==> exists|e: int|
                0 <= e < self.dependents@.len() && self.dependents@[e].0@ == name@
                    && self.dependents@[e].1 == c,
    {
        match find_cnt(&self.dependents, name) {
            Some(e) => {
                let c = self.dependents[e].1;
                proof {
                    assert(0 <= e < self.dependents@.len() && self.dependents@[e as int].0@
                        == name@ && self.dependents@[e as int].1 == c);
                }
                Some(c)
            },
            None => None,
        }
    }

    /// Build the graph of a module table: scan each non-reserved module's
    /// text for directives, then count distinct users per name.
    pub fn with_modules(walker: &DirWalker, ignore: &Vec<Vec<u8>>) -> (r: Result<
        DependencyGraph,
        GraphError,
    >)
        requires
            walker.wf(),
        ensures
            r is Ok <==> (forall|k: int|
                0 <= k < walker.modules@.len() && !name_in(ignore@, walker.modules@[k].0@)
                    ==> !text_has_malformed(walker.modules@[k].1@)),
            r matches Ok(g) ==> ({
                &&& g.wf()
                &&& g.dv() == deps_entries_spec(walker.modules@, ignore@)
                &&& (forall|a: Seq<u8>, b: Seq<u8>|
                    #[trigger] g.uses(a, b) <==> exists|k: int|
                        0 <= k < walker.modules@.len() && !name_in(
                            ignore@,
                            #[trigger] walker.modules@[k].0@,
                        ) && walker.modules@[k].0@ == a && module_targets(
                            walker.modules@[k].1@,
                        ).contains(b))
                &&& (forall|n: Seq<u8>|
                    #[trigger] g.is_node(n) <==> exists|k: int|
                        0 <= k < walker.modules@.len() && !name_in(
                            ignore@,
                            #[trigger] walker.modules@[k].0@,
                        ) && walker.modules@[k].0@ == n)
                &&& (forall|n: Seq<u8>|
                    #[trigger] g.is_entry(n) <==> g.is_node(n) || exists|a: Seq<u8>|
                        g.uses(a, n))
            }),
            r matches Err(GraphError::MalformedDirective { module, line }) ==> exists|k: int|
                0 <= k < walker.modules@.len() && !name_in(
                    ignore@,
                    #[trigger] walker.modules@[k].0@,
                ) && text_has_malformed(walker.modules@[k].1@) && module@ == walker.modules@[k].0@
                    && (forall|k2: int|
                    0 <= k2 < k && !name_in(ignore@, #[trigger] walker.modules@[k2].0@)
                        ==> !text_has_malformed(walker.modules@[k2].1@)) && 0 <= line
                    < split_lines(walker.modules@[k].1@).len() && line_malformed(
                    split_lines(walker.modules@[k].1@)[line as int],
                ) && (forall|j2: int|
                    0 <= j2 < line ==> !line_malformed(split_lines(walker.modules@[k].1@)[j2])),
    {
        let deps = match Self::get_dependencies(&walker.modules, ignore) {
            Ok(d) => d,
            Err(e) => {
                return Err(e);
            },
        };
        proof {
            lemma_deps_entries_props(walker.modules@, ignore@);
        }
        let dependents = Self::get_dependents(&deps);
        let g = DependencyGraph { dependencies: deps, dependents };
        proof {
            let tbl = walker.modules@;
            let d = g.dv();
            assert forall|a: Seq<u8>, b: Seq<u8>| #[trigger] g.uses(a, b) implies exists|k: int|
                0 <= k < tbl.len() && !name_in(ignore@, #[trigger] tbl[k].0@) && tbl[k].0@ == a
                    && module_targets(tbl[k].1@).contains(b) by {
                let i = choose|i: int| 0 <= i < d.len() && d[i].0 == a && d[i].1.contains(b);
                let k = choose|k: int|
                    0 <= k < tbl.len() && !name_in(ignore@, tbl[k].0@) && #[trigger] d[i] == (
                    tbl[k].0@,
                    module_targets(tbl[k].1@),
                );
                assert(0 <= k < tbl.len() && !name_in(ignore@, tbl[k].0@) && tbl[k].0@ == a
                    && module_targets(tbl[k].1@).contains(b));
            }
            assert forall|a: Seq<u8>, b: Seq<u8>|
                (exists|k: int|
                    0 <= k < tbl.len() && !name_in(ignore@, #[trigger] tbl[k].0@) && tbl[k].0@
                        == a && module_targets(tbl[k].1@).contains(b)) implies #[trigger] g.uses(
                a,
                b,
            ) by {
                let k = choose|k: int|
                    0 <= k < tbl.len() && !name_in(ignore@, #[trigger] tbl[k].0@) && tbl[k].0@
                        == a && module_targets(tbl[k].1@).contains(b);
                let i = choose|i: int|
                    0 <= i < d.len() && #[trigger] d[i] == (tbl[k].0@, module_targets(tbl[k].1@));
                assert(d[i].0 == a && d[i].1.contains(b));
            }
            assert forall|n: Seq<u8>| #[trigger] g.is_node(n) implies exists|k: int|
                0 <= k < tbl.len() && !name_in(ignore@, #[trigger] tbl[k].0@) && tbl[k].0@
                    == n by {
                let i = choose|i: int| 0 <= i < d.len() && d[i].0 == n;
                let k = choose|k: int|
                    0 <= k < tbl.len() && !name_in(ignore@, tbl[k].0@) && #[trigger] d[i] == (
                    tbl[k].0@,
                    module_targets(tbl[k].1@),
                );
                assert(0 <= k < tbl.len() && !name_in(ignore@, tbl[k].0@) && tbl[k].0@ == n);
            }
            assert forall|n: Seq<u8>|
                (exists|k: int|
                    0 <= k < tbl.len() && !name_in(ignore@, #[trigger] tbl[k].0@) && tbl[k].0@
                        == n) implies #[trigger] g.is_node(n) by {
                let k = choose|k: int|
                    0 <= k < tbl.len() && !name_in(ignore@, #[trigger] tbl[k].0@) && tbl[k].0@
                        == n;
                let i = choose|i: int|
                    0 <= i < d.len() && #[trigger] d[i] == (tbl[k].0@, module_targets(tbl[k].1@));
                assert(d[i].0 == n);
            }
            assert forall|n: Seq<u8>| #[trigger] g.is_entry(n) implies g.is_node(n) || (exists|
                a: Seq<u8>,
            |
                g.uses(a, n)) by {
                if dv_is_target(d, n) {
                    let a = choose|a: Seq<u8>| dv_edge(d, a, n);
                    assert(g.uses(a, n));
                }
            }
            assert forall|a: Seq<u8>, b: Seq<u8>| #[trigger] g.uses(a, b) implies g.is_entry(b) by {
                assert(dv_is_target(d, b));
            }
            assert forall|n: Seq<u8>| #[trigger] g.is_node(n) implies g.is_entry(n) by {
                assert(dv_has_key(d, n));
            }
        }
        Ok(g)
    }

    /// Scan every non-reserved module for directives, in table order.
    fn get_dependencies(modules: &Vec<(Vec<u8>, Vec<u8>)>, ignore: &Vec<Vec<u8>>) -> (r: Result<
        Vec<(Vec<u8>, Vec<Vec<u8>>)>,
        GraphError,
    >)
        requires
            tbl_wf(modules@),
        ensures
            r is Ok <==> (forall|k: int|
                0 <= k < modules@.len() && !name_in(ignore@, modules@[k].0@)
                    ==> !text_has_malformed(modules@[k].1@)),
            r matches Ok(d) ==> deps_view(d@) == deps_entries_spec(modules@, ignore@),
            r matches Err(GraphError::MalformedDirective { module, line }) ==> exists|k: int|
                0 <= k < modules@.len() && !name_in(ignore@, #[trigger] modules@[k].0@)
                    && text_has_malformed(modules@[k].1@) && module@ == modules@[k].0@ && (forall|
                    k2: int,
                |
                    0 <= k2 < k && !name_in(ignore@, #[trigger] modules@[k2].0@)
                        ==> !text_has_malformed(modules@[k2].1@)) && 0 <= line < split_lines(
                    modules@[k].1@,
                ).len() && line_malformed(split_lines(modules@[k].1@)[line as int]) && (forall|
                    j2: int,
                |
                    0 <= j2 < line ==> !line_malformed(split_lines(modules@[k].1@)[j2])),
    {
        let n = modules.len();
        let mut deps: Vec<(Vec<u8>, Vec<Vec<u8>>)> = Vec::new();
        let mut k: usize = 0;
        proof {
            assert(modules@.subrange(0, 0) =~= Seq::<(Vec<u8>, Vec<u8>)>::empty());
            assert(deps_view(deps@) =~= deps_entries_spec(modules@.subrange(0, 0), ignore@));
        }
        while k < n
            invariant
                0 <= k <= n,
                n == modules@.len(),
                deps_view(deps@) == deps_entries_spec(modules@.subrange(0, k as int), ignore@),
                forall|k2: int|
                    0 <= k2 < k && !name_in(ignore@, #[trigger] modules@[k2].0@)
                        ==> !text_has_malformed(modules@[k2].1@),
            decreases n - k,
        {
            let ghost prefix = modules@.subrange(0, k as int);
            proof {
                assert(modules@.subrange(0, k + 1).drop_last() =~= prefix);
                assert(modules@.subrange(0, k + 1)[k as int] == modules@[k as int]);
            }
            if !has_name(ignore, &modules[k].0) {
                match scan_module(&modules[k].1) {
                    Ok(ts) => {
                        let name = clone_bytes(&modules[k].0);
                        deps.push((name, ts));
                        proof {
                            assert(deps_view(deps@) =~= deps_view(deps@.drop_last()).push(
                                (deps@.last().0@, views_of(deps@.last().1@)),
                            ));
                        }
                    },
                    Err(j) => {
                        let module = clone_bytes(&modules[k].0);
                        proof {
                            assert(0 <= k < modules@.len() && !name_in(
                                ignore@,
                                modules@[k as int].0@,
                            ) && text_has_malformed(modules@[k as int].1@));
                        }
                        return Err(GraphError::MalformedDirective { module, line: j });
                    },
                }
            }
            k = k + 1;
        }
        proof {
            assert(modules@.subrange(0, n as int) =~= modules@);
        }
        Ok(deps)
    }

    /// Count, for every name a directive names or a node bears, the distinct
    /// modules that use it.
    fn get_dependents(deps: &Vec<(Vec<u8>, Vec<Vec<u8>>)>) -> (r: Vec<(Vec<u8>, usize)>)
        requires
            dv_keys_unique(deps_view(deps@)),
            forall|i: int|
                0 <= i < deps_view(deps@).len() ==> (#[trigger] deps_view(
                    deps@,
                )[i].1).no_duplicates(),
        ensures
            forall|i: int, j: int| 0 <= i < j < r@.len() ==> r@[i].0@ != r@[j].0@,
            forall|x: Seq<u8>|
                #[trigger] cnt_has(r@, x) <==> dv_has_key(deps_view(deps@), x) || dv_is_target(
                    deps_view(deps@),
                    x,
                ),
            forall|e: int|
                0 <= e < r@.len() ==> (#[trigger] r@[e]).1 == users_outside(
                    deps_view(deps@),
                    r@[e].0@,
                    Set::<Seq<u8>>::empty(),
                ),
    {
        let ghost dv = deps_view(deps@);
        let n = deps.len();
        let mut counts: Vec<(Vec<u8>, usize)> = Vec::new();
        let mut i: usize = 0;
        while i < n
            invariant
                0 <= i <= n,
                dv == deps_view(deps@),
                n == deps@.len(),
                counts@.len() == i,
                forall|e: int| 0 <= e < i ==> (#[trigger] counts@[e]).0@ == dv[e].0 && counts@[e].1 == 0,
            decreases n - i,
        {
            counts.push((clone_bytes(&deps[i].0), 0));
            i = i + 1;
        }
        proof {
            assert forall|e: int| 0 <= e < counts@.len() implies (#[trigger] counts@[e]).1
                == users_outside(dv.subrange(0, 0), counts@[e].0@, Set::<Seq<u8>>::empty()) by {
                assert(dv.subrange(0, 0) =~= Seq::<(Seq<u8>, Seq<Seq<u8>>)>::empty());
            }
            assert forall|x: Seq<u8>| #[trigger] cnt_has(counts@, x) implies dv_has_key(dv, x)
                || target_in_prefix(dv, x, 0) by {
                let e = choose|e: int| 0 <= e < counts@.len() && counts@[e].0@ == x;
                assert(dv[e].0 == x);
            }
            assert forall|x: Seq<u8>| dv_has_key(dv, x) implies cnt_has(counts@, x) by {
                let e = choose|e: int| 0 <= e < dv.len() && dv[e].0 == x;
                assert(counts@[e].0@ == x);
            }
            assert forall|a: int, b: int|
                0 <= a < b < counts@.len() implies counts@[a].0@ != counts@[b].0@ by {
                assert(dv[a].0 != dv[b].0);
            }
        }
        let mut i: usize = 0;
        while i < n
            invariant
                0 <= i <= n,
                dv == deps_view(deps@),
                n == deps@.len(),
                dv_keys_unique(dv),
                forall|ii: int| 0 <= ii < dv.len() ==> (#[trigger] dv[ii].1).no_duplicates(),
                forall|a: int, b: int| 0 <= a < b < counts@.len() ==> counts@[a].0@ != counts@[b].0@,
                forall|x: Seq<u8>|
                    #[trigger] cnt_has(counts@, x) <==> dv_has_key(dv, x) || target_in_prefix(
                        dv,
                        x,
                        i as int,
                    ),
                forall|e: int|
                    0 <= e < counts@.len() ==> (#[trigger] counts@[e]).1 == users_outside(
                        dv.subrange(0, i as int),
                        counts@[e].0@,
                        Set::<Seq<u8>>::empty(),
                    ),
            decreases n - i,
        {
            let m = deps[i].1.len();
            let ghost ndv = dv[i as int].1;
            proof {
                assert(dv[i as int].1 == views_of(deps@[i as int].1@));
            }
            let mut j: usize = 0;
            while j < m
                invariant
                    0 <= j <= m,
                    0 <= i < n,
                    dv == deps_view(deps@),
                    n == deps@.len(),
                    ndv == dv[i as int].1,
                    m == ndv.len(),
                    dv_keys_unique(dv),
                    forall|ii: int| 0 <= ii < dv.len() ==> (#[trigger] dv[ii].1).no_duplicates(),
                    forall|a: int, b: int|
                        0 <= a < b < counts@.len() ==> counts@[a].0@ != counts@[b].0@,
                    forall|x: Seq<u8>|
                        #[trigger] cnt_has(counts@, x) <==> dv_has_key(dv, x) || target_in_prefix(
                            dv,
                            x,
                            i as int,
                        ) || ndv.subrange(0, j as int).contains(x),
                    forall|e: int|
                        0 <= e < counts@.len() ==> (#[trigger] counts@[e]).1 == users_outside(
                            dv.subrange(0, i as int),
                            counts@[e].0@,
                            Set::<Seq<u8>>::empty(),
                        ) + (if ndv.subrange(0, j as int).contains(counts@[e].0@) {
                            1nat
                        } else {
                            0nat
                        }),
                decreases m - j,
            {
                let ghost tv = ndv[j as int];
                proof {
                    assert(deps@[i as int].1@[j as int]@ == tv);
                    assert(ndv.subrange(0, j + 1) =~= ndv.subrange(0, j as int).push(tv));
                    assert(ndv.no_duplicates());
                    // tv is not among the already-handled targets of this entry
                    if ndv.subrange(0, j as int).contains(tv) {
                        let w = choose|w: int| 0 <= w < j && ndv.subrange(0, j as int)[w] == tv;
                        assert(ndv[w] == ndv[j as int]);
                        assert(false);
                    }
                    assert forall|x: Seq<u8>| x != tv implies (ndv.subrange(0, j + 1).contains(x)
                        == ndv.subrange(0, j as int).contains(x)) by {
                        if ndv.subrange(0, j + 1).contains(x) {
                            let w = choose|w: int| 0 <= w < j + 1 && (#[trigger] ndv.subrange(0, j + 1)[w]) == x;
                            assert(ndv.subrange(0, j as int)[w] == x);
                        }
                        if ndv.subrange(0, j as int).contains(x) {
                            let w = choose|w: int| 0 <= w < j && (#[trigger] ndv.subrange(0, j as int)[w]) == x;
                            assert(ndv.subrange(0, j + 1)[w] == x);
                        }
                    }
                    assert(ndv.subrange(0, j + 1).contains(tv)) by {
                        assert(ndv.subrange(0, j + 1)[j as int] == tv);
                    }
                }
                match find_cnt(&counts, &deps[i].1[j]) {
                    Some(e) => {
                        let ghost before = counts@;
                        proof {
                            lemma_users_le(dv.subrange(0, i as int), tv, Set::<Seq<u8>>::empty());
                        }
                        let pair = counts.remove(e);
                        let c = pair.1;
                        counts.insert(e, (pair.0, c + 1));
                        proof {
                            assert forall|e2: int|
                                0 <= e2 < counts@.len() && e2 != e implies counts@[e2]
                                == before[e2] by {
                                if e2 < e {
                                    assert(before.remove(e as int)[e2] == before[e2]);
                                } else {
                                    assert(before.remove(e as int)[e2 - 1] == before[e2]);
                                }
                            }
                            assert(counts@[e as int] == (before[e as int].0, (c + 1) as usize));
                            assert(counts@.len() == before.len());
                            assert(before[e as int].0@ == tv);
                            assert(cnt_has(before, tv));
                            assert(counts@[e as int].0@ == tv);
                            assert(cnt_has(counts@, tv));
                            assert forall|x: Seq<u8>| #[trigger] cnt_has(counts@, x) implies
                                cnt_has(before, x) by {
                                let w = choose|w: int|
                                    0 <= w < counts@.len() && counts@[w].0@ == x;
                                assert(before[w].0@ == x);
                            }
                            assert forall|x: Seq<u8>| #[trigger] cnt_has(before, x) implies
                                cnt_has(counts@, x) by {
                                let w = choose|w: int| 0 <= w < before.len() && before[w].0@ == x;
                                assert(counts@[w].0@ == x);
                            }
                            assert forall|x: Seq<u8>| #[trigger] cnt_has(counts@, x) <==> (
                            dv_has_key(dv, x) || target_in_prefix(dv, x, i as int)
                                || ndv.subrange(0, j + 1).contains(x)) by {
                                if x == tv {
                                    assert(cnt_has(counts@, tv));
                                    assert(ndv.subrange(0, j + 1).contains(tv));
                                } else {
                                    assert(cnt_has(counts@, x) == cnt_has(before, x));
                                    assert(ndv.subrange(0, j + 1).contains(x) == ndv.subrange(
                                        0,
                                        j as int,
                                    ).contains(x));
                                }
                            }
                        }
                    },
                    None => {
                        proof {
                            // an unseen name has no users among the first i entries
                            lemma_users_pos(dv.subrange(0, i as int), tv, Set::<Seq<u8>>::empty());
                            if users_outside(dv.subrange(0, i as int), tv, Set::<Seq<u8>>::empty()) > 0 {
                                let w = choose|w: int|
                                    0 <= w < dv.subrange(0, i as int).len() && dv.subrange(
                                        0,
                                        i as int,
                                    )[w].1.contains(tv) && !Set::<Seq<u8>>::empty().contains(
                                        dv.subrange(0, i as int)[w].0,
                                    );
                                assert(dv[w].1.contains(tv));
                                assert(target_in_prefix(dv, tv, i as int));
                                assert(cnt_has(counts@, tv));
                                assert(false);
                            }
                        }
                        let ghost before = counts@;
                        let t = clone_bytes(&deps[i].1[j]);
                        counts.push((t, 1));
                        proof {
                            assert forall|x: Seq<u8>| #[trigger] cnt_has(counts@, x) implies
                                (cnt_has(before, x) || x == tv) by {
                                let w = choose|w: int|
                                    0 <= w < counts@.len() && counts@[w].0@ == x;
                                if w < before.len() {
                                    assert(before[w].0@ == x);
                                }
                            }
                            assert forall|x: Seq<u8>| #[trigger] cnt_has(before, x) implies
                                cnt_has(counts@, x) by {
                                let w = choose|w: int| 0 <= w < before.len() && before[w].0@ == x;
                                assert(counts@[w].0@ == x);
                            }
                            assert(cnt_has(counts@, tv)) by {
                                assert(counts@[counts@.len() - 1].0@ == tv);
                            }
                            assert forall|x: Seq<u8>| #[trigger] cnt_has(counts@, x) <==> (
                            dv_has_key(dv, x) || target_in_prefix(dv, x, i as int)
                                || ndv.subrange(0, j + 1).contains(x)) by {
                                if x == tv {
                                    assert(cnt_has(counts@, tv));
                                    assert(ndv.subrange(0, j + 1).contains(tv));
                                } else {
                                    assert(cnt_has(counts@, x) == cnt_has(before, x));
                                    assert(ndv.subrange(0, j + 1).contains(x) == ndv.subrange(
                                        0,
                                        j as int,
                                    ).contains(x));
                                }
                            }
                        }
                    },
                }
                j = j + 1;
            }
            proof {
                assert(ndv.subrange(0, m as int) =~= ndv);
                let pre = dv.subrange(0, i as int);
                let nxt = dv.subrange(0, i + 1);
                assert(nxt.drop_last() =~= pre);
                assert(nxt[nxt.len() - 1] == dv[i as int]);
                assert forall|e: int|
                    0 <= e < counts@.len() implies (#[trigger] counts@[e]).1 == users_outside(
                    nxt,
                    counts@[e].0@,
                    Set::<Seq<u8>>::empty(),
                ) by {
                    assert(!Set::<Seq<u8>>::empty().contains(dv[i as int].0));
                    assert(users_outside(nxt, counts@[e].0@, Set::<Seq<u8>>::empty()) == users_outside(
                        pre,
                        counts@[e].0@,
                        Set::<Seq<u8>>::empty(),
                    ) + (if ndv.contains(counts@[e].0@) {
                        1nat
                    } else {
                        0nat
                    }));
                }
                assert forall|x: Seq<u8>| #[trigger] cnt_has(counts@, x) implies (dv_has_key(
                    dv,
                    x,
                ) || target_in_prefix(dv, x, i + 1)) by {
                    if !dv_has_key(dv, x) {
                        if target_in_prefix(dv, x, i as int) {
                            let w = choose|w: int|
                                0 <= w < i && w < dv.len() && dv[w].1.contains(x);
                            assert(target_in_prefix(dv, x, i + 1));
                        } else {
                            assert(ndv.contains(x));
                            assert(dv[i as int].1.contains(x));
                            assert(target_in_prefix(dv, x, i + 1));
                        }
                    }
                }
                assert forall|x: Seq<u8>|
                    (dv_has_key(dv, x) || target_in_prefix(dv, x, i + 1)) implies #[trigger]
                    cnt_has(counts@, x) by {
                    if target_in_prefix(dv, x, i + 1) && !dv_has_key(dv, x) && !target_in_prefix(
                        dv,
                        x,
                        i as int,
                    ) {
                        let w = choose|w: int|
                            0 <= w < i + 1 && w < dv.len() && dv[w].1.contains(x);
                        assert(w == i);
                        assert(ndv.contains(x));
                    }
                }
            }
            i = i + 1;
        }
        proof {
            assert(dv.subrange(0, n as int) =~= dv);
            assert forall|x: Seq<u8>| #[trigger] cnt_has(counts@, x) implies (dv_has_key(dv, x)
                || dv_is_target(dv, x)) by {
                if !dv_has_key(dv, x) {
                    assert(target_in_prefix(dv, x, n as int));
                    let w = choose|w: int| 0 <= w < n && w < dv.len() && dv[w].1.contains(x);
                    assert(dv_edge(dv, dv[w].0, x));
                    assert(dv_is_target(dv, x));
                }
            }
            assert forall|x: Seq<u8>| (dv_has_key(dv, x) || dv_is_target(dv, x)) implies
                #[trigger] cnt_has(counts@, x) by {
                if dv_is_target(dv, x) && !dv_has_key(dv, x) {
                    let a = choose|a: Seq<u8>| dv_edge(dv, a, x);
                    let w = choose|w: int| 0 <= w < dv.len() && dv[w].0 == a && dv[w].1.contains(x);
                    assert(target_in_prefix(dv, x, n as int));
                }
            }
        }
        counts
    }
}

/// Find the entry of a name in the dependents list.
fn find_cnt(c: &Vec<(Vec<u8>, usize)>, k: &Vec<u8>) -> (r: Option<usize>)
    ensures
        r matches Some(e) ==> 0 <= e < c@.len() && c@[e as int].0@ == k@,
        r is None ==> forall|e: int| 0 <= e < c@.len() ==> c@[e].0@ != k@,
{
    let n = c.len();
    let mut e: usize = 0;
    while e < n
        invariant
            0 <= e <= n,
            n == c@.len(),
            forall|e2: int| 0 <= e2 < e ==> c@[e2].0@ != k@,
        decreases n - e,
    {
        if bytes_eq(&c[e].0, k) {
            return Some(e);
        }
        e = e + 1;
    }
    None
}

// ------------------------------------------------------------------
// Topological sequencing
// ------------------------------------------------------------------

/// A position of a name in an order (the position, when the order has no
/// duplicates).
pub open spec fn pos_of(ns: Seq<Seq<u8>>, n: Seq<u8>) -> int {
    choose|i: int| 0 <= i < ns.len() && ns[i] == n
}

/// Cycle among the named modules: each is used by another of them, so none
/// can be sequenced.
#[derive(Debug, PartialEq, Eq)]
pub struct CycleError {
    pub stuck: Vec<Vec<u8>>,
}

/// Find the entry of a name in an adjacency list.
fn find_deps(d: &Vec<(Vec<u8>, Vec<Vec<u8>>)>, k: &Vec<u8>) -> (r: Option<usize>)
    ensures
        r matches Some(i) ==> 0 <= i < d@.len() && d@[i as int].0@ == k@,
        r is None ==> forall|i: int| 0 <= i < d@.len() ==> d@[i].0@ != k@,
{
    let n = d.len();
    let mut i: usize = 0;
    while i < n
        invariant
            0 <= i <= n,
            n == d@.len(),
            forall|i2: int| 0 <= i2 < i ==> d@[i2].0@ != k@,
        decreases n - i,
    {
        if bytes_eq(&d[i].0, k) {
            return Some(i);
        }
        i = i + 1;
    }
    None
}

/// The same names, in the opposite order.
fn reversed(v: &Vec<Vec<u8>>) -> (r: Vec<Vec<u8>>)
    ensures
        r@.len() == v@.len(),
        forall|i: int|
            0 <= i < v@.len() ==> #[trigger] views_of(r@)[i] == views_of(v@)[v@.len() - 1 - i],
{
    let n = v.len();
    let mut r: Vec<Vec<u8>> = Vec::new();
    let mut i: usize = 0;
    while i < n
        invariant
            0 <= i <= n,
            n == v@.len(),
            r@.len() == i,
            forall|i2: int| 0 <= i2 < i ==> r@[i2]@ == v@[n - 1 - i2]@,
        decreases n - i,
    {
        r.push(clone_bytes(&v[n - 1 - i]));
        i = i + 1;
    }
    r
}

/// A nonempty finite set of names, each occurring in an order, has a member
/// of maximal position.
proof fn lemma_max_pos(ns: Seq<Seq<u8>>, s: Set<Seq<u8>>)
    requires
        s.finite(),
        s.len() > 0,
        forall|m: Seq<u8>| s.contains(m) ==> ns.contains(m),
    ensures
        exists|n: Seq<u8>|
            s.contains(n) && (forall|m: Seq<u8>| s.contains(m) ==> pos_of(ns, m) <= pos_of(ns, n)),
    decreases s.len(),
{
    if forall|x: Seq<u8>| !s.contains(x) {
        assert(s =~= Set::<Seq<u8>>::empty());
        assert(false);
    }
    let x = s.choose();
    assert(s.contains(x));
    let s2 = s.remove(x);
    if s2.len() == 0 {
        s2.lemma_len0_is_empty();
        assert forall|m: Seq<u8>| s.contains(m) implies pos_of(ns, m) <= pos_of(ns, x) by {
            if m != x {
                assert(s2.contains(m));
                assert(false);
            }
        }
        assert(s.contains(x) && (forall|m: Seq<u8>|
            s.contains(m) ==> pos_of(ns, m) <= pos_of(ns, x)));
    } else {
        lemma_max_pos(ns, s2);
        let n2 = choose|n2: Seq<u8>|
            s2.contains(n2) && (forall|m: Seq<u8>|
                s2.contains(m) ==> pos_of(ns, m) <= pos_of(ns, n2));
        if pos_of(ns, x) <= pos_of(ns, n2) {
            assert forall|m: Seq<u8>| s.contains(m) implies pos_of(ns, m) <= pos_of(ns, n2) by {
                if m != x {
                    assert(s2.contains(m));
                }
            }
            assert(s.contains(n2) && (forall|m: Seq<u8>|
                s.contains(m) ==> pos_of(ns, m) <= pos_of(ns, n2)));
        } else {
            assert forall|m: Seq<u8>| s.contains(m) implies pos_of(ns, m) <= pos_of(ns, x) by {
                if m != x {
                    assert(s2.contains(m));
                    assert(pos_of(ns, m) <= pos_of(ns, n2));
                }
            }
            assert(s.contains(x) && (forall|m: Seq<u8>|
                s.contains(m) ==> pos_of(ns, m) <= pos_of(ns, x)));
        }
    }
}

/// An order without duplicates over names drawn from a duplicate-free key
/// list is no longer than the key list.
proof fn lemma_order_bound(ns: Seq<Seq<u8>>, keys: Seq<Seq<u8>>)
    requires
        ns.no_duplicates(),
        keys.no_duplicates(),
        forall|jx: int| 0 <= jx < ns.len() ==> keys.contains(#[trigger] ns[jx]),
    ensures
        ns.len() <= keys.len(),
{
    broadcast use vstd::seq_lib::seq_to_set_is_finite;

    ns.unique_seq_to_set();
    keys.unique_seq_to_set();
    assert forall|x: Seq<u8>| ns.to_set().contains(x) implies keys.to_set().contains(x) by {
        assert(ns.contains(x));
        let w = choose|w: int| 0 <= w < ns.len() && ns[w] == x;
        assert(keys.contains(x));
    }
    vstd::set_lib::lemma_len_subset(ns.to_set(), keys.to_set());
}

/// An order without duplicates that draws from all of a key list and is as
/// long as the key list covers every key.
proof fn lemma_order_covers(ns: Seq<Seq<u8>>, keys: Seq<Seq<u8>>)
    requires
        ns.no_duplicates(),
        keys.no_duplicates(),
        forall|jx: int| 0 <= jx < ns.len() ==> keys.contains(#[trigger] ns[jx]),
        ns.len() == keys.len(),
    ensures
        forall|x: Seq<u8>| keys.contains(x) ==> ns.contains(x),
{
    broadcast use vstd::seq_lib::seq_to_set_is_finite;

    ns.unique_seq_to_set();
    keys.unique_seq_to_set();
    assert forall|x: Seq<u8>| keys.contains(x) implies ns.contains(x) by {
        if !ns.contains(x) {
            assert forall|y: Seq<u8>| ns.to_set().contains(y) implies keys.to_set().remove(
                x,
            ).contains(y) by {
                assert(ns.contains(y));
                assert(keys.contains(y));
                assert(y != x);
            }
            vstd::set_lib::lemma_len_subset(ns.to_set(), keys.to_set().remove(x));
            assert(keys.to_set().remove(x).len() == keys.to_set().len() - 1);
            assert(false);
        }
    }
}

impl DependencyGraph {
    /// Compute the build order: repeatedly emit a module used by nothing
    /// still pending, then release its dependencies; the reverse of the
    /// emission order places every dependency strictly before its users.
    ///
    /// The order exists exactly for acyclic graphs; on a directive cycle the
    /// affected names are reported rather than silently dropped.
    #[verifier::rlimit(100)]
    pub fn topological_sort(self) -> (r: Result<Vec<Vec<u8>>, CycleError>)
        requires
            self.wf(),
        ensures
            r is Ok <==> self.acyclic(),
            r matches Ok(v) ==> ({
                let ns = views_of(v@);
                &&& ns.no_duplicates()
                &&& (forall|x: Seq<u8>| #[trigger] ns.contains(x) <==> self.is_entry(x))
                &&& (forall|a: Seq<u8>, b: Seq<u8>|
                    #[trigger] self.uses(a, b) ==> ns.contains(a) && ns.contains(b) && 0 <= pos_of(
                        ns,
                        b,
                    ) < pos_of(ns, a) < ns.len())
            }),
            r matches Err(e) ==> ({
                let st = views_of(e.stuck@);
                &&& st.len() > 0
                &&& (forall|ix: int|
                    0 <= ix < st.len() ==> self.is_entry(#[trigger] st[ix]) && (exists|u: Seq<u8>|
                        self.uses(u, st[ix]) && st.contains(u)))
            }),
    {
        let ghost g = self;
        let DependencyGraph { dependencies: deps_vec, dependents: mut counts } = self;
        let ghost dv = deps_view(deps_vec@);
        let ghost keys0 = counts@.map_values(|p: (Vec<u8>, usize)| p.0@);
        proof {
            assert(dv == g.dv());
            assert(keys0.no_duplicates()) by {
                assert forall|a: int, b: int|
                    0 <= a < b < keys0.len() implies keys0[a] != keys0[b] by {
                    assert(counts@[a].0@ != counts@[b].0@);
                }
            }
            assert forall|n: Seq<u8>| #[trigger] dv_has_key(dv, n) implies keys0.contains(n) by {
                assert(g.is_node(n));
                assert(g.is_entry(n));
                let e = choose|e: int| 0 <= e < counts@.len() && counts@[e].0@ == n;
                assert(keys0[e] == n);
            }
            assert forall|a: Seq<u8>, b: Seq<u8>| #[trigger] dv_edge(dv, a, b) implies
                keys0.contains(b) by {
                assert(g.uses(a, b));
                assert(g.is_entry(b));
                let e = choose|e: int| 0 <= e < counts@.len() && counts@[e].0@ == b;
                assert(keys0[e] == b);
            }
        }
        let cn = counts.len();
        let mut order: Vec<Vec<u8>> = Vec::new();
        let mut k: usize = 0;
        while k < cn
            invariant
                0 <= k <= cn,
                dv == deps_view(deps_vec@),
                dv_keys_unique(dv),
                cn == counts@.len(),
                counts@.len() == keys0.len(),
                forall|e: int| 0 <= e < counts@.len() ==> (#[trigger] counts@[e]).0@ == keys0[e],
                keys0.no_duplicates(),
                forall|e: int|
                    0 <= e < counts@.len() ==> (#[trigger] counts@[e]).1 == users_outside(
                        dv,
                        counts@[e].0@,
                        Set::<Seq<u8>>::empty(),
                    ),
                views_of(order@).no_duplicates(),
                forall|x: Seq<u8>|
                    #[trigger] views_of(order@).contains(x) <==> exists|e: int|
                        0 <= e < k && (#[trigger] counts@[e]).0@ == x && counts@[e].1 == 0,
            decreases cn - k,
        {
            if counts[k].1 == 0 {
                let ghost nso = views_of(order@);
                let name = clone_bytes(&counts[k].0);
                order.push(name);
                proof {
                    assert(views_of(order@) =~= nso.push(keys0[k as int]));
                    if nso.contains(keys0[k as int]) {
                        let e = choose|e: int|
                            0 <= e < k && (#[trigger] counts@[e]).0@ == keys0[k as int]
                                && counts@[e].1 == 0;
                        assert(keys0[e] == keys0[k as int]);
                        assert(false);
                    }
                    assert forall|x: Seq<u8>| #[trigger] views_of(order@).contains(x) implies
                        exists|e: int|
                        0 <= e < k + 1 && (#[trigger] counts@[e]).0@ == x && counts@[e].1
                            == 0 by {
                        let w = choose|w: int|
                            0 <= w < views_of(order@).len() && views_of(order@)[w] == x;
                        if w < nso.len() {
                            assert(nso[w] == x);
                            assert(nso.contains(x));
                        } else {
                            assert(counts@[k as int].0@ == x && counts@[k as int].1 == 0);
                        }
                    }
                    assert forall|x: Seq<u8>|
                        (exists|e: int|
                            0 <= e < k + 1 && (#[trigger] counts@[e]).0@ == x && counts@[e].1
                                == 0) implies #[trigger] views_of(order@).contains(x) by {
                        let e = choose|e: int|
                            0 <= e < k + 1 && (#[trigger] counts@[e]).0@ == x && counts@[e].1
                                == 0;
                        if e < k {
                            assert(nso.contains(x));
                            let w = choose|w: int| 0 <= w < nso.len() && nso[w] == x;
                            assert(views_of(order@)[w] == x);
                        } else {
                            assert(views_of(order@)[nso.len() as int] == x);
                        }
                    }
                }
            } else {
                proof {
                    assert forall|x: Seq<u8>|
                        (exists|e: int|
                            0 <= e < k + 1 && (#[trigger] counts@[e]).0@ == x && counts@[e].1
                                == 0) implies #[trigger] views_of(order@).contains(x) by {
                        let e = choose|e: int|
                            0 <= e < k + 1 && (#[trigger] counts@[e]).0@ == x && counts@[e].1
                                == 0;
                        assert(e < k);
                    }
                }
            }
            k = k + 1;
        }
        proof {
            assert(views_of(order@).subrange(0, 0) =~= Seq::<Seq<u8>>::empty());
            assert(views_of(order@).subrange(0, 0).to_set() =~= Set::<Seq<u8>>::empty());
            assert forall|jx: int| 0 <= jx < order@.len() implies keys0.contains(
                #[trigger] views_of(order@)[jx],
            ) by {
                assert(views_of(order@).contains(views_of(order@)[jx]));
                let e = choose|e: int|
                    0 <= e < cn && (#[trigger] counts@[e]).0@ == views_of(order@)[jx]
                        && counts@[e].1 == 0;
                assert(keys0[e] == views_of(order@)[jx]);
            }
            lemma_order_bound(views_of(order@), keys0);
            assert forall|jx: int, u: Seq<u8>|
                0 <= jx < order@.len() && #[trigger] dv_edge(dv, u, views_of(order@)[jx]) implies
                exists|ix: int| 0 <= ix < jx && views_of(order@)[ix] == u by {
                let x = views_of(order@)[jx];
                assert(views_of(order@).contains(x));
                let e = choose|e: int|
                    0 <= e < cn && (#[trigger] counts@[e]).0@ == x && counts@[e].1 == 0;
                lemma_users_pos(dv, x, Set::<Seq<u8>>::empty());
                let i = choose|i: int| 0 <= i < dv.len() && dv[i].0 == u && dv[i].1.contains(x);
                assert(dv[i].1.contains(x) && !Set::<Seq<u8>>::empty().contains(dv[i].0));
                assert(users_outside(dv, x, Set::<Seq<u8>>::empty()) > 0);
                assert(false);
            }
            assert forall|e: int, jx: int|
                0 <= e < counts@.len() && 0 <= jx < order@.len() && (#[trigger] counts@[e]).0@
                    == #[trigger] views_of(order@)[jx] implies counts@[e].1 == 0 by {
                let x = views_of(order@)[jx];
                assert(views_of(order@).contains(x));
                let e2 = choose|e2: int|
                    0 <= e2 < cn && (#[trigger] counts@[e2]).0@ == x && counts@[e2].1 == 0;
                if e2 != e {
                    assert(keys0[e2] == keys0[e]);
                    assert(false);
                }
            }
        }
        let mut head: usize = 0;
        while head < order.len()
            invariant
                dv == deps_view(deps_vec@),
                dv_keys_unique(dv),
                forall|ii: int| 0 <= ii < dv.len() ==> (#[trigger] dv[ii].1).no_duplicates(),
                keys0.no_duplicates(),
                counts@.len() == keys0.len(),
                forall|e: int| 0 <= e < counts@.len() ==> (#[trigger] counts@[e]).0@ == keys0[e],
                forall|n: Seq<u8>| #[trigger] dv_has_key(dv, n) ==> keys0.contains(n),
                forall|a: Seq<u8>, b: Seq<u8>| #[trigger] dv_edge(dv, a, b) ==> keys0.contains(b),
                0 <= head <= order@.len(),
                order@.len() <= counts@.len(),
                views_of(order@).no_duplicates(),
                forall|jx: int|
                    0 <= jx < order@.len() ==> keys0.contains(#[trigger] views_of(order@)[jx]),
                forall|e: int|
                    0 <= e < counts@.len() ==> (#[trigger] counts@[e]).1 == users_outside(
                        dv,
                        counts@[e].0@,
                        views_of(order@).subrange(0, head as int).to_set(),
                    ),
                forall|e: int|
                    0 <= e < counts@.len() && (#[trigger] counts@[e]).1 == 0 ==> views_of(
                        order@,
                    ).contains(counts@[e].0@),
                forall|jx: int, u: Seq<u8>|
                    0 <= jx < order@.len() && #[trigger] dv_edge(dv, u, views_of(order@)[jx])
                        ==> exists|ix: int| 0 <= ix < jx && views_of(order@)[ix] == u,
                forall|e: int, jx: int|
                    0 <= e < counts@.len() && 0 <= jx < order@.len() && (#[trigger] counts@[e]).0@
                        == #[trigger] views_of(order@)[jx] ==> counts@[e].1 == 0,
            decreases counts@.len() - head,
        {
            let node = clone_bytes(&order[head]);
            let ghost pset = views_of(order@).subrange(0, head as int).to_set();
            proof {
                assert(views_of(order@)[head as int] == node@);
                if pset.contains(node@) {
                    assert(views_of(order@).subrange(0, head as int).contains(node@));
                    let w = choose|w: int|
                        0 <= w < head && (#[trigger] views_of(order@).subrange(
                            0,
                            head as int,
                        )[w]) == node@;
                    assert(views_of(order@)[w] == node@);
                    assert(false);
                }
            }
            match find_deps(&deps_vec, &node) {
                Some(di) => {
                    let ghost ndv = dv[di as int].1;
                    proof {
                        assert(dv[di as int].0 == node@);
                        assert(dv[di as int].1 == views_of(deps_vec@[di as int].1@));
                        assert(ndv.no_duplicates());
                    }
                    let m = deps_vec[di].1.len();
                    let mut j: usize = 0;
                    while j < m
                        invariant
                            dv == deps_view(deps_vec@),
                            dv_keys_unique(dv),
                            forall|ii: int|
                                0 <= ii < dv.len() ==> (#[trigger] dv[ii].1).no_duplicates(),
                            keys0.no_duplicates(),
                            counts@.len() == keys0.len(),
                            forall|e: int|
                                0 <= e < counts@.len() ==> (#[trigger] counts@[e]).0@ == keys0[e],
                            forall|n: Seq<u8>| #[trigger] dv_has_key(dv, n) ==> keys0.contains(n),
                            forall|a: Seq<u8>, b: Seq<u8>|
                                #[trigger] dv_edge(dv, a, b) ==> keys0.contains(b),
                            0 <= head < order@.len(),
                            order@.len() <= counts@.len(),
                            views_of(order@).no_duplicates(),
                            forall|jx: int|
                                0 <= jx < order@.len() ==> keys0.contains(
                                    #[trigger] views_of(order@)[jx],
                                ),
                            views_of(order@)[head as int] == node@,
                            pset == views_of(order@).subrange(0, head as int).to_set(),
                            !pset.contains(node@),
                            0 <= di < deps_vec@.len(),
                            dv[di as int].0 == node@,
                            ndv == dv[di as int].1,
                            m == ndv.len(),
                            0 <= j <= m,
                            forall|e: int|
                                0 <= e < counts@.len() ==> (#[trigger] counts@[e]).1 + (if
                                ndv.subrange(0, j as int).contains(counts@[e].0@) {
                                    1nat
                                } else {
                                    0nat
                                }) == users_outside(dv, counts@[e].0@, pset),
                            forall|e: int|
                                0 <= e < counts@.len() && (#[trigger] counts@[e]).1 == 0
                                    ==> views_of(order@).contains(counts@[e].0@),
                            forall|jx: int, u: Seq<u8>|
                                0 <= jx < order@.len() && #[trigger] dv_edge(dv, u, views_of(order@)[jx]) ==> exists|ix: int| 0 <= ix < jx && views_of(order@)[ix] == u,
                            forall|e: int, jx: int|
                                0 <= e < counts@.len() && 0 <= jx < order@.len() && (
                                #[trigger] counts@[e]).0@ == #[trigger] views_of(order@)[jx]
                                    ==> counts@[e].1 == 0,
                        decreases m - j,
                    {
                        let ghost tv = ndv[j as int];
                        proof {
                            assert(deps_vec@[di as int].1@[j as int]@ == tv);
                            assert(ndv.subrange(0, j + 1) =~= ndv.subrange(0, j as int).push(tv));
                            if ndv.subrange(0, j as int).contains(tv) {
                                let w = choose|w: int|
                                    0 <= w < j && (#[trigger] ndv.subrange(0, j as int)[w]) == tv;
                                assert(ndv[w] == ndv[j as int]);
                                assert(false);
                            }
                            assert forall|x: Seq<u8>| x != tv implies (ndv.subrange(
                                0,
                                j + 1,
                            ).contains(x) == ndv.subrange(0, j as int).contains(x)) by {
                                if ndv.subrange(0, j + 1).contains(x) {
                                    let w = choose|w: int|
                                        0 <= w < j + 1 && (#[trigger] ndv.subrange(0, j + 1)[w])
                                            == x;
                                    assert(ndv.subrange(0, j as int)[w] == x);
                                }
                                if ndv.subrange(0, j as int).contains(x) {
                                    let w = choose|w: int|
                                        0 <= w < j && (#[trigger] ndv.subrange(0, j as int)[w])
                                            == x;
                                    assert(ndv.subrange(0, j + 1)[w] == x);
                                }
                            }
                            assert(ndv.subrange(0, j + 1).contains(tv)) by {
                                assert(ndv.subrange(0, j + 1)[j as int] == tv);
                            }
                            assert(dv_edge(dv, node@, tv)) by {
                                assert(ndv[j as int] == tv);
                                assert(dv[di as int].0 == node@ && dv[di as int].1.contains(tv));
                            }
                            lemma_users_pos(dv, tv, pset);
                            assert(users_outside(dv, tv, pset) > 0) by {
                                assert(dv[di as int].1.contains(tv) && !pset.contains(
                                    dv[di as int].0,
                                ));
                            }
                        }
                        let tref = &deps_vec[di].1[j];
                        match find_cnt(&counts, tref) {
                            Some(e) => {
                                let ghost before = counts@;
                                let pair = counts.remove(e);
                                let c = pair.1;
                                proof {
                                    assert(before[e as int].0@ == tv);
                                    assert(c == users_outside(dv, tv, pset));
                                }
                                let nc = c - 1;
                                counts.insert(e, (pair.0, nc));
                                proof {
                                    assert forall|e2: int|
                                        0 <= e2 < counts@.len() && e2 != e implies counts@[e2]
                                        == before[e2] by {
                                        if e2 < e {
                                            assert(before.remove(e as int)[e2] == before[e2]);
                                        } else {
                                            assert(before.remove(e as int)[e2 - 1] == before[e2]);
                                        }
                                    }
                                    assert(counts@[e as int] == (before[e as int].0, nc));
                                    assert(counts@.len() == before.len());
                                }
                                if nc == 0 {
                                    let ghost nso = views_of(order@);
                                    proof {
                                        if nso.contains(tv) {
                                            let w = choose|w: int|
                                                0 <= w < nso.len() && nso[w] == tv;
                                            assert(before[e as int].0@ == nso[w]);
                                            assert(before[e as int].1 == 0);
                                            assert(false);
                                        }
                                    }
                                    let tclone = clone_bytes(tref);
                                    order.push(tclone);
                                    proof {
                                        assert(views_of(order@) =~= nso.push(tv));
                                        let nsn = views_of(order@);
                                        let ghost ln = nso.len() as int;
                                        assert(nsn[ln] == tv);
                                        assert(forall|jx: int| 0 <= jx < ln ==> nsn[jx] == nso[jx]);
                                        assert(nsn.subrange(0, head as int) =~= nso.subrange(
                                            0,
                                            head as int,
                                        ));
                                        assert(nsn.no_duplicates()) by {
                                            assert forall|a2: int, b2: int|
                                                0 <= a2 < b2 < nsn.len() implies nsn[a2]
                                                != nsn[b2] by {
                                                if b2 == ln {
                                                    if nsn[a2] == tv {
                                                        assert(nso.contains(tv));
                                                        assert(false);
                                                    }
                                                }
                                            }
                                        }
                                        lemma_users_insert(dv, tv, pset, node@);
                                        assert(users_outside(dv, tv, pset.insert(node@)) == 0);
                                        lemma_users_pos(dv, tv, pset.insert(node@));
                                        assert forall|u: Seq<u8>| dv_edge(dv, u, tv) implies
                                            exists|ix: int| 0 <= ix < ln && nsn[ix] == u by {
                                            let i = choose|i: int|
                                                0 <= i < dv.len() && dv[i].0 == u
                                                    && dv[i].1.contains(tv);
                                            assert(pset.insert(node@).contains(dv[i].0));
                                            if u == node@ {
                                                assert(nsn[head as int] == u);
                                            } else {
                                                assert(pset.contains(u));
                                                assert(nso.subrange(0, head as int).contains(u));
                                                let w = choose|w: int|
                                                    0 <= w < head && (#[trigger] nso.subrange(
                                                        0,
                                                        head as int,
                                                    )[w]) == u;
                                                assert(nsn[w] == u);
                                            }
                                        }
                                        assert forall|jx: int, u: Seq<u8>|
                                            0 <= jx < nsn.len() && #[trigger] dv_edge(dv, u, nsn[jx]) implies exists|ix: int|
                                            0 <= ix < jx && nsn[ix] == u by {
                                            if jx < ln {
                                                assert(nso[jx] == nsn[jx]);
                                                let ix = choose|ix: int|
                                                    0 <= ix < jx && nso[ix] == u;
                                                assert(nsn[ix] == u);
                                            } else {
                                                let ix = choose|ix: int|
                                                    0 <= ix < ln && nsn[ix] == u;
                                            }
                                        }
                                        assert(keys0.contains(tv));
                                        assert forall|jx: int|
                                            0 <= jx < nsn.len() implies keys0.contains(
                                            #[trigger] nsn[jx],
                                        ) by {
                                            if jx < ln {
                                                assert(nsn[jx] == nso[jx]);
                                            }
                                        }
                                        lemma_order_bound(nsn, keys0);
                                        assert forall|e2: int, jx: int|
                                            0 <= e2 < counts@.len() && 0 <= jx < nsn.len() && (
                                            #[trigger] counts@[e2]).0@ == #[trigger] nsn[jx]
                                            implies counts@[e2].1 == 0 by {
                                            if jx < ln {
                                                assert(nsn[jx] == nso[jx]);
                                            } else {
                                                if e2 != e {
                                                    assert(keys0[e2] == counts@[e2].0@);
                                                    assert(keys0[e as int] == tv);
                                                    assert(false);
                                                }
                                            }
                                        }
                                        assert forall|e2: int|
                                            0 <= e2 < counts@.len() && (#[trigger] counts@[e2]).1
                                                == 0 implies nsn.contains(counts@[e2].0@) by {
                                            if e2 == e {
                                                assert(nsn[ln] == tv);
                                            } else {
                                                assert(counts@[e2] == before[e2]);
                                                assert(nso.contains(counts@[e2].0@));
                                                let w = choose|w: int|
                                                    0 <= w < nso.len() && nso[w]
                                                        == counts@[e2].0@;
                                                assert(nsn[w] == counts@[e2].0@);
                                            }
                                        }
                                    }
                                } else {
                                    proof {
                                        let nso = views_of(order@);
                                        assert forall|e2: int|
                                            0 <= e2 < counts@.len() && (#[trigger] counts@[e2]).1
                                                == 0 implies nso.contains(counts@[e2].0@) by {
                                            assert(e2 != e);
                                            assert(counts@[e2] == before[e2]);
                                        }
                                    }
                                }
                            },
                            None => {
                                proof {
                                    assert(keys0.contains(tv));
                                    let w = choose|w: int|
                                        0 <= w < keys0.len() && keys0[w] == tv;
                                    assert(counts@[w].0@ == tv);
                                    assert(false);
                                }
                            },
                        }
                        j = j + 1;
                    }
                    proof {
                        assert(ndv.subrange(0, m as int) =~= ndv);
                        assert forall|e: int|
                            0 <= e < counts@.len() implies (#[trigger] counts@[e]).1
                            == users_outside(dv, counts@[e].0@, pset.insert(node@)) by {
                            lemma_users_insert(dv, counts@[e].0@, pset, node@);
                            if dv_edge(dv, node@, counts@[e].0@) {
                                let i = choose|i: int|
                                    0 <= i < dv.len() && dv[i].0 == node@ && dv[i].1.contains(
                                        counts@[e].0@,
                                    );
                                if i != di {
                                    assert(dv[i].0 == dv[di as int].0);
                                    assert(false);
                                }
                                assert(ndv.contains(counts@[e].0@));
                            } else {
                                if ndv.contains(counts@[e].0@) {
                                    assert(dv_edge(dv, node@, counts@[e].0@)) by {
                                        assert(dv[di as int].0 == node@
                                            && dv[di as int].1.contains(counts@[e].0@));
                                    }
                                    assert(false);
                                }
                            }
                        }
                    }
                },
                None => {
                    proof {
                        assert forall|i: int| 0 <= i < dv.len() implies dv[i].0 != node@ by {
                            assert(deps_vec@[i].0@ != node@);
                        }
                        assert forall|e: int|
                            0 <= e < counts@.len() implies (#[trigger] counts@[e]).1
                            == users_outside(dv, counts@[e].0@, pset.insert(node@)) by {
                            lemma_users_nokey(dv, counts@[e].0@, pset, node@);
                        }
                    }
                },
            }
            head = head + 1;
            proof {
                let nsn = views_of(order@);
                assert(nsn.subrange(0, head as int) =~= nsn.subrange(0, head - 1).push(node@)) by {
                    assert(nsn[head - 1] == node@);
                }
                assert forall|y: Seq<u8>| nsn.subrange(0, head as int).to_set().contains(
                    y,
                ) implies pset.insert(node@).contains(y) by {
                    assert(nsn.subrange(0, head as int).contains(y));
                    let w = choose|w: int|
                        0 <= w < head && (#[trigger] nsn.subrange(0, head as int)[w]) == y;
                    if w < head - 1 {
                        assert(nsn.subrange(0, head - 1)[w] == y);
                        assert(pset.contains(y));
                    }
                }
                assert forall|y: Seq<u8>| pset.insert(node@).contains(y) implies nsn.subrange(
                    0,
                    head as int,
                ).to_set().contains(y) by {
                    if y == node@ {
                        assert(nsn.subrange(0, head as int)[head - 1] == y);
                    } else {
                        assert(pset.contains(y));
                        assert(nsn.subrange(0, head - 1).contains(y));
                        let w = choose|w: int|
                            0 <= w < head - 1 && (#[trigger] nsn.subrange(0, head - 1)[w]) == y;
                        assert(nsn.subrange(0, head as int)[w] == y);
                    }
                }
                assert(nsn.subrange(0, head as int).to_set() =~= pset.insert(node@));
            }
        }
        proof {
            assert(views_of(order@).subrange(0, head as int) =~= views_of(order@));
        }
        if order.len() == counts.len() {
            let rev = reversed(&order);
            proof {
                let nso = views_of(order@);
                let ns = views_of(rev@);
                let ln = nso.len() as int;
                assert(ns.len() == ln);
                assert forall|a2: int, b2: int| 0 <= a2 < b2 < ln implies ns[a2] != ns[b2] by {
                    assert(ns[a2] == nso[ln - 1 - a2]);
                    assert(ns[b2] == nso[ln - 1 - b2]);
                }
                assert(ns.no_duplicates());
                lemma_order_covers(nso, keys0);
                assert forall|x: Seq<u8>| #[trigger] ns.contains(x) implies g.is_entry(x) by {
                    let w = choose|w: int| 0 <= w < ns.len() && ns[w] == x;
                    assert(ns[w] == nso[ln - 1 - w]);
                    assert(nso.contains(x)) by {
                        assert(nso[ln - 1 - w] == x);
                    }
                    assert(keys0.contains(x));
                    let e = choose|e: int| 0 <= e < keys0.len() && keys0[e] == x;
                    assert(g.dependents@[e].0@ == x);
                }
                assert forall|x: Seq<u8>| g.is_entry(x) implies #[trigger] ns.contains(x) by {
                    let e = choose|e: int|
                        0 <= e < g.dependents@.len() && g.dependents@[e].0@ == x;
                    assert(keys0[e] == x);
                    assert(keys0.contains(x));
                    assert(nso.contains(x));
                    let w = choose|w: int| 0 <= w < nso.len() && nso[w] == x;
                    assert(ns[ln - 1 - w] == x);
                }
                assert forall|a: Seq<u8>, b: Seq<u8>| #[trigger] g.uses(a, b) implies ns.contains(
                    a,
                ) && ns.contains(b) && 0 <= pos_of(ns, b) < pos_of(ns, a) < ns.len() by {
                    assert(dv_edge(dv, a, b));
                    let i = choose|i: int|
                        0 <= i < dv.len() && dv[i].0 == a && dv[i].1.contains(b);
                    assert(dv_has_key(dv, a)) by {
                        assert(dv[i].0 == a);
                    }
                    assert(keys0.contains(a));
                    assert(keys0.contains(b));
                    assert(nso.contains(a) && nso.contains(b));
                    assert(ns.contains(a)) by {
                        let w = choose|w: int| 0 <= w < nso.len() && nso[w] == a;
                        assert(ns[ln - 1 - w] == a);
                    }
                    assert(ns.contains(b)) by {
                        let w = choose|w: int| 0 <= w < nso.len() && nso[w] == b;
                        assert(ns[ln - 1 - w] == b);
                    }
                    let pa = pos_of(ns, a);
                    let pb = pos_of(ns, b);
                    assert(0 <= pa < ns.len() && ns[pa] == a);
                    assert(0 <= pb < ns.len() && ns[pb] == b);
                    let ia = ln - 1 - pa;
                    let ib = ln - 1 - pb;
                    assert(nso[ia] == a);
                    assert(nso[ib] == b);
                    assert(dv_edge(dv, a, nso[ib]));
                    let ix = choose|ix: int| 0 <= ix < ib && nso[ix] == a;
                    if ix != ia {
                        assert(nso[ix] == nso[ia]);
                        assert(false);
                    }
                    assert(ia < ib);
                }
                assert forall|s: Set<Seq<u8>>|
                    s.finite() && s.len() > 0 && (forall|n: Seq<u8>|
                        s.contains(n) ==> g.is_entry(n)) implies #[trigger] g.has_source(s) by {
                    assert forall|m2: Seq<u8>| s.contains(m2) implies ns.contains(m2) by {
                        assert(g.is_entry(m2));
                    }
                    lemma_max_pos(ns, s);
                    let n = choose|n: Seq<u8>|
                        s.contains(n) && (forall|m2: Seq<u8>|
                            s.contains(m2) ==> pos_of(ns, m2) <= pos_of(ns, n));
                    assert forall|u: Seq<u8>| g.uses(u, n) implies !s.contains(u) by {
                        if s.contains(u) {
                            assert(pos_of(ns, u) <= pos_of(ns, n));
                            assert(pos_of(ns, n) < pos_of(ns, u));
                            assert(false);
                        }
                    }
                    assert(s.contains(n) && (forall|u: Seq<u8>|
                        g.uses(u, n) ==> !s.contains(u)));
                }
                assert(g.acyclic());
            }
            Ok(rev)
        } else {
            let mut stuck: Vec<Vec<u8>> = Vec::new();
            let cn2 = counts.len();
            let mut e: usize = 0;
            while e < cn2
                invariant
                    0 <= e <= cn2,
                    cn2 == counts@.len(),
                    forall|x: Seq<u8>|
                        #[trigger] views_of(stuck@).contains(x) <==> exists|e2: int|
                            0 <= e2 < e && (#[trigger] counts@[e2]).0@ == x && counts@[e2].1 != 0,
                decreases cn2 - e,
            {
                let ghost sv = views_of(stuck@);
                if counts[e].1 != 0 {
                    stuck.push(clone_bytes(&counts[e].0));
                    proof {
                        assert(views_of(stuck@) =~= sv.push(counts@[e as int].0@));
                        assert forall|x: Seq<u8>| #[trigger] views_of(stuck@).contains(x) implies
                            exists|e2: int|
                            0 <= e2 < e + 1 && (#[trigger] counts@[e2]).0@ == x && counts@[e2].1
                                != 0 by {
                            let w = choose|w: int|
                                0 <= w < views_of(stuck@).len() && views_of(stuck@)[w] == x;
                            if w < sv.len() {
                                assert(sv[w] == x);
                                assert(sv.contains(x));
                            } else {
                                assert(counts@[e as int].0@ == x && counts@[e as int].1 != 0);
                            }
                        }
                        assert forall|x: Seq<u8>|
                            (exists|e2: int|
                                0 <= e2 < e + 1 && (#[trigger] counts@[e2]).0@ == x
                                    && counts@[e2].1 != 0) implies #[trigger] views_of(
                            stuck@,
                        ).contains(x) by {
                            let e2 = choose|e2: int|
                                0 <= e2 < e + 1 && (#[trigger] counts@[e2]).0@ == x
                                    && counts@[e2].1 != 0;
                            if e2 < e {
                                assert(sv.contains(x));
                                let w = choose|w: int| 0 <= w < sv.len() && sv[w] == x;
                                assert(views_of(stuck@)[w] == x);
                            } else {
                                assert(views_of(stuck@)[sv.len() as int] == x);
                            }
                        }
                    }
                } else {
                    proof {
                        assert forall|x: Seq<u8>|
                            (exists|e2: int|
                                0 <= e2 < e + 1 && (#[trigger] counts@[e2]).0@ == x
                                    && counts@[e2].1 != 0) implies #[trigger] views_of(
                            stuck@,
                        ).contains(x) by {
                            let e2 = choose|e2: int|
                                0 <= e2 < e + 1 && (#[trigger] counts@[e2]).0@ == x
                                    && counts@[e2].1 != 0;
                            assert(e2 < e);
                        }
                    }
                }
                e = e + 1;
            }
            proof {
                broadcast use vstd::seq_lib::seq_to_set_is_finite;

                let nso = views_of(order@);
                let st = views_of(stuck@);
                assert(order@.len() < counts@.len());
                if forall|e2: int| 0 <= e2 < counts@.len() ==> (#[trigger] counts@[e2]).1 == 0 {
                    assert forall|x: Seq<u8>| keys0.contains(x) implies nso.contains(x) by {
                        let w = choose|w: int| 0 <= w < keys0.len() && keys0[w] == x;
                        assert(counts@[w].0@ == x);
                        assert(counts@[w].1 == 0);
                    }
                    lemma_order_bound(keys0, nso);
                    assert(false);
                }
                let we = choose|we: int|
                    0 <= we < counts@.len() && (#[trigger] counts@[we]).1 != 0;
                assert(st.contains(counts@[we].0@));
                assert(st.len() > 0) by {
                    let w = choose|w: int| 0 <= w < st.len() && st[w] == counts@[we].0@;
                }
                assert forall|ix: int| 0 <= ix < st.len() implies g.is_entry(#[trigger] st[ix])
                    && (exists|u: Seq<u8>| g.uses(u, st[ix]) && st.contains(u)) by {
                    let x = st[ix];
                    assert(st.contains(x));
                    let e2 = choose|e2: int|
                        0 <= e2 < counts@.len() && (#[trigger] counts@[e2]).0@ == x
                            && counts@[e2].1 != 0;
                    assert(g.dependents@[e2].0@ == x);
                    assert(g.is_entry(x));
                    assert(counts@[e2].1 == users_outside(dv, x, nso.to_set())) by {
                        assert(nso.subrange(0, head as int) =~= nso);
                    }
                    lemma_users_pos(dv, x, nso.to_set());
                    let i = choose|i: int|
                        0 <= i < dv.len() && dv[i].1.contains(x) && !nso.to_set().contains(
                            dv[i].0,
                        );
                    let u = dv[i].0;
                    assert(dv_edge(dv, u, x)) by {
                        assert(dv[i].0 == u && dv[i].1.contains(x));
                    }
                    assert(g.uses(u, x));
                    assert(dv_has_key(dv, u)) by {
                        assert(dv[i].0 == u);
                    }
                    assert(keys0.contains(u));
                    let eu = choose|eu: int| 0 <= eu < keys0.len() && keys0[eu] == u;
                    assert(counts@[eu].0@ == u);
                    assert(counts@[eu].1 != 0) by {
                        if counts@[eu].1 == 0 {
                            assert(nso.contains(u));
                            assert(nso.to_set().contains(u));
                            assert(false);
                        }
                    }
                    assert(st.contains(u));
                    assert(g.uses(u, x) && st.contains(u));
                }
                let sset = st.to_set();
                assert(sset.finite());
                assert(sset.contains(counts@[we].0@));
                if sset.len() == 0 {
                    sset.lemma_len0_is_empty();
                    assert(false);
                }
                if g.acyclic() {
                    assert forall|n: Seq<u8>| sset.contains(n) implies g.is_entry(n) by {
                        assert(st.contains(n));
                        let w = choose|w: int| 0 <= w < st.len() && st[w] == n;
                        assert(g.is_entry(st[w]));
                    }
                    assert(g.has_source(sset));
                    let n = choose|n: Seq<u8>|
                        sset.contains(n) && (forall|u: Seq<u8>|
                            g.uses(u, n) ==> !sset.contains(u));
                    assert(st.contains(n));
                    let w = choose|w: int| 0 <= w < st.len() && st[w] == n;
                    let u = choose|u: Seq<u8>| g.uses(u, st[w]) && st.contains(u);
                    assert(sset.contains(u));
                    assert(false);
                }
            }
            Err(CycleError { stuck })
        }
    }
}

} // verus!
