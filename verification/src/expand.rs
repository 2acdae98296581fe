//! The expansion engine: renders a file's filtered content, replacing each
//! resolvable directive line with the rendered content of its target and
//! expanding each distinct target at most once across the whole run.
//!
//! The engine is specified by `exp_file` and `exp_lines`, a pair of spec
//! functions over the file store (canonical path to lines), the
//! resolved-directive index (raw line text to canonical target path) and
//! the visited set. The functions carry a fuel argument only to be total;
//! `lemma_exp_file_fuel` shows that any sufficient fuel gives the same
//! result, so the recursion bottoms out on every input, cyclic graphs
//! included.

use vstd::prelude::*;
use vstd::set_lib::lemma_len_subset;

use crate::strmap::PathSet;
use crate::strmap::StrMap;
use crate::strmap::lemma_key_set;
use crate::text::is_comment;
use crate::text::is_pragma_once;
use crate::text::spec_is_comment;
use crate::text::spec_is_pragma_once;

verus! {

/// A line the engine drops without rendering it: a comment line or a
/// once-only directive line.
pub open spec fn line_consumed(l: Seq<char>) -> bool {
    spec_is_comment(l) || spec_is_pragma_once(l)
}

/// Every target the index resolves to has content in the store.
pub open spec fn idx_covered(
    store: Map<Seq<char>, Seq<Seq<char>>>,
    idx: Map<Seq<char>, Seq<char>>,
) -> bool {
    forall|l: Seq<char>| #[trigger] idx.contains_key(l) ==> store.contains_key(idx[l])
}

/// Fuel that always suffices to expand a file when `visited` is a subset
/// of the store's domain: one unit per file not yet visited, plus one.
pub open spec fn file_fuel(store: Map<Seq<char>, Seq<Seq<char>>>, visited: Set<Seq<char>>) -> nat {
    (store.dom().len() + 1 - visited.len()) as nat
}

/// Renders one file: its visited set, its emitted lines, and the trace of
/// targets it expanded, in the order their expansion began.
pub open spec fn exp_file(
    store: Map<Seq<char>, Seq<Seq<char>>>,
    idx: Map<Seq<char>, Seq<char>>,
    visited: Set<Seq<char>>,
    path: Seq<char>,
    fuel: nat,
) -> (Set<Seq<char>>, Seq<Seq<char>>, Seq<Seq<char>>)
    decreases fuel, 0nat, 0nat,
{
    if fuel == 0 {
        (visited, Seq::empty(), Seq::empty())
    } else {
        exp_lines(store, idx, visited, store[path], (fuel - 1) as nat)
    }
}

/// Renders a run of lines, front to back.
pub open spec fn exp_lines(
    store: Map<Seq<char>, Seq<Seq<char>>>,
    idx: Map<Seq<char>, Seq<char>>,
    visited: Set<Seq<char>>,
    lines: Seq<Seq<char>>,
    fuel: nat,
) -> (Set<Seq<char>>, Seq<Seq<char>>, Seq<Seq<char>>)
    decreases fuel, lines.len(), 1nat,
{
    if lines.len() == 0 {
        (visited, Seq::empty(), Seq::empty())
    } else {
        let l = lines[0];
        let rest = lines.drop_first();
        if line_consumed(l) {
            exp_lines(store, idx, visited, rest, fuel)
        } else if idx.contains_key(l) {
            let t = idx[l];
            if visited.contains(t) {
                exp_lines(store, idx, visited, rest, fuel)
            } else {
                let r1 = exp_file(store, idx, visited.insert(t), t, fuel);
                let r2 = exp_lines(store, idx, r1.0, rest, fuel);
                (r2.0, r1.1 + r2.1, seq![t] + r1.2 + r2.2)
            }
        } else {
            let r = exp_lines(store, idx, visited, rest, fuel);
            (r.0, seq![l] + r.1, r.2)
        }
    }
}

/// What expanding `path` against `store` and `idx` yields, starting from
/// `visited`: the spec the executable engine is proved against.
pub open spec fn spec_expand(
    store: Map<Seq<char>, Seq<Seq<char>>>,
    idx: Map<Seq<char>, Seq<char>>,
    visited: Set<Seq<char>>,
    path: Seq<char>,
) -> (Set<Seq<char>>, Seq<Seq<char>>, Seq<Seq<char>>) {
    exp_file(store, idx, visited, path, file_fuel(store, visited))
}

pub proof fn lemma_exp_file_frame(
    store: Map<Seq<char>, Seq<Seq<char>>>,
    idx: Map<Seq<char>, Seq<char>>,
    visited: Set<Seq<char>>,
    path: Seq<char>,
    fuel: nat,
)
    requires
        store.dom().finite(),
        visited.finite(),
        visited.subset_of(store.dom()),
        idx_covered(store, idx),
    ensures
        ({
            let r = exp_file(store, idx, visited, path, fuel);
            &&& r.0.finite()
            &&& visited.subset_of(r.0)
            &&& r.0.subset_of(store.dom())
            &&& r.0.len() == visited.len() + r.2.len()
            &&& r.2.no_duplicates()
            &&& forall|t: int| 0 <= t < r.2.len() ==> !visited.contains(#[trigger] r.2[t])
            &&& forall|p: Seq<char>| #[trigger]
                r.0.contains(p) <==> visited.contains(p) || r.2.contains(p)
        }),
    decreases fuel, 0nat, 0nat,
{
    if fuel == 0 {
    } else {
        lemma_exp_lines_frame(store, idx, visited, store[path], (fuel - 1) as nat);
    }
}

pub proof fn lemma_exp_lines_frame(
    store: Map<Seq<char>, Seq<Seq<char>>>,
    idx: Map<Seq<char>, Seq<char>>,
    visited: Set<Seq<char>>,
    lines: Seq<Seq<char>>,
    fuel: nat,
)
    requires
        store.dom().finite(),
        visited.finite(),
        visited.subset_of(store.dom()),
        idx_covered(store, idx),
    ensures
        ({
            let r = exp_lines(store, idx, visited, lines, fuel);
            &&& r.0.finite()
            &&& visited.subset_of(r.0)
            &&& r.0.subset_of(store.dom())
            &&& r.0.len() == visited.len() + r.2.len()
            &&& r.2.no_duplicates()
            &&& forall|t: int| 0 <= t < r.2.len() ==> !visited.contains(#[trigger] r.2[t])
            &&& forall|p: Seq<char>| #[trigger]
                r.0.contains(p) <==> visited.contains(p) || r.2.contains(p)
        }),
    decreases fuel, lines.len(), 1nat,
{
    if lines.len() == 0 {
    } else {
        let l = lines[0];
        let rest = lines.drop_first();
        if line_consumed(l) {
            lemma_exp_lines_frame(store, idx, visited, rest, fuel);
        } else if idx.contains_key(l) {
            let t = idx[l];
            if visited.contains(t) {
                lemma_exp_lines_frame(store, idx, visited, rest, fuel);
            } else {
                let v1 = visited.insert(t);
                assert(store.contains_key(t));
                lemma_exp_file_frame(store, idx, v1, t, fuel);
                let r1 = exp_file(store, idx, v1, t, fuel);
                lemma_exp_lines_frame(store, idx, r1.0, rest, fuel);
                let r2 = exp_lines(store, idx, r1.0, rest, fuel);
                let a = r1.2.len() as int;
                let tr = seq![t] + r1.2 + r2.2;
                assert forall|x: int, y: int| 0 <= x < y < tr.len() implies tr[x] != tr[y] by {
                    if x == 0 {
                        if y <= a {
                            assert(tr[y] == r1.2[y - 1]);
                            assert(!v1.contains(r1.2[y - 1]));
                        } else {
                            assert(tr[y] == r2.2[y - 1 - a]);
                            assert(!r1.0.contains(r2.2[y - 1 - a]));
                            assert(r1.0.contains(t));
                        }
                    } else if x <= a {
                        if y <= a {
                            assert(tr[x] == r1.2[x - 1] && tr[y] == r1.2[y - 1]);
                        } else {
                            assert(tr[x] == r1.2[x - 1] && tr[y] == r2.2[y - 1 - a]);
                            assert(r1.2.contains(r1.2[x - 1]));
                            assert(r1.0.contains(r1.2[x - 1]));
                            assert(!r1.0.contains(r2.2[y - 1 - a]));
                        }
                    } else {
                        assert(tr[x] == r2.2[x - 1 - a] && tr[y] == r2.2[y - 1 - a]);
                    }
                }
                assert forall|p: Seq<char>| #[trigger]
                    tr.contains(p) <==> (p == t || r1.2.contains(p) || r2.2.contains(p)) by {
                    if tr.contains(p) {
                        let w = choose|w: int| 0 <= w < tr.len() && tr[w] == p;
                        if w == 0 {
                        } else if w <= a {
                            assert(r1.2[w - 1] == p);
                        } else {
                            assert(r2.2[w - 1 - a] == p);
                        }
                    }
                    if p == t {
                        assert(tr[0] == p);
                    }
                    if r1.2.contains(p) {
                        let w = choose|w: int| 0 <= w < r1.2.len() && r1.2[w] == p;
                        assert(tr[1 + w] == p);
                    }
                    if r2.2.contains(p) {
                        let w = choose|w: int| 0 <= w < r2.2.len() && r2.2[w] == p;
                        assert(tr[1 + a + w] == p);
                    }
                }
                assert forall|i: int| 0 <= i < tr.len() implies !visited.contains(
                    #[trigger] tr[i],
                ) by {
                    if i == 0 {
                    } else if i <= a {
                        assert(tr[i] == r1.2[i - 1]);
                        assert(!v1.contains(r1.2[i - 1]));
                    } else {
                        assert(tr[i] == r2.2[i - 1 - a]);
                        assert(!r1.0.contains(r2.2[i - 1 - a]));
                        assert(visited.subset_of(r1.0));
                    }
                }
            }
        } else {
            lemma_exp_lines_frame(store, idx, visited, rest, fuel);
        }
    }
}

/// Law: expanding with any fuel that covers the files not yet visited
/// gives one and the same result. Cycle termination rests on this: even
/// when file A names file B and B names A back, every recursive step
/// shrinks the set of unvisited files, so the given fuel is never
/// exhausted and expansion completes.
pub proof fn lemma_exp_file_fuel(
    store: Map<Seq<char>, Seq<Seq<char>>>,
    idx: Map<Seq<char>, Seq<char>>,
    visited: Set<Seq<char>>,
    path: Seq<char>,
    fuel1: nat,
    fuel2: nat,
)
    requires
        store.dom().finite(),
        visited.finite(),
        visited.subset_of(store.dom()),
        idx_covered(store, idx),
        fuel1 + visited.len() >= store.dom().len() + 1,
        fuel2 + visited.len() >= store.dom().len() + 1,
    ensures
        exp_file(store, idx, visited, path, fuel1) == exp_file(store, idx, visited, path, fuel2),
    decreases fuel1 + fuel2, 0nat, 0nat,
{
    lemma_len_subset(visited, store.dom());
    lemma_exp_lines_fuel(
        store,
        idx,
        visited,
        store[path],
        (fuel1 - 1) as nat,
        (fuel2 - 1) as nat,
    );
}

pub proof fn lemma_exp_lines_fuel(
    store: Map<Seq<char>, Seq<Seq<char>>>,
    idx: Map<Seq<char>, Seq<char>>,
    visited: Set<Seq<char>>,
    lines: Seq<Seq<char>>,
    fuel1: nat,
    fuel2: nat,
)
    requires
        store.dom().finite(),
        visited.finite(),
        visited.subset_of(store.dom()),
        idx_covered(store, idx),
        fuel1 + visited.len() >= store.dom().len(),
        fuel2 + visited.len() >= store.dom().len(),
    ensures
        exp_lines(store, idx, visited, lines, fuel1) == exp_lines(store, idx, visited, lines, fuel2),
    decreases fuel1 + fuel2, lines.len(), 1nat,
{
    if lines.len() == 0 {
    } else {
        let l = lines[0];
        let rest = lines.drop_first();
        if line_consumed(l) {
            lemma_exp_lines_fuel(store, idx, visited, rest, fuel1, fuel2);
        } else if idx.contains_key(l) {
            let t = idx[l];
            if visited.contains(t) {
                lemma_exp_lines_fuel(store, idx, visited, rest, fuel1, fuel2);
            } else {
                let v1 = visited.insert(t);
                lemma_len_subset(visited, store.dom());
                lemma_exp_file_fuel(store, idx, v1, t, fuel1, fuel2);
                lemma_exp_file_frame(store, idx, v1, t, fuel1);
                let r1 = exp_file(store, idx, v1, t, fuel1);
                lemma_len_subset(v1, r1.0);
                lemma_exp_lines_fuel(store, idx, r1.0, rest, fuel1, fuel2);
            }
        } else {
            lemma_exp_lines_fuel(store, idx, visited, rest, fuel1, fuel2);
        }
    }
}

/// Splitting a run of lines splits the rendering: the second half starts
/// from the visited set the first half ends with.
pub proof fn lemma_exp_lines_concat(
    store: Map<Seq<char>, Seq<Seq<char>>>,
    idx: Map<Seq<char>, Seq<char>>,
    visited: Set<Seq<char>>,
    a: Seq<Seq<char>>,
    b: Seq<Seq<char>>,
    fuel: nat,
)
    ensures
        ({
            let ra = exp_lines(store, idx, visited, a, fuel);
            let rb = exp_lines(store, idx, ra.0, b, fuel);
            exp_lines(store, idx, visited, a + b, fuel) == (rb.0, ra.1 + rb.1, ra.2 + rb.2)
        }),
    decreases a.len(),
{
    if a.len() == 0 {
        assert(a + b =~= b);
        let rb = exp_lines(store, idx, visited, b, fuel);
        assert(Seq::<Seq<char>>::empty() + rb.1 =~= rb.1);
        assert(Seq::<Seq<char>>::empty() + rb.2 =~= rb.2);
    } else {
        let l = a[0];
        assert((a + b)[0] == l);
        assert((a + b).drop_first() =~= a.drop_first() + b);
        let ra = exp_lines(store, idx, visited, a, fuel);
        if line_consumed(l) {
            lemma_exp_lines_concat(store, idx, visited, a.drop_first(), b, fuel);
        } else if idx.contains_key(l) {
            let t = idx[l];
            if visited.contains(t) {
                lemma_exp_lines_concat(store, idx, visited, a.drop_first(), b, fuel);
            } else {
                let r1 = exp_file(store, idx, visited.insert(t), t, fuel);
                lemma_exp_lines_concat(store, idx, r1.0, a.drop_first(), b, fuel);
                let rr = exp_lines(store, idx, r1.0, a.drop_first(), fuel);
                let rb = exp_lines(store, idx, rr.0, b, fuel);
                assert(r1.1 + (rr.1 + rb.1) =~= (r1.1 + rr.1) + rb.1);
                assert(seq![t] + r1.2 + (rr.2 + rb.2) =~= (seq![t] + r1.2 + rr.2) + rb.2);
            }
        } else {
            lemma_exp_lines_concat(store, idx, visited, a.drop_first(), b, fuel);
            let rr = exp_lines(store, idx, visited, a.drop_first(), fuel);
            let rb = exp_lines(store, idx, rr.0, b, fuel);
            assert(seq![l] + (rr.1 + rb.1) =~= (seq![l] + rr.1) + rb.1);
        }
    }
}

/// How a single line renders.
pub proof fn lemma_exp_lines_one(
    store: Map<Seq<char>, Seq<Seq<char>>>,
    idx: Map<Seq<char>, Seq<char>>,
    visited: Set<Seq<char>>,
    l: Seq<char>,
    fuel: nat,
)
    ensures
        exp_lines(store, idx, visited, seq![l], fuel) == ({
            if line_consumed(l) {
                (visited, Seq::<Seq<char>>::empty(), Seq::<Seq<char>>::empty())
            } else if idx.contains_key(l) {
                if visited.contains(idx[l]) {
                    (visited, Seq::<Seq<char>>::empty(), Seq::<Seq<char>>::empty())
                } else {
                    let r1 = exp_file(store, idx, visited.insert(idx[l]), idx[l], fuel);
                    (r1.0, r1.1, seq![idx[l]] + r1.2)
                }
            } else {
                (visited, seq![l], Seq::<Seq<char>>::empty())
            }
        }),
{
    let s = seq![l];
    assert(s[0] == l);
    assert(s.drop_first() =~= Seq::<Seq<char>>::empty());
    let r = exp_lines(store, idx, visited, s, fuel);
    if !line_consumed(l) && idx.contains_key(l) && !visited.contains(idx[l]) {
        let r1 = exp_file(store, idx, visited.insert(idx[l]), idx[l], fuel);
        let r2 = exp_lines(store, idx, r1.0, s.drop_first(), fuel);
        assert(r1.1 + r2.1 =~= r1.1);
        assert(seq![idx[l]] + r1.2 + r2.2 =~= seq![idx[l]] + r1.2);
        assert(r.0 == r1.0 && r.1 == r1.1 && r.2 == seq![idx[l]] + r1.2);
        assert(r =~= (r1.0, r1.1, seq![idx[l]] + r1.2));
    } else if !line_consumed(l) && !idx.contains_key(l) {
        let rr = exp_lines(store, idx, visited, s.drop_first(), fuel);
        assert(seq![l] + rr.1 =~= seq![l]);
        assert(rr.2 =~= Seq::<Seq<char>>::empty());
        assert(r =~= (visited, seq![l], Seq::<Seq<char>>::empty()));
    } else {
        let rr = exp_lines(store, idx, visited, s.drop_first(), fuel);
        assert(s.drop_first().len() == 0);
        assert(rr.0 == visited && rr.1 =~= Seq::<Seq<char>>::empty() && rr.2
            =~= Seq::<Seq<char>>::empty());
        assert(r =~= (visited, Seq::<Seq<char>>::empty(), Seq::<Seq<char>>::empty()));
    }
}

/// Law: no target is expanded twice. The trace of an expansion names each
/// canonical path at most once, and never one that was already visited, so
/// each file's content stands in the rendered output at most once however
/// many directive lines resolve to it.
pub proof fn lemma_expansion_dedup(
    store: Map<Seq<char>, Seq<Seq<char>>>,
    idx: Map<Seq<char>, Seq<char>>,
    visited: Set<Seq<char>>,
    path: Seq<char>,
    fuel: nat,
)
    requires
        store.dom().finite(),
        visited.finite(),
        visited.subset_of(store.dom()),
        idx_covered(store, idx),
    ensures
        exp_file(store, idx, visited, path, fuel).2.no_duplicates(),
        forall|t: int|
            0 <= t < exp_file(store, idx, visited, path, fuel).2.len() ==> !visited.contains(
                #[trigger] exp_file(store, idx, visited, path, fuel).2[t],
            ),
{
    lemma_exp_file_frame(store, idx, visited, path, fuel);
}

pub proof fn lemma_exp_lines_visits(
    store: Map<Seq<char>, Seq<Seq<char>>>,
    idx: Map<Seq<char>, Seq<char>>,
    visited: Set<Seq<char>>,
    lines: Seq<Seq<char>>,
    fuel: nat,
    k: int,
)
    requires
        store.dom().finite(),
        visited.finite(),
        visited.subset_of(store.dom()),
        idx_covered(store, idx),
        0 <= k < lines.len(),
        !line_consumed(lines[k]),
        idx.contains_key(lines[k]),
    ensures
        exp_lines(store, idx, visited, lines, fuel).0.contains(idx[lines[k]]),
    decreases lines.len(),
{
    let l = lines[0];
    let rest = lines.drop_first();
    let t = idx[lines[k]];
    if k == 0 {
        if visited.contains(t) {
            lemma_exp_lines_frame(store, idx, visited, rest, fuel);
        } else {
            let v1 = visited.insert(t);
            lemma_exp_file_frame(store, idx, v1, t, fuel);
            let r1 = exp_file(store, idx, v1, t, fuel);
            lemma_exp_lines_frame(store, idx, r1.0, rest, fuel);
        }
    } else {
        assert(rest[k - 1] == lines[k]);
        if line_consumed(l) {
            lemma_exp_lines_visits(store, idx, visited, rest, fuel, k - 1);
        } else if idx.contains_key(l) {
            let t0 = idx[l];
            if visited.contains(t0) {
                lemma_exp_lines_visits(store, idx, visited, rest, fuel, k - 1);
            } else {
                let v1 = visited.insert(t0);
                lemma_exp_file_frame(store, idx, v1, t0, fuel);
                let r1 = exp_file(store, idx, v1, t0, fuel);
                lemma_exp_lines_visits(store, idx, r1.0, rest, fuel, k - 1);
            }
        } else {
            lemma_exp_lines_visits(store, idx, visited, rest, fuel, k - 1);
        }
    }
}

/// Law: a resolvable directive is not lost. If a line of the rendered
/// file is not dropped by the filter, resolves through the index, and its
/// target was not visited when the rendering began, then the target
/// stands in this rendering's trace — and, by the dedup law, exactly
/// once, at its first encounter in depth-first order.
pub proof fn lemma_exp_file_expands(
    store: Map<Seq<char>, Seq<Seq<char>>>,
    idx: Map<Seq<char>, Seq<char>>,
    visited: Set<Seq<char>>,
    path: Seq<char>,
    fuel: nat,
    k: int,
)
    requires
        store.dom().finite(),
        visited.finite(),
        visited.subset_of(store.dom()),
        idx_covered(store, idx),
        fuel >= 1,
        0 <= k < store[path].len(),
        !line_consumed(store[path][k]),
        idx.contains_key(store[path][k]),
        !visited.contains(idx[store[path][k]]),
    ensures
        exp_file(store, idx, visited, path, fuel).2.contains(idx[store[path][k]]),
{
    let t = idx[store[path][k]];
    lemma_exp_lines_visits(store, idx, visited, store[path], (fuel - 1) as nat, k);
    lemma_exp_file_frame(store, idx, visited, path, fuel);
    let r = exp_file(store, idx, visited, path, fuel);
    assert(r.0.contains(t));
}

/// Law: a line that is neither dropped by the filter nor resolved by the
/// index — in particular a bracketed directive whose target is in no
/// search root — stands unchanged, as a line of its own, in the rendering
/// of any file that carries it.
pub proof fn lemma_exp_file_passthrough(
    store: Map<Seq<char>, Seq<Seq<char>>>,
    idx: Map<Seq<char>, Seq<char>>,
    visited: Set<Seq<char>>,
    path: Seq<char>,
    fuel: nat,
    k: int,
)
    requires
        fuel >= 1,
        0 <= k < store[path].len(),
        !line_consumed(store[path][k]),
        !idx.contains_key(store[path][k]),
    ensures
        exp_file(store, idx, visited, path, fuel).1.contains(store[path][k]),
{
    lemma_exp_lines_passthrough(store, idx, visited, store[path], (fuel - 1) as nat, k);
}

pub proof fn lemma_exp_lines_passthrough(
    store: Map<Seq<char>, Seq<Seq<char>>>,
    idx: Map<Seq<char>, Seq<char>>,
    visited: Set<Seq<char>>,
    lines: Seq<Seq<char>>,
    fuel: nat,
    k: int,
)
    requires
        0 <= k < lines.len(),
        !line_consumed(lines[k]),
        !idx.contains_key(lines[k]),
    ensures
        exp_lines(store, idx, visited, lines, fuel).1.contains(lines[k]),
    decreases lines.len(),
{
    let l = lines[0];
    let rest = lines.drop_first();
    let r = exp_lines(store, idx, visited, lines, fuel);
    if k == 0 {
        let rr = exp_lines(store, idx, visited, rest, fuel);
        assert(r.1 == seq![l] + rr.1);
        assert(r.1[0] == l);
    } else {
        assert(rest[k - 1] == lines[k]);
        if line_consumed(l) {
            lemma_exp_lines_passthrough(store, idx, visited, rest, fuel, k - 1);
        } else if idx.contains_key(l) {
            let t = idx[l];
            if visited.contains(t) {
                lemma_exp_lines_passthrough(store, idx, visited, rest, fuel, k - 1);
            } else {
                let r1 = exp_file(store, idx, visited.insert(t), t, fuel);
                lemma_exp_lines_passthrough(store, idx, r1.0, rest, fuel, k - 1);
                let r2 = exp_lines(store, idx, r1.0, rest, fuel);
                let w = choose|w: int| 0 <= w < r2.1.len() && r2.1[w] == lines[k];
                assert(r.1[r1.1.len() + w] == lines[k]);
            }
        } else {
            lemma_exp_lines_passthrough(store, idx, visited, rest, fuel, k - 1);
            let r2 = exp_lines(store, idx, visited, rest, fuel);
            let w = choose|w: int| 0 <= w < r2.1.len() && r2.1[w] == lines[k];
            assert(r.1[1 + w] == lines[k]);
        }
    }
}

/// Law: the filter holds everywhere. No comment line and no once-only
/// line stands in the rendered output of any expansion.
pub proof fn lemma_exp_file_filtered(
    store: Map<Seq<char>, Seq<Seq<char>>>,
    idx: Map<Seq<char>, Seq<char>>,
    visited: Set<Seq<char>>,
    path: Seq<char>,
    fuel: nat,
)
    ensures
        forall|i: int|
            0 <= i < exp_file(store, idx, visited, path, fuel).1.len() ==> !line_consumed(
                #[trigger] exp_file(store, idx, visited, path, fuel).1[i],
            ),
    decreases fuel, 0nat, 0nat,
{
    let r = exp_file(store, idx, visited, path, fuel);
    if fuel == 0 {
    } else {
        lemma_exp_lines_filtered(store, idx, visited, store[path], (fuel - 1) as nat);
        assert(r == exp_lines(store, idx, visited, store[path], (fuel - 1) as nat));
    }
}

pub proof fn lemma_exp_lines_filtered(
    store: Map<Seq<char>, Seq<Seq<char>>>,
    idx: Map<Seq<char>, Seq<char>>,
    visited: Set<Seq<char>>,
    lines: Seq<Seq<char>>,
    fuel: nat,
)
    ensures
        forall|i: int|
            0 <= i < exp_lines(store, idx, visited, lines, fuel).1.len() ==> !line_consumed(
                #[trigger] exp_lines(store, idx, visited, lines, fuel).1[i],
            ),
    decreases fuel, lines.len(), 1nat,
{
    if lines.len() == 0 {
    } else {
        let l = lines[0];
        let rest = lines.drop_first();
        let r = exp_lines(store, idx, visited, lines, fuel);
        if line_consumed(l) {
            lemma_exp_lines_filtered(store, idx, visited, rest, fuel);
            let r2 = exp_lines(store, idx, visited, rest, fuel);
            assert forall|i: int| 0 <= i < r.1.len() implies !line_consumed(#[trigger] r.1[i]) by {
                assert(r.1[i] == r2.1[i]);
            }
        } else if idx.contains_key(l) {
            let t = idx[l];
            if visited.contains(t) {
                lemma_exp_lines_filtered(store, idx, visited, rest, fuel);
                let r2 = exp_lines(store, idx, visited, rest, fuel);
                assert forall|i: int| 0 <= i < r.1.len() implies !line_consumed(
                    #[trigger] r.1[i],
                ) by {
                    assert(r.1[i] == r2.1[i]);
                }
            } else {
                lemma_exp_file_filtered(store, idx, visited.insert(t), t, fuel);
                let r1 = exp_file(store, idx, visited.insert(t), t, fuel);
                lemma_exp_lines_filtered(store, idx, r1.0, rest, fuel);
                let r2 = exp_lines(store, idx, r1.0, rest, fuel);
                assert forall|i: int| 0 <= i < r.1.len() implies !line_consumed(
                    #[trigger] r.1[i],
                ) by {
                    if i < r1.1.len() {
                        assert(r.1[i] == r1.1[i]);
                    } else {
                        assert(r.1[i] == r2.1[i - r1.1.len()]);
                    }
                }
            }
        } else {
            lemma_exp_lines_filtered(store, idx, visited, rest, fuel);
            let r2 = exp_lines(store, idx, visited, rest, fuel);
            assert forall|i: int| 0 <= i < r.1.len() implies !line_consumed(#[trigger] r.1[i]) by {
                if i > 0 {
                    assert(r.1[i] == r2.1[i - 1]);
                }
            }
        }
    }
}

/// Renders `path` into `result`, dropping comment and once-only lines,
/// splicing each resolvable directive in place, and skipping targets
/// already visited. Takes the visited set and hands it back grown by the
/// targets this call expanded.
#[verifier::loop_isolation(false)]
pub fn expand(
    store: &StrMap<Vec<String>>,
    idx: &StrMap<String>,
    visited: PathSet,
    result: &mut Vec<String>,
    path: &String,
) -> (v: PathSet)
    requires
        store.wf(),
        idx.wf(),
        visited.wf(),
        idx_covered(store@, idx@),
        store@.contains_key(path@),
        visited@.subset_of(store@.dom()),
    ensures
        v.wf(),
        v@.subset_of(store@.dom()),
        ({
            let r = spec_expand(store@, idx@, visited@, path@);
            &&& v@ == r.0
            &&& final(result).deep_view() == old(result).deep_view() + r.1
        }),
    decreases store@.dom().len() - visited@.len(),
{
    let mut visited = visited;
    proof {
        lemma_key_set(visited.items.deep_view());
        store.lemma_view_shape();
        lemma_len_subset(visited@, store@.dom());
    }
    let ghost v0 = visited@;
    let ghost out0 = result.deep_view();
    if let Some(lines) = store.get(path) {
        let ghost full = lines.deep_view();
        let ghost fl = (file_fuel(store@, v0) - 1) as nat;
        proof {
            assert(file_fuel(store@, v0) >= 1);
            assert(full == store@[path@]);
            assert(full.take(0) =~= Seq::<Seq<char>>::empty());
        }
        let n = lines.len();
        let mut i: usize = 0;
        while i < n
            invariant
                store.wf(),
                idx.wf(),
                visited.wf(),
                idx_covered(store@, idx@),
                i <= n,
                n == lines@.len(),
                lines.deep_view() == full,
                full.len() == n,
                full == store@[path@],
                store@.dom().finite(),
                v0.finite(),
                visited@.finite(),
                v0.subset_of(visited@),
                visited@.subset_of(store@.dom()),
                fl == file_fuel(store@, v0) - 1,
                exp_lines(store@, idx@, v0, full.take(i as int), fl).0 == visited@,
                result.deep_view() == out0 + exp_lines(store@, idx@, v0, full.take(i as int), fl).1,
            decreases n - i,
        {
            let line = &lines[i];
            let ghost v_now = visited@;
            let ghost pre = exp_lines(store@, idx@, v0, full.take(i as int), fl);
            proof {
                assert(full[i as int] == lines@[i as int]@);
                assert(full.take(i + 1) =~= full.take(i as int) + seq![full[i as int]]);
                lemma_exp_lines_concat(
                    store@,
                    idx@,
                    v0,
                    full.take(i as int),
                    seq![full[i as int]],
                    fl,
                );
                lemma_exp_lines_one(store@, idx@, v_now, full[i as int], fl);
            }
            if is_comment(line.as_str()) || is_pragma_once(line.as_str()) {
                proof {
                    assert(exp_lines(store@, idx@, v0, full.take(i + 1), fl).1 =~= pre.1
                        + Seq::<Seq<char>>::empty());
                    assert(pre.1 + Seq::<Seq<char>>::empty() =~= pre.1);
                }
            } else {
                match idx.get(line) {
                    Some(tref) => {
                        let t = tref.clone();
                        proof {
                            assert(t@ == idx@[line@]);
                            assert(store@.contains_key(t@));
                        }
                        if !visited.contains(&t) {
                            proof {
                                lemma_len_subset(v0, visited@);
                            }
                            visited.insert(t.clone());
                            let ghost v_call = visited@;
                            proof {
                                lemma_len_subset(visited@, store@.dom());
                            }
                            visited = expand(store, idx, visited, result, &t);
                            proof {
                                lemma_exp_file_fuel(
                                    store@,
                                    idx@,
                                    v_call,
                                    t@,
                                    fl,
                                    file_fuel(store@, v_call),
                                );
                                let r1 = exp_file(store@, idx@, v_call, t@, fl);
                                lemma_exp_file_frame(store@, idx@, v_call, t@, fl);
                                assert(exp_lines(store@, idx@, v0, full.take(i + 1), fl).0
                                    == r1.0);
                                assert(result.deep_view() =~= out0 + (pre.1 + r1.1));
                            }
                        } else {
                            proof {
                                assert(exp_lines(store@, idx@, v0, full.take(i + 1), fl).1
                                    =~= pre.1 + Seq::<Seq<char>>::empty());
                                assert(pre.1 + Seq::<Seq<char>>::empty() =~= pre.1);
                            }
                        }
                    },
                    None => {
                        result.push(line.clone());
                        proof {
                            assert(result.deep_view() =~= (out0 + pre.1).push(full[i as int]));
                            assert((out0 + pre.1).push(full[i as int]) =~= out0 + (pre.1 + seq![
                                full[i as int],
                            ]));
                        }
                    },
                }
            }
            i += 1;
        }
        proof {
            assert(full.take(n as int) =~= full);
        }
        visited
    } else {
        proof {
            assert(false);
        }
        visited
    }
}

} // verus!
