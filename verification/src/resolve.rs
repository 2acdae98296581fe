//! The resolver: turns the directive lines of the catalogued files into the
//! resolved-directive index, mapping each raw line that resolves to the
//! canonical absolute path of its target.
//!
//! A quoted target is resolved against the directory of the file it stands
//! in; the caller canonicalizes the combined path and hands the outcome in
//! through the `answers` map (query string to canonical path). A bracketed
//! target is looked up in the header catalog; one that is absent there is
//! left out of the index on purpose, so the engine passes the line through.

use vstd::prelude::*;

use crate::catalog::HeaderMeta;
use crate::strmap::StrMap;
use crate::text::DirectiveSpec;
use crate::text::LineParse;
use crate::text::parse_directive;
use crate::text::spec_parse_directive;

verus! {

/// Spec-level mirror of the fatal conditions.
pub enum ErrSpec {
    /// A directive line whose target is neither quoted nor bracketed.
    MalformedDirective(Seq<char>),
    /// A quoted target whose combined path has no canonical answer.
    UnresolvedQuoted(Seq<char>),
    /// A path whose content is not in the file store.
    MissingFile(Seq<char>),
}

/// A fatal condition: the run aborts with a diagnostic naming the text.
#[derive(Debug, PartialEq, Eq, Clone)]
pub enum AmalgamError {
    MalformedDirective(String),
    UnresolvedQuoted(String),
    MissingFile(String),
}

impl View for AmalgamError {
    type V = ErrSpec;

    open spec fn view(&self) -> ErrSpec {
        match self {
            AmalgamError::MalformedDirective(l) => ErrSpec::MalformedDirective(l@),
            AmalgamError::UnresolvedQuoted(q) => ErrSpec::UnresolvedQuoted(q@),
            AmalgamError::MissingFile(p) => ErrSpec::MissingFile(p@),
        }
    }
}

/// The path a quoted target is canonicalized from: the canonical root, the
/// directory of the carrying file below that root, and the target.
pub open spec fn spec_quoted_query(prefix: Seq<char>, parent: Seq<char>, target: Seq<char>) -> Seq<
    char,
> {
    prefix + "/"@ + parent + "/"@ + target
}

pub fn make_quoted_query(prefix: &String, parent: &String, target: &String) -> (q: String)
    ensures
        q@ == spec_quoted_query(prefix@, parent@, target@),
{
    let mut q = prefix.clone();
    q.append("/");
    q.append(parent.as_str());
    q.append("/");
    q.append(target.as_str());
    q
}

/// What one line contributes to the index: the grown accumulator, or the
/// fatal condition that stops the run.
pub open spec fn spec_fill_line(
    l: Seq<char>,
    prefix: Seq<char>,
    parent: Seq<char>,
    cat: Map<Seq<char>, Seq<char>>,
    answers: Map<Seq<char>, Seq<char>>,
    acc: Map<Seq<char>, Seq<char>>,
) -> (Map<Seq<char>, Seq<char>>, Option<ErrSpec>) {
    match spec_parse_directive(l) {
        DirectiveSpec::NotDirective => (acc, None),
        DirectiveSpec::Malformed => (acc, Some(ErrSpec::MalformedDirective(l))),
        DirectiveSpec::Quoted(t) => {
            let q = spec_quoted_query(prefix, parent, t);
            if answers.contains_key(q) {
                (acc.insert(l, answers[q]), None)
            } else {
                (acc, Some(ErrSpec::UnresolvedQuoted(q)))
            }
        },
        DirectiveSpec::Bracketed(t) => {
            if cat.contains_key(t) {
                (acc.insert(l, cat[t]), None)
            } else {
                (acc, None)
            }
        },
    }
}

/// Folds `spec_fill_line` over a run of lines, stopping at the first
/// fatal condition.
pub open spec fn spec_fill_lines(
    lines: Seq<Seq<char>>,
    prefix: Seq<char>,
    parent: Seq<char>,
    cat: Map<Seq<char>, Seq<char>>,
    answers: Map<Seq<char>, Seq<char>>,
    acc: Map<Seq<char>, Seq<char>>,
) -> (Map<Seq<char>, Seq<char>>, Option<ErrSpec>)
    decreases lines.len(),
{
    if lines.len() == 0 {
        (acc, None)
    } else {
        let r0 = spec_fill_line(lines[0], prefix, parent, cat, answers, acc);
        if r0.1 is Some {
            r0
        } else {
            spec_fill_lines(lines.drop_first(), prefix, parent, cat, answers, r0.0)
        }
    }
}

/// Folds the fill over every catalogued file, in discovery order.
pub open spec fn spec_fill_all(
    hs: Seq<HeaderMeta>,
    store: Map<Seq<char>, Seq<Seq<char>>>,
    cat: Map<Seq<char>, Seq<char>>,
    answers: Map<Seq<char>, Seq<char>>,
    acc: Map<Seq<char>, Seq<char>>,
) -> (Map<Seq<char>, Seq<char>>, Option<ErrSpec>)
    decreases hs.len(),
{
    if hs.len() == 0 {
        (acc, None)
    } else {
        let h = hs[0];
        if !store.contains_key(h.abs_path@) {
            (acc, Some(ErrSpec::MissingFile(h.abs_path@)))
        } else {
            let r0 = spec_fill_lines(
                store[h.abs_path@],
                h.root_prefix@,
                h.parent_dir@,
                cat,
                answers,
                acc,
            );
            if r0.1 is Some {
                r0
            } else {
                spec_fill_all(hs.drop_first(), store, cat, answers, r0.0)
            }
        }
    }
}

fn fill_lines_from(
    index: &mut StrMap<String>,
    lines: &Vec<String>,
    i: usize,
    prefix: &String,
    parent: &String,
    cat: &StrMap<String>,
    answers: &StrMap<String>,
) -> (r: Result<(), AmalgamError>)
    requires
        old(index).wf(),
        cat.wf(),
        answers.wf(),
        i <= lines@.len(),
    ensures
        final(index).wf(),
        ({
            let sp = spec_fill_lines(
                lines.deep_view().skip(i as int),
                prefix@,
                parent@,
                cat@,
                answers@,
                old(index)@,
            );
            &&& final(index)@ == sp.0
            &&& match r {
                Ok(()) => sp.1 is None,
                Err(e) => sp.1 == Some(e@),
            }
        }),
    decreases lines@.len() - i,
{
    if i == lines.len() {
        proof {
            assert(lines.deep_view().skip(i as int) =~= Seq::<Seq<char>>::empty());
        }
        return Ok(());
    }
    let line = &lines[i];
    proof {
        let sk = lines.deep_view().skip(i as int);
        assert(sk[0] == lines.deep_view()[i as int]);
        assert(sk.drop_first() =~= lines.deep_view().skip(i + 1));
        assert(lines.deep_view()[i as int] == lines@[i as int]@);
    }
    match parse_directive(line.as_str()) {
        LineParse::NotDirective => fill_lines_from(index, lines, i + 1, prefix, parent, cat, answers),
        LineParse::Malformed => Err(AmalgamError::MalformedDirective(line.clone())),
        LineParse::Quoted(t) => {
            let q = make_quoted_query(prefix, parent, &t);
            match answers.get(&q) {
                Some(p) => {
                    let target = p.clone();
                    index.insert(line.clone(), target);
                    fill_lines_from(index, lines, i + 1, prefix, parent, cat, answers)
                },
                None => Err(AmalgamError::UnresolvedQuoted(q)),
            }
        },
        LineParse::Bracketed(t) => {
            match cat.get(&t) {
                Some(p) => {
                    let target = p.clone();
                    index.insert(line.clone(), target);
                    fill_lines_from(index, lines, i + 1, prefix, parent, cat, answers)
                },
                None => fill_lines_from(index, lines, i + 1, prefix, parent, cat, answers),
            }
        },
    }
}

/// Grows the resolved-directive index with every directive line of one
/// file that resolves; stops with the fatal condition otherwise.
pub fn fill_dependencies(
    index: &mut StrMap<String>,
    lines: &Vec<String>,
    root_prefix: &String,
    parent_dir: &String,
    cat: &StrMap<String>,
    answers: &StrMap<String>,
) -> (r: Result<(), AmalgamError>)
    requires
        old(index).wf(),
        cat.wf(),
        answers.wf(),
    ensures
        final(index).wf(),
        ({
            let sp = spec_fill_lines(
                lines.deep_view(),
                root_prefix@,
                parent_dir@,
                cat@,
                answers@,
                old(index)@,
            );
            &&& final(index)@ == sp.0
            &&& match r {
                Ok(()) => sp.1 is None,
                Err(e) => sp.1 == Some(e@),
            }
        }),
{
    proof {
        assert(lines.deep_view().skip(0) =~= lines.deep_view());
    }
    fill_lines_from(index, lines, 0, root_prefix, parent_dir, cat, answers)
}

/// Runs the fill over every catalogued file, front to back.
pub fn fill_all_dependencies(
    index: &mut StrMap<String>,
    headers: &Vec<HeaderMeta>,
    store: &StrMap<Vec<String>>,
    cat: &StrMap<String>,
    answers: &StrMap<String>,
) -> (r: Result<(), AmalgamError>)
    requires
        old(index).wf(),
        store.wf(),
        cat.wf(),
        answers.wf(),
    ensures
        final(index).wf(),
        ({
            let sp = spec_fill_all(headers@, store@, cat@, answers@, old(index)@);
            &&& final(index)@ == sp.0
            &&& match r {
                Ok(()) => sp.1 is None,
                Err(e) => sp.1 == Some(e@),
            }
        }),
{
    proof {
        assert(headers@.skip(0) =~= headers@);
    }
    fill_all_from(index, headers, 0, store, cat, answers)
}

fn fill_all_from(
    index: &mut StrMap<String>,
    headers: &Vec<HeaderMeta>,
    i: usize,
    store: &StrMap<Vec<String>>,
    cat: &StrMap<String>,
    answers: &StrMap<String>,
) -> (r: Result<(), AmalgamError>)
    requires
        old(index).wf(),
        store.wf(),
        cat.wf(),
        answers.wf(),
        i <= headers@.len(),
    ensures
        final(index).wf(),
        ({
            let sp = spec_fill_all(headers@.skip(i as int), store@, cat@, answers@, old(index)@);
            &&& final(index)@ == sp.0
            &&& match r {
                Ok(()) => sp.1 is None,
                Err(e) => sp.1 == Some(e@),
            }
        }),
    decreases headers@.len() - i,
{
    if i == headers.len() {
        proof {
            assert(headers@.skip(i as int) =~= Seq::<HeaderMeta>::empty());
        }
        return Ok(());
    }
    let h = &headers[i];
    proof {
        let sk = headers@.skip(i as int);
        assert(sk[0] == headers@[i as int]);
        assert(sk.drop_first() =~= headers@.skip(i + 1));
    }
    match store.get(&h.abs_path) {
        None => Err(AmalgamError::MissingFile(h.abs_path.clone())),
        Some(lines) => {
            match fill_dependencies(index, lines, &h.root_prefix, &h.parent_dir, cat, answers) {
                Err(e) => Err(e),
                Ok(()) => fill_all_from(index, headers, i + 1, store, cat, answers),
            }
        },
    }
}

/// The quoted queries one run of lines raises, in order, or the fatal
/// condition that stops the run.
pub open spec fn spec_collect_lines(
    lines: Seq<Seq<char>>,
    prefix: Seq<char>,
    parent: Seq<char>,
    acc: Seq<Seq<char>>,
) -> (Seq<Seq<char>>, Option<ErrSpec>)
    decreases lines.len(),
{
    if lines.len() == 0 {
        (acc, None)
    } else {
        match spec_parse_directive(lines[0]) {
            DirectiveSpec::Malformed => (acc, Some(ErrSpec::MalformedDirective(lines[0]))),
            DirectiveSpec::Quoted(t) => spec_collect_lines(
                lines.drop_first(),
                prefix,
                parent,
                acc.push(spec_quoted_query(prefix, parent, t)),
            ),
            _ => spec_collect_lines(lines.drop_first(), prefix, parent, acc),
        }
    }
}

/// The quoted queries all catalogued files raise, in discovery order.
pub open spec fn spec_collect_all(
    hs: Seq<HeaderMeta>,
    store: Map<Seq<char>, Seq<Seq<char>>>,
    acc: Seq<Seq<char>>,
) -> (Seq<Seq<char>>, Option<ErrSpec>)
    decreases hs.len(),
{
    if hs.len() == 0 {
        (acc, None)
    } else {
        let h = hs[0];
        if !store.contains_key(h.abs_path@) {
            (acc, Some(ErrSpec::MissingFile(h.abs_path@)))
        } else {
            let r0 = spec_collect_lines(store[h.abs_path@], h.root_prefix@, h.parent_dir@, acc);
            if r0.1 is Some {
                r0
            } else {
                spec_collect_all(hs.drop_first(), store, r0.0)
            }
        }
    }
}

/// A bracketed directive whose target the catalog does not hold never
/// enters the index, whichever file carries it.
pub proof fn lemma_fill_lines_excludes(
    l: Seq<char>,
    t: Seq<char>,
    lines: Seq<Seq<char>>,
    prefix: Seq<char>,
    parent: Seq<char>,
    cat: Map<Seq<char>, Seq<char>>,
    answers: Map<Seq<char>, Seq<char>>,
    acc: Map<Seq<char>, Seq<char>>,
)
    requires
        spec_parse_directive(l) == DirectiveSpec::Bracketed(t),
        !cat.contains_key(t),
        !acc.contains_key(l),
    ensures
        !spec_fill_lines(lines, prefix, parent, cat, answers, acc).0.contains_key(l),
    decreases lines.len(),
{
    if lines.len() > 0 {
        let r0 = spec_fill_line(lines[0], prefix, parent, cat, answers, acc);
        assert(!r0.0.contains_key(l));
        if !(r0.1 is Some) {
            lemma_fill_lines_excludes(
                l,
                t,
                lines.drop_first(),
                prefix,
                parent,
                cat,
                answers,
                r0.0,
            );
        }
    }
}

/// The same, over every catalogued file.
pub proof fn lemma_fill_all_excludes(
    l: Seq<char>,
    t: Seq<char>,
    hs: Seq<HeaderMeta>,
    store: Map<Seq<char>, Seq<Seq<char>>>,
    cat: Map<Seq<char>, Seq<char>>,
    answers: Map<Seq<char>, Seq<char>>,
    acc: Map<Seq<char>, Seq<char>>,
)
    requires
        spec_parse_directive(l) == DirectiveSpec::Bracketed(t),
        !cat.contains_key(t),
        !acc.contains_key(l),
    ensures
        !spec_fill_all(hs, store, cat, answers, acc).0.contains_key(l),
    decreases hs.len(),
{
    if hs.len() > 0 {
        let h = hs[0];
        if store.contains_key(h.abs_path@) {
            lemma_fill_lines_excludes(
                l,
                t,
                store[h.abs_path@],
                h.root_prefix@,
                h.parent_dir@,
                cat,
                answers,
                acc,
            );
            let r0 = spec_fill_lines(
                store[h.abs_path@],
                h.root_prefix@,
                h.parent_dir@,
                cat,
                answers,
                acc,
            );
            if !(r0.1 is Some) {
                lemma_fill_all_excludes(l, t, hs.drop_first(), store, cat, answers, r0.0);
            }
        }
    }
}

fn collect_lines_from(
    qs: &mut Vec<String>,
    lines: &Vec<String>,
    i: usize,
    prefix: &String,
    parent: &String,
) -> (r: Result<(), AmalgamError>)
    requires
        i <= lines@.len(),
    ensures
        ({
            let sp = spec_collect_lines(
                lines.deep_view().skip(i as int),
                prefix@,
                parent@,
                old(qs).deep_view(),
            );
            &&& final(qs).deep_view() == sp.0
            &&& match r {
                Ok(()) => sp.1 is None,
                Err(e) => sp.1 == Some(e@),
            }
        }),
    decreases lines@.len() - i,
{
    if i == lines.len() {
        proof {
            assert(lines.deep_view().skip(i as int) =~= Seq::<Seq<char>>::empty());
        }
        return Ok(());
    }
    let line = &lines[i];
    proof {
        let sk = lines.deep_view().skip(i as int);
        assert(sk[0] == lines.deep_view()[i as int]);
        assert(sk.drop_first() =~= lines.deep_view().skip(i + 1));
        assert(lines.deep_view()[i as int] == lines@[i as int]@);
    }
    match parse_directive(line.as_str()) {
        LineParse::Malformed => Err(AmalgamError::MalformedDirective(line.clone())),
        LineParse::Quoted(t) => {
            let q = make_quoted_query(prefix, parent, &t);
            qs.push(q);
            proof {
                assert(qs.deep_view() =~= old(qs).deep_view().push(
                    spec_quoted_query(prefix@, parent@, t@),
                ));
            }
            collect_lines_from(qs, lines, i + 1, prefix, parent)
        },
        LineParse::Bracketed(_) => collect_lines_from(qs, lines, i + 1, prefix, parent),
        LineParse::NotDirective => collect_lines_from(qs, lines, i + 1, prefix, parent),
    }
}

fn collect_all_from(
    qs: &mut Vec<String>,
    headers: &Vec<HeaderMeta>,
    i: usize,
    store: &StrMap<Vec<String>>,
) -> (r: Result<(), AmalgamError>)
    requires
        store.wf(),
        i <= headers@.len(),
    ensures
        ({
            let sp = spec_collect_all(headers@.skip(i as int), store@, old(qs).deep_view());
            &&& final(qs).deep_view() == sp.0
            &&& match r {
                Ok(()) => sp.1 is None,
                Err(e) => sp.1 == Some(e@),
            }
        }),
    decreases headers@.len() - i,
{
    if i == headers.len() {
        proof {
            assert(headers@.skip(i as int) =~= Seq::<HeaderMeta>::empty());
        }
        return Ok(());
    }
    let h = &headers[i];
    proof {
        let sk = headers@.skip(i as int);
        assert(sk[0] == headers@[i as int]);
        assert(sk.drop_first() =~= headers@.skip(i + 1));
    }
    match store.get(&h.abs_path) {
        None => Err(AmalgamError::MissingFile(h.abs_path.clone())),
        Some(lines) => {
            match collect_lines_from(qs, lines, 0, &h.root_prefix, &h.parent_dir) {
                Err(e) => {
                    proof {
                        assert(lines.deep_view().skip(0) =~= lines.deep_view());
                    }
                    Err(e)
                },
                Ok(()) => {
                    proof {
                        assert(lines.deep_view().skip(0) =~= lines.deep_view());
                    }
                    collect_all_from(qs, headers, i + 1, store)
                },
            }
        },
    }
}

/// Gathers the quoted-target queries of every catalogued file, in order,
/// for the caller to canonicalize; stops with the fatal condition a
/// malformed directive or a missing file raises.
pub fn collect_quoted_queries(headers: &Vec<HeaderMeta>, store: &StrMap<Vec<String>>) -> (r: Result<
    Vec<String>,
    AmalgamError,
>)
    requires
        store.wf(),
    ensures
        ({
            let sp = spec_collect_all(headers@, store@, Seq::empty());
            match r {
                Ok(qs) => sp.1 is None && qs.deep_view() == sp.0,
                Err(e) => sp.1 == Some(e@),
            }
        }),
{
    let mut qs: Vec<String> = Vec::new();
    proof {
        assert(headers@.skip(0) =~= headers@);
        assert(qs.deep_view() =~= Seq::<Seq<char>>::empty());
    }
    match collect_all_from(&mut qs, headers, 0, store) {
        Ok(()) => Ok(qs),
        Err(e) => Err(e),
    }
}

} // verus!
