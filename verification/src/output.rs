//! Output composition: a short banner naming the tool, one once-only
//! directive, then the rendered body of the entry file, whose own canonical
//! path is pre-visited so that a directive chain leading back to the entry
//! file cannot recurse into it.

use vstd::prelude::*;
use vstd::set_lib::lemma_len_subset;

use crate::catalog::HeaderMeta;
use crate::catalog::build_catalog;
use crate::catalog::spec_catalog;
use crate::expand::expand;
use crate::expand::file_fuel;
use crate::expand::idx_covered;
use crate::expand::lemma_exp_file_passthrough;
use crate::expand::spec_expand;
use crate::resolve::AmalgamError;
use crate::resolve::ErrSpec;
use crate::resolve::fill_all_dependencies;
use crate::resolve::lemma_fill_all_excludes;
use crate::resolve::spec_fill_all;
use crate::strmap::PathSet;
use crate::strmap::StrMap;
use crate::text::DirectiveSpec;
use crate::text::lemma_directive_not_consumed;
use crate::text::spec_parse_directive;

verus! {

/// The fixed lines every amalgamated header starts with.
pub open spec fn spec_banner() -> Seq<char> {
    "// generated with `unosolo`\n// https://github.com/SuperV1234/unosolo\n#pragma once\n\n"@
}

/// The rendered lines as one text, a line terminator after each line.
pub open spec fn spec_join(lines: Seq<Seq<char>>) -> Seq<char>
    decreases lines.len(),
{
    if lines.len() == 0 {
        Seq::empty()
    } else {
        spec_join(lines.drop_last()) + lines.last() + seq!['\n']
    }
}

pub fn join_lines(lines: &Vec<String>) -> (r: String)
    ensures
        r@ == spec_join(lines.deep_view()),
{
    let mut r = String::new();
    let n = lines.len();
    let mut i: usize = 0;
    while i < n
        invariant
            i <= n,
            n == lines@.len(),
            r@ == spec_join(lines.deep_view().take(i as int)),
        decreases n - i,
    {
        r.append(lines[i].as_str());
        r.append("\n");
        proof {
            reveal_strlit("\n");
            assert("\n"@ =~= seq!['\n']);
            assert(lines.deep_view().take(i + 1).drop_last() =~= lines.deep_view().take(i as int));
            assert(lines.deep_view().take(i + 1).last() == lines.deep_view()[i as int]);
        }
        i += 1;
    }
    proof {
        assert(lines.deep_view().take(n as int) =~= lines.deep_view());
    }
    r
}

/// The complete output for one entry file: the banner, then the rendered
/// body, the entry path pre-visited.
pub open spec fn spec_final_result(
    store: Map<Seq<char>, Seq<Seq<char>>>,
    idx: Map<Seq<char>, Seq<char>>,
    top: Seq<char>,
) -> Seq<char> {
    spec_banner() + spec_join(spec_expand(store, idx, Set::empty().insert(top), top).1)
}

/// Renders the final header text for the entry file.
pub fn produce_final_result(
    top_include_path: &String,
    store: &StrMap<Vec<String>>,
    index: &StrMap<String>,
) -> (r: String)
    requires
        store.wf(),
        index.wf(),
        idx_covered(store@, index@),
        store@.contains_key(top_include_path@),
    ensures
        r@ == spec_final_result(store@, index@, top_include_path@),
{
    let mut visited = PathSet::new();
    visited.insert(top_include_path.clone());
    let mut body: Vec<String> = Vec::new();
    let ghost seeded = Set::empty().insert(top_include_path@);
    proof {
        assert(visited@ == seeded);
        assert(seeded.subset_of(store@.dom()));
        assert(body.deep_view() =~= Seq::<Seq<char>>::empty());
    }
    let _visited = expand(store, index, visited, &mut body, top_include_path);
    proof {
        let rendered = spec_expand(store@, index@, seeded, top_include_path@).1;
        assert(Seq::<Seq<char>>::empty() + rendered =~= rendered);
    }
    let joined = join_lines(&body);
    let mut r = String::from_str(
        "// generated with `unosolo`\n// https://github.com/SuperV1234/unosolo\n#pragma once\n\n",
    );
    r.append(joined.as_str());
    r
}

/// The first resolved target whose content the store lacks, if any.
fn missing_target(index: &StrMap<String>, store: &StrMap<Vec<String>>) -> (r: Option<String>)
    requires
        index.wf(),
        store.wf(),
    ensures
        match r {
            None => idx_covered(store@, index@),
            Some(p) => !store@.contains_key(p@) && exists|l: Seq<char>| #[trigger]
                index@.contains_key(l) && index@[l] == p@,
        },
{
    proof {
        index.lemma_view_shape();
    }
    let n = index.vals.len();
    let mut i: usize = 0;
    while i < n
        invariant
            index.wf(),
            store.wf(),
            i <= n,
            n == index.vals@.len(),
            forall|j: int| 0 <= j < i ==> store@.contains_key(#[trigger] index.vals.deep_view()[j]),
        decreases n - i,
    {
        if !store.contains_key(&index.vals[i]) {
            proof {
                index.lemma_view_shape();
                assert(index@.contains_key(index.keys.deep_view()[i as int]));
                assert(index@[index.keys.deep_view()[i as int]] == index.vals.deep_view()[
                    i as int]);
            }
            return Some(index.vals[i].clone());
        }
        i += 1;
    }
    proof {
        index.lemma_view_shape();
        assert forall|l: Seq<char>| #[trigger] index@.contains_key(l) implies store@.contains_key(
            index@[l],
        ) by {
            let j = choose|j: int|
                0 <= j < index.keys@.len() && index.keys.deep_view()[j] == l;
            assert(store@.contains_key(index.vals.deep_view()[j]));
        }
    }
    None
}

/// Runs the whole pipeline over plain inputs: builds the catalog (first
/// root wins), fills the resolved-directive index over every catalogued
/// file, checks that the entry file and every resolved target have content
/// in the store, and renders the final header. Each fatal condition of the
/// run comes back as the error naming the offending text.
pub fn produce_final_result_from_opt(
    headers: &Vec<HeaderMeta>,
    store: &StrMap<Vec<String>>,
    answers: &StrMap<String>,
    top_include_path: &String,
) -> (r: Result<String, AmalgamError>)
    requires
        store.wf(),
        answers.wf(),
    ensures
        ({
            let cat = spec_catalog(headers@);
            let fill = spec_fill_all(headers@, store@, cat, answers@, Map::empty());
            match fill.1 {
                Some(e) => r matches Err(er) && er@ == e,
                None => if !store@.contains_key(top_include_path@) {
                    r matches Err(er) && er@ == ErrSpec::MissingFile(top_include_path@)
                } else if !idx_covered(store@, fill.0) {
                    r matches Err(er) && match er {
                        AmalgamError::MissingFile(p) => !store@.contains_key(p@)
                            && exists|l: Seq<char>| #[trigger]
                            fill.0.contains_key(l) && fill.0[l] == p@,
                        _ => false,
                    }
                } else {
                    r matches Ok(s) && s@ == spec_final_result(store@, fill.0, top_include_path@)
                },
            }
        }),
{
    let cat = build_catalog(headers);
    let mut index: StrMap<String> = StrMap::new();
    match fill_all_dependencies(&mut index, headers, store, &cat, answers) {
        Err(e) => Err(e),
        Ok(()) => {
            if !store.contains_key(top_include_path) {
                return Err(AmalgamError::MissingFile(top_include_path.clone()));
            }
            match missing_target(&index, store) {
                Some(p) => Err(AmalgamError::MissingFile(p)),
                None => Ok(produce_final_result(top_include_path, store, &index)),
            }
        },
    }
}

/// Law: pass-through of non-project targets. A bracketed directive line
/// of the entry file whose target is under no search root is never taken
/// into the index, is not dropped by the filter, and so stands unchanged,
/// as a line of its own, among the rendered lines of the final output.
pub proof fn lemma_passthrough_final(
    hs: Seq<HeaderMeta>,
    store: Map<Seq<char>, Seq<Seq<char>>>,
    answers: Map<Seq<char>, Seq<char>>,
    top: Seq<char>,
    l: Seq<char>,
    t: Seq<char>,
    k: int,
)
    requires
        spec_parse_directive(l) == DirectiveSpec::Bracketed(t),
        !spec_catalog(hs).contains_key(t),
        store.dom().finite(),
        store.contains_key(top),
        0 <= k < store[top].len(),
        store[top][k] == l,
    ensures
        ({
            let fill = spec_fill_all(hs, store, spec_catalog(hs), answers, Map::empty());
            spec_expand(store, fill.0, Set::empty().insert(top), top).1.contains(l)
        }),
{
    let fill = spec_fill_all(hs, store, spec_catalog(hs), answers, Map::empty());
    lemma_fill_all_excludes(l, t, hs, store, spec_catalog(hs), answers, Map::empty());
    lemma_directive_not_consumed(l);
    let seeded = Set::empty().insert(top);
    lemma_len_subset(seeded, store.dom());
    assert(seeded.len() == 1);
    assert(file_fuel(store, seeded) >= 1);
    lemma_exp_file_passthrough(store, fill.0, seeded, top, file_fuel(store, seeded), k);
}

} // verus!
