//! The header catalog: maps a root-relative path to the canonical absolute
//! path of the first header discovered under that relative path, the search
//! roots being processed in the order the user gave them.

use vstd::prelude::*;

use crate::strmap::StrMap;

verus! {

/// One header discovered under a search root. The caller supplies the
/// canonical absolute path of the file, its path relative to the root it
/// was found under, the canonical root itself, and the directory part of
/// the relative path (empty for a file sitting directly under the root).
pub struct HeaderMeta {
    pub abs_path: String,
    pub rel_path: String,
    pub root_prefix: String,
    pub parent_dir: String,
}

/// The catalog that registering the headers in order builds: a relative
/// path is bound to the absolute path it first appeared under.
pub open spec fn spec_catalog(hs: Seq<HeaderMeta>) -> Map<Seq<char>, Seq<char>>
    decreases hs.len(),
{
    if hs.len() == 0 {
        Map::empty()
    } else {
        let m = spec_catalog(hs.drop_last());
        if m.contains_key(hs.last().rel_path@) {
            m
        } else {
            m.insert(hs.last().rel_path@, hs.last().abs_path@)
        }
    }
}

/// Every catalog key is the relative path of one of the headers.
pub proof fn lemma_catalog_dom(hs: Seq<HeaderMeta>)
    ensures
        forall|r: Seq<char>| #[trigger]
            spec_catalog(hs).contains_key(r) <==> exists|j: int|
                0 <= j < hs.len() && hs[j].rel_path@ == r,
    decreases hs.len(),
{
    if hs.len() > 0 {
        lemma_catalog_dom(hs.drop_last());
        assert forall|r: Seq<char>| #[trigger]
            spec_catalog(hs).contains_key(r) implies exists|j: int|
            0 <= j < hs.len() && hs[j].rel_path@ == r by {
            if r == hs.last().rel_path@ {
                assert(hs[hs.len() - 1].rel_path@ == r);
            } else {
                assert(spec_catalog(hs.drop_last()).contains_key(r));
                let j = choose|j: int|
                    0 <= j < hs.drop_last().len() && hs.drop_last()[j].rel_path@ == r;
                assert(hs[j].rel_path@ == r);
            }
        }
        assert forall|r: Seq<char>|
            exists|j: int| 0 <= j < hs.len() && hs[j].rel_path@ == r implies #[trigger]
            spec_catalog(hs).contains_key(r) by {
            let j = choose|j: int| 0 <= j < hs.len() && hs[j].rel_path@ == r;
            if j < hs.len() - 1 {
                assert(hs.drop_last()[j].rel_path@ == r);
                assert(spec_catalog(hs.drop_last()).contains_key(r));
            } else {
                assert(hs.last().rel_path@ == r);
            }
        }
    }
}

/// Law: the first root wins. If the header at position `i` is the first
/// one carrying its relative path — in particular, if an earlier root and a
/// later root both hold a header at that relative path and `i` is the
/// earlier root's copy — then the catalog binds the relative path to that
/// header's absolute path.
pub proof fn lemma_catalog_first_wins(hs: Seq<HeaderMeta>, i: int)
    requires
        0 <= i < hs.len(),
        forall|j: int| 0 <= j < i ==> hs[j].rel_path@ != hs[i].rel_path@,
    ensures
        spec_catalog(hs).contains_key(hs[i].rel_path@),
        spec_catalog(hs)[hs[i].rel_path@] == hs[i].abs_path@,
    decreases hs.len(),
{
    lemma_catalog_dom(hs.drop_last());
    if i == hs.len() - 1 {
        if spec_catalog(hs.drop_last()).contains_key(hs[i].rel_path@) {
            let j = choose|j: int|
                0 <= j < hs.drop_last().len() && hs.drop_last()[j].rel_path@ == hs[i].rel_path@;
            assert(hs[j].rel_path@ == hs[i].rel_path@);
            assert(false);
        }
    } else {
        lemma_catalog_first_wins(hs.drop_last(), i);
        assert(hs.drop_last()[i] == hs[i]);
    }
}

/// Builds the catalog by registering every discovered header in order;
/// a relative path already registered is left as it stands.
pub fn build_catalog(headers: &Vec<HeaderMeta>) -> (c: StrMap<String>)
    ensures
        c.wf(),
        c@ == spec_catalog(headers@),
{
    let mut c: StrMap<String> = StrMap::new();
    let n = headers.len();
    let mut i: usize = 0;
    while i < n
        invariant
            c.wf(),
            i <= n,
            n == headers@.len(),
            c@ == spec_catalog(headers@.take(i as int)),
        decreases n - i,
    {
        let h = &headers[i];
        c.insert_if_absent(h.rel_path.clone(), h.abs_path.clone());
        proof {
            assert(headers@.take(i + 1).drop_last() =~= headers@.take(i as int));
            assert(headers@.take(i + 1).last() == headers@[i as int]);
        }
        i += 1;
    }
    proof {
        assert(headers@.take(n as int) =~= headers@);
    }
    c
}

} // verus!
