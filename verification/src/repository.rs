//! The repository: a content index together with its reference map, and
//! the backlink query over them.

use crate::content::{
    entries_view, get_references, lookup_article, lookup_asset, reference_map, Article, Asset,
    Content, ContentIndex,
};
use vstd::prelude::*;

verus! {

/// A content index together with the forward reference map computed from
/// it, both read-only after construction.
pub struct Repository {
    pub contents: ContentIndex,
    pub reference_cache: Vec<(String, Vec<String>)>,
}

/// The identifiers of the entries among the first `n` whose targets
/// contain `id`: the articles that link to `id`. An article appears at
/// most once, however often it references the target.
pub open spec fn backlinks_upto(
    rm: Seq<(Seq<char>, Seq<Seq<char>>)>,
    id: Seq<char>,
    n: int,
) -> Seq<Seq<char>>
    decreases n,
{
    if n <= 0 {
        Seq::empty()
    } else {
        let prev = backlinks_upto(rm, id, n - 1);
        if rm[n - 1].1.contains(id) {
            prev.push(rm[n - 1].0)
        } else {
            prev
        }
    }
}

/// Every inbound reference to `id`, in reference-map order.
pub open spec fn backlinks(rm: Seq<(Seq<char>, Seq<Seq<char>>)>, id: Seq<char>) -> Seq<Seq<char>> {
    backlinks_upto(rm, id, rm.len() as int)
}

proof fn lemma_backlinks_upto_from_entry(
    rm: Seq<(Seq<char>, Seq<Seq<char>>)>,
    j: int,
    id: Seq<char>,
    n: int,
)
    requires
        0 <= j < n <= rm.len(),
        rm[j].1.contains(id),
    ensures
        backlinks_upto(rm, id, n).contains(rm[j].0),
    decreases n,
{
    let cur = backlinks_upto(rm, id, n);
    if j == n - 1 {
        assert(cur[cur.len() - 1] == rm[j].0);
    } else {
        lemma_backlinks_upto_from_entry(rm, j, id, n - 1);
        let prev = backlinks_upto(rm, id, n - 1);
        let k = choose|k: int| 0 <= k < prev.len() && prev[k] == rm[j].0;
        assert(cur[k] == rm[j].0);
    }
}

/// An article whose reference sequence contains `id` appears among the
/// backlinks of `id`.
pub proof fn lemma_backlinks_from_entry(
    rm: Seq<(Seq<char>, Seq<Seq<char>>)>,
    j: int,
    id: Seq<char>,
)
    requires
        0 <= j < rm.len(),
        rm[j].1.contains(id),
    ensures
        backlinks(rm, id).contains(rm[j].0),
{
    lemma_backlinks_upto_from_entry(rm, j, id, rm.len() as int);
}

/// Law: a resolved cross-reference produces both the forward reference
/// and the backlink. When the raw body of the article at position `i`
/// holds a plain wikilink whose token resolves to article `b`, the
/// reference map's entry for that article contains `b`'s identifier, and
/// the backlinks of `b`'s identifier contain the referencing article's
/// identifier.
pub proof fn lemma_reference_and_backlink(s: Seq<Content>, i: int, pos: int, b: Article)
    requires
        0 <= i < s.len(),
        s[i].is_article(),
        crate::links::normal_match_at(s[i].spec_article().raw@, pos),
        crate::content::lookup_article(
            s,
            crate::links::normal_target(s[i].spec_article().raw@, pos),
        ) == Some(b),
    ensures
        exists|j: int|
            0 <= j < reference_map(s).len() && (#[trigger] reference_map(s)[j]).0
                == s[i].spec_id() && reference_map(s)[j].1.contains(b.id@),
        backlinks(reference_map(s), b.id@).contains(s[i].spec_id()),
{
    let body = s[i].spec_article().raw@;
    crate::links::lemma_resolved_link_extracted(s, body, pos, b);
    crate::content::lemma_reference_map_has_article(s, i);
    let rm = reference_map(s);
    let j = choose|j: int|
        0 <= j < rm.len() && #[trigger] rm[j] == (
        s[i].spec_id(),
        crate::links::extract_refs(s, body),
        );
    assert(rm[j].0 == s[i].spec_id() && rm[j].1.contains(b.id@));
    lemma_backlinks_from_entry(rm, j, b.id@);
}

/// One of the strings in `v` reads `id`.
fn vec_contains_str(v: &Vec<String>, id: &str) -> (r: bool)
    ensures
        r == v.deep_view().contains(id@),
{
    let n = v.len();
    for k in 0..n
        invariant
            n == v@.len(),
            forall|j: int| 0 <= j < k ==> v.deep_view()[j] != id@,
    {
        if crate::content::str_eq(v[k].as_str(), id) {
            assert(v.deep_view()[k as int] == id@);
            return true;
        }
    }
    false
}

impl Repository {
    /// The repository invariant: the index is well formed and the cache is
    /// exactly the reference map of the index.
    pub open spec fn wf(&self) -> bool {
        self.contents.wf() && entries_view(self.reference_cache@) == reference_map(self.contents@)
    }

    /// Build the repository: take the index and compute its reference map
    /// once; both are read-only afterwards.
    pub fn new(contents: ContentIndex) -> (r: Repository)
        ensures
            r.contents == contents,
            entries_view(r.reference_cache@) == reference_map(contents@),
            contents.wf() ==> r.wf(),
    {
        let cache = get_references(&contents);
        Repository { contents, reference_cache: cache }
    }

    /// Resolve `id` to an article of the index; see
    /// `content::get_article`.
    pub fn get_article(&self, id: &str) -> (r: Option<&Article>)
        ensures
            match r {
                Some(a) => lookup_article(self.contents@, id@) == Some(*a),
                None => lookup_article(self.contents@, id@) is None,
            },
    {
        crate::content::get_article(&self.contents, id)
    }

    /// Resolve `id` to an asset of the index; see `content::get_asset`.
    pub fn get_asset(&self, id: &str) -> (r: Option<&Asset>)
        ensures
            match r {
                Some(a) => lookup_asset(self.contents@, id@) == Some(*a),
                None => lookup_asset(self.contents@, id@) is None,
            },
    {
        crate::content::get_asset(&self.contents, id)
    }

    /// Gets all inbound references: the articles whose reference sequence
    /// contains `id`, each at most once, in reference-map order.
    pub fn get_inbound_references(&self, id: &str) -> (r: Vec<String>)
        ensures
            r.deep_view() == backlinks(entries_view(self.reference_cache@), id@),
    {
        let ghost rm = entries_view(self.reference_cache@);
        let mut out: Vec<String> = Vec::new();
        let n = self.reference_cache.len();
        proof {
            assert(out.deep_view() =~= backlinks_upto(rm, id@, 0));
        }
        for i in 0..n
            invariant
                n == self.reference_cache@.len(),
                rm == entries_view(self.reference_cache@),
                out.deep_view() == backlinks_upto(rm, id@, i as int),
        {
            let ghost prev = out.deep_view();
            proof {
                assert(rm[i as int] == crate::content::entry_view(self.reference_cache@[i as int]));
            }
            if vec_contains_str(&self.reference_cache[i].1, id) {
                let key = self.reference_cache[i].0.clone();
                out.push(key);
                proof {
                    assert(out.deep_view() =~= prev.push(rm[i as int].0));
                }
            }
        }
        out
    }
}

} // verus!
