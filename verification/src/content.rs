//! Content items and the content index.
//!
//! A content item is either an article (a text document with a body that may
//! hold wikilinks) or an asset (any other file). The index maps identifiers
//! to items; identifiers are unique and the index is never mutated after
//! construction.

use crate::frontmatter::Frontmatter;
use std::collections::HashMap;
use vstd::prelude::*;

verus! {

/// Content is any item of data that we want to move or process
/// from our source to our destination.
#[derive(Debug)]
pub enum Content {
    Article(Box<Article>),
    Asset(Asset),
}

#[derive(Clone, Debug)]
pub struct Article {
    pub id: String,
    pub permalink: String,
    pub src: String,
    pub meta: Option<Frontmatter>,
    pub content: Option<ArticleContent>,
    pub raw: String,
}

#[derive(Clone, Debug)]
pub struct ArticleContent {
    pub title: Option<String>,
    pub ingress: Option<String>,
    pub body: String,
    pub toc: HashMap<String, String>,
}

#[derive(Debug)]
pub struct Asset {
    pub id: String,
    pub permalink: String,
    pub src: String,
}

impl Content {
    /// The identifier of the item, as a sequence of characters.
    pub open spec fn spec_id(&self) -> Seq<char> {
        match self {
            Content::Article(a) => a.id@,
            Content::Asset(a) => a.id@,
        }
    }

    /// The permalink of the item, as a sequence of characters.
    pub open spec fn spec_permalink(&self) -> Seq<char> {
        match self {
            Content::Article(a) => a.permalink@,
            Content::Asset(a) => a.permalink@,
        }
    }

    pub open spec fn is_article(&self) -> bool {
        self is Article
    }

    pub open spec fn is_asset(&self) -> bool {
        self is Asset
    }

    /// The article held by this item; meaningful only when `is_article()`.
    pub open spec fn spec_article(&self) -> Article {
        match self {
            Content::Article(a) => **a,
            Content::Asset(_) => arbitrary(),
        }
    }

    /// The asset held by this item; meaningful only when `is_asset()`.
    pub open spec fn spec_asset(&self) -> Asset {
        match self {
            Content::Article(_) => arbitrary(),
            Content::Asset(a) => *a,
        }
    }

    /// The identifier of the item.
    pub fn id(&self) -> (r: &String)
        ensures
            r@ == self.spec_id(),
    {
        match self {
            Content::Article(a) => &a.id,
            Content::Asset(a) => &a.id,
        }
    }
}

/// Identifiers are pairwise distinct.
pub open spec fn unique_ids(s: Seq<Content>) -> bool {
    forall|i: int, j: int|
        0 <= i < j < s.len() ==> (#[trigger] s[i].spec_id()) != (#[trigger] s[j].spec_id())
}

/// Mapping from identifier to content item. Built once per generation run
/// and read-only afterwards; identifiers are unique. Items keep the order
/// in which they were first inserted, which makes every derived structure
/// (reference map, graph export) deterministic.
pub struct ContentIndex {
    items: Vec<Content>,
}

impl View for ContentIndex {
    type V = Seq<Content>;

    closed spec fn view(&self) -> Seq<Content> {
        self.items@
    }
}

/// First position in `s` whose item has identifier `id`, or -1 when absent.
pub open spec fn find_id(s: Seq<Content>, id: Seq<char>) -> int
    decreases s.len(),
{
    if s.len() == 0 {
        -1
    } else if s[0].spec_id() == id {
        0
    } else {
        let r = find_id(s.drop_first(), id);
        if r == -1 {
            -1
        } else {
            r + 1
        }
    }
}

/// Insert one item: a duplicate identifier replaces the existing item in
/// place, otherwise the item is appended.
pub open spec fn index_insert(s: Seq<Content>, c: Content) -> Seq<Content> {
    let i = find_id(s, c.spec_id());
    if i == -1 {
        s.push(c)
    } else {
        s.update(i, c)
    }
}

/// The sequence an index holds after inserting `items` left to right.
pub open spec fn index_build(items: Seq<Content>) -> Seq<Content>
    decreases items.len(),
{
    if items.len() == 0 {
        Seq::empty()
    } else {
        index_insert(index_build(items.drop_last()), items.last())
    }
}

proof fn lemma_find_id_spec(s: Seq<Content>, id: Seq<char>)
    ensures
        find_id(s, id) == -1 ==> forall|i: int| 0 <= i < s.len() ==> s[i].spec_id() != id,
        find_id(s, id) != -1 ==> {
            let f = find_id(s, id);
            &&& 0 <= f < s.len()
            &&& s[f].spec_id() == id
            &&& forall|i: int| 0 <= i < f ==> s[i].spec_id() != id
        },
    decreases s.len(),
{
    if s.len() > 0 {
        lemma_find_id_spec(s.drop_first(), id);
        if s[0].spec_id() != id {
            let r = find_id(s.drop_first(), id);
            if r == -1 {
                assert forall|i: int| 0 <= i < s.len() implies s[i].spec_id() != id by {
                    if i > 0 {
                        assert(s.drop_first()[i - 1] == s[i]);
                    }
                }
            } else {
                assert(s.drop_first()[r] == s[r + 1]);
                assert forall|i: int| 0 <= i < r + 1 implies s[i].spec_id() != id by {
                    if i > 0 {
                        assert(s.drop_first()[i - 1] == s[i]);
                    }
                }
            }
        }
    }
}

proof fn lemma_index_insert_unique(s: Seq<Content>, c: Content)
    requires
        unique_ids(s),
    ensures
        unique_ids(index_insert(s, c)),
{
    lemma_find_id_spec(s, c.spec_id());
    let i = find_id(s, c.spec_id());
    if i == -1 {
        let t = s.push(c);
        assert forall|p: int, q: int| 0 <= p < q < t.len() implies t[p].spec_id()
            != t[q].spec_id() by {
            if q == t.len() - 1 {
                assert(s[p].spec_id() != c.spec_id());
            }
        }
    } else {
        let t = s.update(i, c);
        assert forall|p: int, q: int| 0 <= p < q < t.len() implies t[p].spec_id()
            != t[q].spec_id() by {
            if p == i {
                assert(t[q] == s[q]);
                assert(s[i].spec_id() == c.spec_id());
            } else if q == i {
                assert(t[p] == s[p]);
                assert(s[i].spec_id() == c.spec_id());
            }
        }
    }
}

pub proof fn lemma_index_build_unique(items: Seq<Content>)
    ensures
        unique_ids(index_build(items)),
    decreases items.len(),
{
    if items.len() == 0 {
        assert(unique_ids(Seq::<Content>::empty()));
    } else {
        lemma_index_build_unique(items.drop_last());
        lemma_index_insert_unique(index_build(items.drop_last()), items.last());
    }
}

impl ContentIndex {
    /// The index invariant: identifiers are unique.
    pub open spec fn wf(&self) -> bool {
        unique_ids(self@)
    }

    /// Build the index from the source reader's items. A later item with an
    /// identifier already present replaces the earlier one in place.
    pub fn new(items: Vec<Content>) -> (r: ContentIndex)
        ensures
            r@ == index_build(items@),
            r.wf(),
    {
        let ghost orig: Seq<Content> = items@;
        let mut rest = items;
        let mut out: Vec<Content> = Vec::new();
        let ghost k: int = 0;
        while rest.len() > 0
            invariant
                0 <= k <= orig.len(),
                rest@ == orig.skip(k),
                out@ == index_build(orig.take(k)),
            decreases rest@.len(),
        {
            let c = rest.remove(0);
            proof {
                assert(c == orig[k]);
                assert(orig.take(k + 1).drop_last() =~= orig.take(k));
                assert(orig.take(k + 1).last() == orig[k]);
            }
            let found = find_id_exec(&out, c.id());
            match found {
                Some(i) => {
                    out[i] = c;
                }
                None => {
                    out.push(c);
                }
            }
            proof {
                assert(rest@ =~= orig.skip(k + 1));
                k = k + 1;
            }
        }
        proof {
            assert(orig.take(k) =~= orig);
            lemma_index_build_unique(orig);
        }
        ContentIndex { items: out }
    }

    /// How many items the index holds.
    pub fn len(&self) -> (r: usize)
        ensures
            r == self@.len(),
    {
        self.items.len()
    }

    /// The item at a position, in insertion order.
    pub fn get(&self, i: usize) -> (r: &Content)
        requires
            i < self@.len(),
        ensures
            *r == self@[i as int],
    {
        &self.items[i]
    }
}

/// First position in `v` whose item has the given identifier.
fn find_id_exec(v: &Vec<Content>, id: &String) -> (r: Option<usize>)
    ensures
        match r {
            Some(i) => find_id(v@, id@) == i as int && i < v@.len(),
            None => find_id(v@, id@) == -1,
        },
{
    proof {
        lemma_find_id_spec(v@, id@);
    }
    let n = v.len();
    for i in 0..n
        invariant
            n == v@.len(),
            forall|j: int| 0 <= j < i ==> v@[j].spec_id() != id@,
    {
        if str_eq(v[i].id().as_str(), id.as_str()) {
            proof {
                lemma_find_id_first(v@, id@, i as int);
            }
            return Some(i);
        }
    }
    proof {
        if find_id(v@, id@) != -1 {
            assert(v@[find_id(v@, id@)].spec_id() == id@);
        }
    }
    None
}

proof fn lemma_find_id_first(s: Seq<Content>, id: Seq<char>, i: int)
    requires
        0 <= i < s.len(),
        s[i].spec_id() == id,
        forall|j: int| 0 <= j < i ==> s[j].spec_id() != id,
    ensures
        find_id(s, id) == i,
    decreases s.len(),
{
    if i > 0 {
        assert(s.drop_first()[i - 1] == s[i]);
        assert forall|j: int| 0 <= j < i - 1 implies s.drop_first()[j].spec_id() != id by {
            assert(s.drop_first()[j] == s[j + 1]);
        }
        lemma_find_id_first(s.drop_first(), id, i - 1);
    }
}

/// `id` ends with `suffix`.
pub open spec fn ends_with(id: Seq<char>, suffix: Seq<char>) -> bool {
    id.len() >= suffix.len() && id.subrange(id.len() - suffix.len(), id.len() as int) == suffix
}

/// Strict character order, by code point.
pub open spec fn char_lt(a: char, b: char) -> bool {
    (a as u32) < (b as u32)
}

/// Strict lexicographic order on two sequences of equal length, scanning
/// from position `k`.
pub open spec fn lex_lt_from(a: Seq<char>, b: Seq<char>, k: int) -> bool
    decreases a.len() - k,
{
    if k < 0 || k >= a.len() || k >= b.len() {
        false
    } else if char_lt(a[k], b[k]) {
        true
    } else if a[k] == b[k] {
        lex_lt_from(a, b, k + 1)
    } else {
        false
    }
}

/// The deterministic order on candidate keys: shorter first, then
/// lexicographically smaller.
pub open spec fn key_lt(a: Seq<char>, b: Seq<char>) -> bool {
    a.len() < b.len() || (a.len() == b.len() && lex_lt_from(a, b, 0))
}

/// The item at position `i` is a candidate for `token`: its identifier
/// ends with the token.
pub open spec fn is_candidate(s: Seq<Content>, token: Seq<char>, i: int) -> bool {
    0 <= i < s.len() && ends_with(s[i].spec_id(), token)
}

/// The best candidate among the first `n` items: a left-to-right fold that
/// keeps the candidate with the `key_lt`-least identifier, preferring the
/// earlier item on a tie.
pub open spec fn best_candidate_upto(s: Seq<Content>, token: Seq<char>, n: int) -> Option<int>
    decreases n,
{
    if n <= 0 {
        None
    } else {
        let prev = best_candidate_upto(s, token, n - 1);
        if is_candidate(s, token, n - 1) {
            match prev {
                None => Some(n - 1),
                Some(b) => if key_lt(s[n - 1].spec_id(), s[b].spec_id()) {
                    Some(n - 1)
                } else {
                    Some(b)
                },
            }
        } else {
            prev
        }
    }
}

/// Resolve a raw token against the index: the position of the candidate
/// with the least identifier, or `None` when nothing ends with the token.
/// An exact match is always the least candidate, so it wins.
pub open spec fn resolve_token(s: Seq<Content>, token: Seq<char>) -> Option<int> {
    best_candidate_upto(s, token, s.len() as int)
}

/// The article a token resolves to. A token whose best candidate is an
/// asset resolves to no article: a variant mismatch is absence, not an
/// error.
pub open spec fn lookup_article(s: Seq<Content>, token: Seq<char>) -> Option<Article> {
    match resolve_token(s, token) {
        Some(i) => if s[i].is_article() {
            Some(s[i].spec_article())
        } else {
            None
        },
        None => None,
    }
}

/// The asset a token resolves to; the mirror image of `lookup_article`.
pub open spec fn lookup_asset(s: Seq<Content>, token: Seq<char>) -> Option<Asset> {
    match resolve_token(s, token) {
        Some(i) => if s[i].is_asset() {
            Some(s[i].spec_asset())
        } else {
            None
        },
        None => None,
    }
}

pub proof fn lemma_best_candidate_spec(s: Seq<Content>, token: Seq<char>, n: int)
    requires
        0 <= n <= s.len(),
    ensures
        best_candidate_upto(s, token, n) matches Some(b) ==> 0 <= b < n && is_candidate(
            s,
            token,
            b,
        ),
        best_candidate_upto(s, token, n) is None ==> forall|i: int|
            0 <= i < n ==> !is_candidate(s, token, i),
    decreases n,
{
    if n > 0 {
        lemma_best_candidate_spec(s, token, n - 1);
    }
}

proof fn lemma_lex_lt_trans(a: Seq<char>, b: Seq<char>, c: Seq<char>, k: int)
    requires
        a.len() == b.len(),
        b.len() == c.len(),
        0 <= k,
        lex_lt_from(a, b, k),
        lex_lt_from(b, c, k),
    ensures
        lex_lt_from(a, c, k),
    decreases a.len() - k,
{
    if k < a.len() {
        if char_lt(a[k], b[k]) {
            assert(char_lt(b[k], c[k]) || b[k] == c[k]);
        } else if a[k] == b[k] {
            if b[k] == c[k] {
                lemma_lex_lt_trans(a, b, c, k + 1);
            }
        }
    }
}

proof fn lemma_lex_lt_irrefl(a: Seq<char>, k: int)
    ensures
        !lex_lt_from(a, a, k),
    decreases a.len() - k,
{
    if 0 <= k < a.len() {
        lemma_lex_lt_irrefl(a, k + 1);
    }
}

proof fn lemma_key_lt_trans(a: Seq<char>, b: Seq<char>, c: Seq<char>)
    requires
        key_lt(a, b),
        key_lt(b, c),
    ensures
        key_lt(a, c),
{
    if a.len() == b.len() && b.len() == c.len() {
        lemma_lex_lt_trans(a, b, c, 0);
    }
}

proof fn lemma_best_candidate_minimal(s: Seq<Content>, token: Seq<char>, n: int)
    requires
        0 <= n <= s.len(),
    ensures
        best_candidate_upto(s, token, n) matches Some(b) ==> forall|j: int|
            0 <= j < n && is_candidate(s, token, j) ==> !key_lt(
                (#[trigger] s[j].spec_id()),
                s[b].spec_id(),
            ),
    decreases n,
{
    if n > 0 {
        lemma_best_candidate_minimal(s, token, n - 1);
        lemma_best_candidate_spec(s, token, n - 1);
        match best_candidate_upto(s, token, n) {
            Some(b) => {
                assert forall|j: int| 0 <= j < n && is_candidate(s, token, j) implies !key_lt(
                    (#[trigger] s[j].spec_id()),
                    s[b].spec_id(),
                ) by {
                    if j == b {
                        lemma_lex_lt_irrefl(s[b].spec_id(), 0);
                    } else if j < n - 1 {
                        match best_candidate_upto(s, token, n - 1) {
                            Some(p) => {
                                if b != p {
                                    // the new candidate displaced the previous
                                    // best, so it is even smaller
                                    if key_lt(s[j].spec_id(), s[b].spec_id()) {
                                        lemma_key_lt_trans(
                                            s[j].spec_id(),
                                            s[b].spec_id(),
                                            s[p].spec_id(),
                                        );
                                    }
                                }
                            }
                            None => {}
                        }
                    }
                }
            }
            None => {}
        }
    }
}

/// Law: resolution is deterministic and picks exactly the documented
/// candidate. Whenever some identifier ends with the token, the resolver
/// returns a candidate, and that candidate's identifier is least in the
/// shortest-then-lexicographic order among all candidates; with unique
/// identifiers it is the unique such item, the same on every run.
pub proof fn lemma_resolution_minimal(s: Seq<Content>, token: Seq<char>)
    ensures
        resolve_token(s, token) matches Some(i) ==> is_candidate(s, token, i) && forall|j: int|
            0 <= j < s.len() && is_candidate(s, token, j) ==> !key_lt(
                (#[trigger] s[j].spec_id()),
                s[i].spec_id(),
            ),
        resolve_token(s, token) is None ==> forall|j: int| !is_candidate(s, token, j),
{
    lemma_best_candidate_spec(s, token, s.len() as int);
    lemma_best_candidate_minimal(s, token, s.len() as int);
}

/// `a` ends with `b`, executable form.
pub fn ends_with_exec(a: &str, b: &str) -> (r: bool)
    ensures
        r == ends_with(a@, b@),
{
    let na = a.unicode_len();
    let nb = b.unicode_len();
    if na < nb {
        return false;
    }
    let off = na - nb;
    for i in 0..nb
        invariant
            na == a@.len(),
            nb == b@.len(),
            off == na - nb,
            forall|j: int| 0 <= j < i ==> a@[off + j] == b@[j],
    {
        if a.get_char(off + i) != b.get_char(i) {
            assert(a@.subrange(off as int, na as int)[i as int] != b@[i as int]);
            return false;
        }
    }
    proof {
        assert(a@.subrange(off as int, na as int) =~= b@);
    }
    true
}

/// `key_lt(a@, b@)`, executable form.
fn key_lt_exec(a: &str, b: &str) -> (r: bool)
    ensures
        r == key_lt(a@, b@),
{
    let na = a.unicode_len();
    let nb = b.unicode_len();
    if na < nb {
        return true;
    }
    if na > nb {
        return false;
    }
    let mut k: usize = 0;
    loop
        invariant
            0 <= k <= na,
            na == a@.len(),
            nb == b@.len(),
            na == nb,
            lex_lt_from(a@, b@, 0) == lex_lt_from(a@, b@, k as int),
        decreases na - k,
    {
        if k == na {
            return false;
        }
        let ca = a.get_char(k);
        let cb = b.get_char(k);
        if (ca as u32) < (cb as u32) {
            return true;
        }
        if ca != cb {
            return false;
        }
        k = k + 1;
    }
}

/// The position of the best candidate for `token`, or `None`.
fn resolve_token_exec(contents: &ContentIndex, token: &str) -> (r: Option<usize>)
    ensures
        match r {
            Some(i) => resolve_token(contents@, token@) == Some(i as int) && i < contents@.len(),
            None => resolve_token(contents@, token@) is None,
        },
{
    let n = contents.items.len();
    let mut best: Option<usize> = None;
    for i in 0..n
        invariant
            n == contents@.len(),
            match best {
                Some(b) => best_candidate_upto(contents@, token@, i as int) == Some(b as int) && b
                    < n,
                None => best_candidate_upto(contents@, token@, i as int) is None,
            },
    {
        if ends_with_exec(contents.items[i].id().as_str(), token) {
            match best {
                None => {
                    best = Some(i);
                }
                Some(b) => {
                    if key_lt_exec(contents.items[i].id().as_str(), contents.items[b].id().as_str())
                    {
                        best = Some(i);
                    }
                }
            }
        }
    }
    best
}

/// Resolve `id` to an article: exact identifier match first, then the
/// deterministic suffix fallback; an asset hit is absence.
pub fn get_article<'a>(contents: &'a ContentIndex, id: &str) -> (r: Option<&'a Article>)
    ensures
        match r {
            Some(a) => lookup_article(contents@, id@) == Some(*a),
            None => lookup_article(contents@, id@) is None,
        },
{
    match resolve_token_exec(contents, id) {
        Some(i) => match &contents.items[i] {
            Content::Article(a) => Some(&**a),
            Content::Asset(_) => None,
        },
        None => None,
    }
}

/// Resolve `id` to an asset; the mirror image of `get_article`.
pub fn get_asset<'a>(contents: &'a ContentIndex, id: &str) -> (r: Option<&'a Asset>)
    ensures
        match r {
            Some(a) => lookup_asset(contents@, id@) == Some(*a),
            None => lookup_asset(contents@, id@) is None,
        },
{
    match resolve_token_exec(contents, id) {
        Some(i) => match &contents.items[i] {
            Content::Asset(a) => Some(a),
            Content::Article(_) => None,
        },
        None => None,
    }
}

/// The mathematical value of one reference-map entry: the article
/// identifier and its resolved target identifiers in extraction order.
pub open spec fn entry_view(e: (String, Vec<String>)) -> (Seq<char>, Seq<Seq<char>>) {
    (e.0@, e.1.deep_view())
}

/// The mathematical value of a reference map.
pub open spec fn entries_view(v: Seq<(String, Vec<String>)>) -> Seq<(Seq<char>, Seq<Seq<char>>)> {
    v.map_values(|e: (String, Vec<String>)| entry_view(e))
}

/// The forward reference map over the first `n` items: one entry per
/// article, in index order, holding what its raw body references.
pub open spec fn reference_map_upto(s: Seq<Content>, n: int) -> Seq<(Seq<char>, Seq<Seq<char>>)>
    decreases n,
{
    if n <= 0 {
        Seq::empty()
    } else {
        let prev = reference_map_upto(s, n - 1);
        if s[n - 1].is_article() {
            prev.push(
                (s[n - 1].spec_id(), crate::links::extract_refs(s, s[n - 1].spec_article().raw@)),
            )
        } else {
            prev
        }
    }
}

/// The forward reference map of the whole index.
pub open spec fn reference_map(s: Seq<Content>) -> Seq<(Seq<char>, Seq<Seq<char>>)> {
    reference_map_upto(s, s.len() as int)
}

/// Build the forward reference map: run the extractor once over every
/// article's raw body, in index order.
pub fn get_references(contents: &ContentIndex) -> (r: Vec<(String, Vec<String>)>)
    ensures
        entries_view(r@) == reference_map(contents@),
{
    let mut out: Vec<(String, Vec<String>)> = Vec::new();
    let n = contents.len();
    proof {
        assert(entries_view(out@) =~= reference_map_upto(contents@, 0));
    }
    for i in 0..n
        invariant
            n == contents@.len(),
            entries_view(out@) == reference_map_upto(contents@, i as int),
    {
        let ghost prev = out@;
        match contents.get(i) {
            Content::Article(a) => {
                let refs = crate::links::extract(contents, &*a);
                out.push((a.id.clone(), refs));
                proof {
                    assert(entries_view(out@) =~= entries_view(prev).push(
                        (a.id@, crate::links::extract_refs(contents@, a.raw@)),
                    ));
                }
            }
            Content::Asset(_) => {}
        }
    }
    out
}

/// How a control character below 0x20 without a short escape is written
/// in a JSON string literal.
pub open spec fn json_control_escape(c: char) -> Seq<char> {
    if c == '\u{00}' {
        ("\\u0000")@
    } else if c == '\u{01}' {
        ("\\u0001")@
    } else if c == '\u{02}' {
        ("\\u0002")@
    } else if c == '\u{03}' {
        ("\\u0003")@
    } else if c == '\u{04}' {
        ("\\u0004")@
    } else if c == '\u{05}' {
        ("\\u0005")@
    } else if c == '\u{06}' {
        ("\\u0006")@
    } else if c == '\u{07}' {
        ("\\u0007")@
    } else if c == '\u{0b}' {
        ("\\u000b")@
    } else if c == '\u{0e}' {
        ("\\u000e")@
    } else if c == '\u{0f}' {
        ("\\u000f")@
    } else if c == '\u{10}' {
        ("\\u0010")@
    } else if c == '\u{11}' {
        ("\\u0011")@
    } else if c == '\u{12}' {
        ("\\u0012")@
    } else if c == '\u{13}' {
        ("\\u0013")@
    } else if c == '\u{14}' {
        ("\\u0014")@
    } else if c == '\u{15}' {
        ("\\u0015")@
    } else if c == '\u{16}' {
        ("\\u0016")@
    } else if c == '\u{17}' {
        ("\\u0017")@
    } else if c == '\u{18}' {
        ("\\u0018")@
    } else if c == '\u{19}' {
        ("\\u0019")@
    } else if c == '\u{1a}' {
        ("\\u001a")@
    } else if c == '\u{1b}' {
        ("\\u001b")@
    } else if c == '\u{1c}' {
        ("\\u001c")@
    } else if c == '\u{1d}' {
        ("\\u001d")@
    } else if c == '\u{1e}' {
        ("\\u001e")@
    } else {
        ("\\u001f")@
    }
}

/// How one character is written inside a JSON string literal: the quote
/// and the backslash are escaped, the named control characters get their
/// short escapes, the remaining control characters below 0x20 get a
/// `\u00..` escape, and every other character stands as itself.
pub open spec fn json_escape_char(c: char) -> Seq<char> {
    if c == '"' {
        ("\\\"")@
    } else if c == '\\' {
        ("\\\\")@
    } else if c == '\u{08}' {
        ("\\b")@
    } else if c == '\u{0c}' {
        ("\\f")@
    } else if c == '\n' {
        ("\\n")@
    } else if c == '\r' {
        ("\\r")@
    } else if c == '\t' {
        ("\\t")@
    } else if (c as u32) < 0x20 {
        json_control_escape(c)
    } else {
        seq![c]
    }
}

/// A character sequence written inside a JSON string literal.
pub open spec fn json_escape(s: Seq<char>) -> Seq<char>
    decreases s.len(),
{
    if s.len() == 0 {
        Seq::empty()
    } else {
        json_escape_char(s[0]) + json_escape(s.drop_first())
    }
}

/// A character sequence as a JSON string literal, quotes included.
pub open spec fn json_quote(s: Seq<char>) -> Seq<char> {
    ("\"")@ + json_escape(s) + ("\"")@
}

/// Append `s` to `out` as a JSON string literal.
fn append_json_quoted(out: &mut String, s: &str)
    ensures
        final(out)@ == old(out)@ + json_quote(s@),
{
    let ghost start = out@;
    out.append("\"");
    proof {
        assert(s@.skip(0) =~= s@);
    }
    let n = s.unicode_len();
    let mut i: usize = 0;
    while i < n
        invariant
            i <= n,
            n == s@.len(),
            out@ + json_escape(s@.skip(i as int)) == start + ("\"")@ + json_escape(s@),
        decreases n - i,
    {
        let ghost prev = out@;
        let c = s.get_char(i);
        proof {
            assert(s@.skip(i as int)[0] == c);
            assert(s@.skip(i as int).drop_first() =~= s@.skip(i + 1));
        }
        if c == '"' {
            out.append("\\\"");
        } else if c == '\\' {
            out.append("\\\\");
        } else if c == '\u{08}' {
            out.append("\\b");
        } else if c == '\u{0c}' {
            out.append("\\f");
        } else if c == '\n' {
            out.append("\\n");
        } else if c == '\r' {
            out.append("\\r");
        } else if c == '\t' {
            out.append("\\t");
        } else if (c as u32) < 0x20 {
            if c == '\u{00}' {
                out.append("\\u0000");
            } else if c == '\u{01}' {
                out.append("\\u0001");
            } else if c == '\u{02}' {
                out.append("\\u0002");
            } else if c == '\u{03}' {
                out.append("\\u0003");
            } else if c == '\u{04}' {
                out.append("\\u0004");
            } else if c == '\u{05}' {
                out.append("\\u0005");
            } else if c == '\u{06}' {
                out.append("\\u0006");
            } else if c == '\u{07}' {
                out.append("\\u0007");
            } else if c == '\u{0b}' {
                out.append("\\u000b");
            } else if c == '\u{0e}' {
                out.append("\\u000e");
            } else if c == '\u{0f}' {
                out.append("\\u000f");
            } else if c == '\u{10}' {
                out.append("\\u0010");
            } else if c == '\u{11}' {
                out.append("\\u0011");
            } else if c == '\u{12}' {
                out.append("\\u0012");
            } else if c == '\u{13}' {
                out.append("\\u0013");
            } else if c == '\u{14}' {
                out.append("\\u0014");
            } else if c == '\u{15}' {
                out.append("\\u0015");
            } else if c == '\u{16}' {
                out.append("\\u0016");
            } else if c == '\u{17}' {
                out.append("\\u0017");
            } else if c == '\u{18}' {
                out.append("\\u0018");
            } else if c == '\u{19}' {
                out.append("\\u0019");
            } else if c == '\u{1a}' {
                out.append("\\u001a");
            } else if c == '\u{1b}' {
                out.append("\\u001b");
            } else if c == '\u{1c}' {
                out.append("\\u001c");
            } else if c == '\u{1d}' {
                out.append("\\u001d");
            } else if c == '\u{1e}' {
                out.append("\\u001e");
            } else {
                out.append("\\u001f");
            }
        } else {
            let piece = s.substring_char(i, i + 1);
            out.append(piece);
            proof {
                assert(piece@ =~= seq![c]);
            }
        }
        proof {
            assert(out@ =~= prev + json_escape_char(c));
            assert(prev + json_escape_char(c) + json_escape(s@.skip(i + 1)) =~= prev + (
            json_escape_char(c) + json_escape(s@.skip(i + 1))));
        }
        i = i + 1;
    }
    proof {
        assert(s@.skip(n as int) =~= Seq::<char>::empty());
        assert(out@ + json_escape(s@.skip(n as int)) =~= out@);
    }
    out.append("\"");
    proof {
        assert(out@ =~= start + json_quote(s@));
    }
}

/// An article with exactly this identifier stands in the index. Edge
/// targets are canonical identifiers, so this is an exact lookup, without
/// the suffix fallback.
pub open spec fn article_id_present(s: Seq<Content>, id: Seq<char>) -> bool {
    exists|i: int| 0 <= i < s.len() && (#[trigger] s[i]).is_article() && s[i].spec_id() == id
}

/// The JSON object of one graph node.
pub open spec fn node_json(id: Seq<char>, url: Seq<char>) -> Seq<char> {
    ("{\"data\":{\"id\":")@ + json_quote(id) + (",\"url\":")@ + json_quote(url) + ("}}")@
}

/// The JSON object of one graph edge; its identifier is the literal
/// concatenation of source, `-`, and target.
pub open spec fn edge_json(src: Seq<char>, tgt: Seq<char>) -> Seq<char> {
    ("{\"data\":{\"id\":")@ + json_quote(src + ("-")@ + tgt) + (",\"source\":")@ + json_quote(src)
        + (",\"target\":")@ + json_quote(tgt) + ("}}")@
}

/// The node objects of the first `n` items: one per article, none per
/// asset, in index order.
pub open spec fn node_parts_upto(s: Seq<Content>, n: int) -> Seq<Seq<char>>
    decreases n,
{
    if n <= 0 {
        Seq::empty()
    } else {
        let prev = node_parts_upto(s, n - 1);
        if s[n - 1].is_article() {
            prev.push(node_json(s[n - 1].spec_id(), s[n - 1].spec_permalink()))
        } else {
            prev
        }
    }
}

/// The edge objects of one reference-map entry, from target `k` on: one
/// per target that names an article, in order; duplicate targets yield
/// duplicate edge objects.
pub open spec fn entry_edge_parts(
    s: Seq<Content>,
    src: Seq<char>,
    tgts: Seq<Seq<char>>,
    k: int,
) -> Seq<Seq<char>>
    decreases tgts.len() - k,
{
    if k < 0 || k >= tgts.len() {
        Seq::empty()
    } else {
        let rest = entry_edge_parts(s, src, tgts, k + 1);
        if article_id_present(s, tgts[k]) {
            seq![edge_json(src, tgts[k])] + rest
        } else {
            rest
        }
    }
}

/// The edge objects of the first `n` reference-map entries.
pub open spec fn edge_parts_upto(
    s: Seq<Content>,
    rm: Seq<(Seq<char>, Seq<Seq<char>>)>,
    n: int,
) -> Seq<Seq<char>>
    decreases n,
{
    if n <= 0 {
        Seq::empty()
    } else {
        edge_parts_upto(s, rm, n - 1) + entry_edge_parts(s, rm[n - 1].0, rm[n - 1].1, 0)
    }
}

/// Parts joined with a comma between each pair.
pub open spec fn comma_join(parts: Seq<Seq<char>>) -> Seq<char>
    decreases parts.len(),
{
    if parts.len() == 0 {
        Seq::empty()
    } else if parts.len() == 1 {
        parts[0]
    } else {
        comma_join(parts.drop_last()) + (",")@ + parts.last()
    }
}

pub proof fn lemma_comma_join_push(parts: Seq<Seq<char>>, p: Seq<char>)
    ensures
        comma_join(parts.push(p)) == if parts.len() == 0 {
            p
        } else {
            comma_join(parts) + (",")@ + p
        },
{
    assert(parts.push(p).drop_last() =~= parts);
    assert(parts.push(p).last() == p);
    if parts.len() == 0 {
        assert(comma_join(parts.push(p)) == parts.push(p)[0]);
    }
}

/// The whole graph export text: the edge objects, then the node objects.
pub open spec fn graph_json(s: Seq<Content>, rm: Seq<(Seq<char>, Seq<Seq<char>>)>) -> Seq<char> {
    ("{\"edges\":[")@ + comma_join(edge_parts_upto(s, rm, rm.len() as int)) + ("],\"nodes\":[")@
        + comma_join(node_parts_upto(s, s.len() as int)) + ("]}")@
}

/// An article with exactly the identifier `id` stands in the index.
fn has_article_exact(contents: &ContentIndex, id: &str) -> (r: bool)
    ensures
        r == article_id_present(contents@, id@),
{
    let n = contents.len();
    for i in 0..n
        invariant
            n == contents@.len(),
            forall|j: int|
                0 <= j < i ==> !((#[trigger] contents@[j]).is_article() && contents@[j].spec_id()
                    == id@),
    {
        match contents.get(i) {
            Content::Article(a) => {
                if str_eq(a.id.as_str(), id) {
                    assert(contents@[i as int].is_article() && contents@[i as int].spec_id()
                        == id@);
                    return true;
                }
            }
            Content::Asset(_) => {}
        }
    }
    false
}

/// The JSON object of one edge, built from source and target.
fn edge_json_exec(src: &String, tgt: &String) -> (r: String)
    ensures
        r@ == edge_json(src@, tgt@),
{
    let mut out = String::from_str("{\"data\":{\"id\":");
    let mut key = src.clone();
    key.append("-");
    key.append(tgt.as_str());
    append_json_quoted(&mut out, key.as_str());
    out.append(",\"source\":");
    append_json_quoted(&mut out, src.as_str());
    out.append(",\"target\":");
    append_json_quoted(&mut out, tgt.as_str());
    out.append("}}");
    proof {
        assert(out@ =~= edge_json(src@, tgt@));
    }
    out
}

/// The JSON object of one node, built from an article.
fn node_json_exec(a: &Article) -> (r: String)
    ensures
        r@ == node_json(a.id@, a.permalink@),
{
    let mut out = String::from_str("{\"data\":{\"id\":");
    append_json_quoted(&mut out, a.id.as_str());
    out.append(",\"url\":");
    append_json_quoted(&mut out, a.permalink.as_str());
    out.append("}}");
    proof {
        assert(out@ =~= node_json(a.id@, a.permalink@));
    }
    out
}

/// Export the index and the reference map as the graph JSON text: one node
/// object per article in index order, one edge object per reference-map
/// target that names an article, duplicates kept. The node `url` field is
/// the article's permalink exactly as stored, leading slash included.
pub fn json_graph(nodes: &ContentIndex, edges: &Vec<(String, Vec<String>)>) -> (r: String)
    ensures
        r@ == graph_json(nodes@, entries_view(edges@)),
{
    let ghost cs: Seq<Content> = nodes@;
    let ghost rm: Seq<(Seq<char>, Seq<Seq<char>>)> = entries_view(edges@);
    let mut out = String::from_str("{\"edges\":[");
    let ghost mut parts: Seq<Seq<char>> = Seq::empty();
    proof {
        assert(out@ =~= ("{\"edges\":[")@ + comma_join(parts));
    }
    let mut first = true;
    let ne = edges.len();
    for i in 0..ne
        invariant
            ne == edges@.len(),
            rm == entries_view(edges@),
            cs == nodes@,
            parts == edge_parts_upto(cs, rm, i as int),
            first <==> parts.len() == 0,
            out@ == ("{\"edges\":[")@ + comma_join(parts),
    {
        let src = &edges[i].0;
        let tgts = &edges[i].1;
        proof {
            assert(rm[i as int] == entry_view(edges@[i as int]));
        }
        let nt = tgts.len();
        for j in 0..nt
            invariant
                ne == edges@.len(),
                i < ne,
                nt == tgts@.len(),
                src@ == rm[i as int].0,
                tgts.deep_view() == rm[i as int].1,
                rm == entries_view(edges@),
                cs == nodes@,
                parts + entry_edge_parts(cs, rm[i as int].0, rm[i as int].1, j as int)
                    == edge_parts_upto(cs, rm, i as int) + entry_edge_parts(
                    cs,
                    rm[i as int].0,
                    rm[i as int].1,
                    0,
                ),
                first <==> parts.len() == 0,
                out@ == ("{\"edges\":[")@ + comma_join(parts),
        {
            proof {
                assert(tgts.deep_view()[j as int] == tgts@[j as int]@);
            }
            if has_article_exact(nodes, tgts[j].as_str()) {
                let part = edge_json_exec(src, &tgts[j]);
                if first {
                    out.append(part.as_str());
                    first = false;
                } else {
                    out.append(",");
                    out.append(part.as_str());
                }
                proof {
                    lemma_comma_join_push(parts, part@);
                    parts = parts.push(part@);
                    assert(entry_edge_parts(cs, rm[i as int].0, rm[i as int].1, j as int) == seq![
                        edge_json(rm[i as int].0, tgts.deep_view()[j as int]),
                    ] + entry_edge_parts(cs, rm[i as int].0, rm[i as int].1, j + 1));
                    assert(parts.drop_last() + (seq![part@] + entry_edge_parts(
                        cs,
                        rm[i as int].0,
                        rm[i as int].1,
                        j + 1,
                    )) =~= parts + entry_edge_parts(cs, rm[i as int].0, rm[i as int].1, j + 1));
                }
            }
        }
        proof {
            assert(entry_edge_parts(cs, rm[i as int].0, rm[i as int].1, nt as int)
                =~= Seq::<Seq<char>>::empty());
            assert(parts + Seq::<Seq<char>>::empty() =~= parts);
        }
    }
    proof {
        assert(parts == edge_parts_upto(cs, rm, rm.len() as int));
    }
    let ghost eparts: Seq<Seq<char>> = parts;

    out.append("],\"nodes\":[");
    let ghost mut nparts: Seq<Seq<char>> = Seq::empty();
    let ghost mid = ("{\"edges\":[")@ + comma_join(eparts) + ("],\"nodes\":[")@;
    let mut first = true;
    let nn = nodes.len();
    for i in 0..nn
        invariant
            nn == nodes@.len(),
            cs == nodes@,
            nparts == node_parts_upto(cs, i as int),
            first <==> nparts.len() == 0,
            out@ == mid + comma_join(nparts),
            mid == ("{\"edges\":[")@ + comma_join(eparts) + ("],\"nodes\":[")@,
    {
        match nodes.get(i) {
            Content::Article(a) => {
                let part = node_json_exec(&*a);
                if first {
                    out.append(part.as_str());
                    first = false;
                } else {
                    out.append(",");
                    out.append(part.as_str());
                }
                proof {
                    lemma_comma_join_push(nparts, part@);
                    nparts = nparts.push(part@);
                }
            }
            Content::Asset(_) => {}
        }
    }
    out.append("]}");
    proof {
        assert(out@ =~= graph_json(cs, rm));
    }
    out
}

/// The abstract nodes of the export over the first `n` items: one
/// (identifier, url) pair per article, none per asset, in index order.
pub open spec fn graph_nodes_upto(s: Seq<Content>, n: int) -> Seq<(Seq<char>, Seq<char>)>
    decreases n,
{
    if n <= 0 {
        Seq::empty()
    } else {
        let prev = graph_nodes_upto(s, n - 1);
        if s[n - 1].is_article() {
            prev.push((s[n - 1].spec_id(), s[n - 1].spec_permalink()))
        } else {
            prev
        }
    }
}

/// The abstract nodes of the whole export.
pub open spec fn graph_nodes(s: Seq<Content>) -> Seq<(Seq<char>, Seq<char>)> {
    graph_nodes_upto(s, s.len() as int)
}

/// How many of the first `n` items are articles.
pub open spec fn count_articles_upto(s: Seq<Content>, n: int) -> int
    decreases n,
{
    if n <= 0 {
        0
    } else {
        count_articles_upto(s, n - 1) + if s[n - 1].is_article() {
            1int
        } else {
            0int
        }
    }
}

/// How many items of the index are articles.
pub open spec fn count_articles(s: Seq<Content>) -> int {
    count_articles_upto(s, s.len() as int)
}

/// The exported node texts are exactly the abstract nodes, serialized.
pub proof fn lemma_node_parts_abstract(s: Seq<Content>, n: int)
    requires
        0 <= n <= s.len(),
    ensures
        node_parts_upto(s, n).len() == graph_nodes_upto(s, n).len(),
        forall|j: int|
            0 <= j < node_parts_upto(s, n).len() ==> #[trigger] node_parts_upto(s, n)[j]
                == node_json(graph_nodes_upto(s, n)[j].0, graph_nodes_upto(s, n)[j].1),
    decreases n,
{
    if n > 0 {
        lemma_node_parts_abstract(s, n - 1);
    }
}

proof fn lemma_graph_nodes_provenance(s: Seq<Content>, n: int, j: int)
    requires
        0 <= n <= s.len(),
        0 <= j < graph_nodes_upto(s, n).len(),
    ensures
        exists|i: int|
            0 <= i < n && (#[trigger] s[i]).is_article() && graph_nodes_upto(s, n)[j] == (
            s[i].spec_id(),
            s[i].spec_permalink(),
            ),
    decreases n,
{
    let prev = graph_nodes_upto(s, n - 1);
    let cur = graph_nodes_upto(s, n);
    if j < prev.len() {
        lemma_graph_nodes_provenance(s, n - 1, j);
        let i = choose|i: int|
            0 <= i < n - 1 && (#[trigger] s[i]).is_article() && prev[j] == (
            s[i].spec_id(),
            s[i].spec_permalink(),
            );
        assert(cur[j] == prev[j]);
        assert(0 <= i < n && s[i].is_article() && cur[j] == (s[i].spec_id(), s[i].spec_permalink()));
    } else {
        assert(s[n - 1].is_article() && cur[j] == (s[n - 1].spec_id(), s[n - 1].spec_permalink()));
    }
}

proof fn lemma_graph_nodes_upto_props(s: Seq<Content>, n: int)
    requires
        unique_ids(s),
        0 <= n <= s.len(),
    ensures
        graph_nodes_upto(s, n).len() == count_articles_upto(s, n),
        forall|i: int|
            0 <= i < n && (#[trigger] s[i]).is_article() ==> graph_nodes_upto(s, n).contains(
                (s[i].spec_id(), s[i].spec_permalink()),
            ),
        forall|j1: int, j2: int|
            0 <= j1 < j2 < graph_nodes_upto(s, n).len() ==> (#[trigger] graph_nodes_upto(s, n)[j1]).0
                != (#[trigger] graph_nodes_upto(s, n)[j2]).0,
    decreases n,
{
    if n > 0 {
        lemma_graph_nodes_upto_props(s, n - 1);
        let prev = graph_nodes_upto(s, n - 1);
        let cur = graph_nodes_upto(s, n);
        if s[n - 1].is_article() {
            assert(cur == prev.push((s[n - 1].spec_id(), s[n - 1].spec_permalink())));
            assert forall|i: int|
                0 <= i < n && (#[trigger] s[i]).is_article() implies cur.contains(
                (s[i].spec_id(), s[i].spec_permalink()),
            ) by {
                if i == n - 1 {
                    assert(cur[cur.len() - 1] == (s[i].spec_id(), s[i].spec_permalink()));
                } else {
                    assert(prev.contains((s[i].spec_id(), s[i].spec_permalink())));
                    let j = choose|j: int|
                        0 <= j < prev.len() && prev[j] == (s[i].spec_id(), s[i].spec_permalink());
                    assert(cur[j] == (s[i].spec_id(), s[i].spec_permalink()));
                }
            }
            assert forall|j1: int, j2: int| 0 <= j1 < j2 < cur.len() implies (
            #[trigger] cur[j1]).0 != (#[trigger] cur[j2]).0 by {
                if j2 == cur.len() - 1 {
                    assert(cur[j1] == prev[j1]);
                    lemma_graph_nodes_provenance(s, n - 1, j1);
                    let i1 = choose|i: int|
                        0 <= i < n - 1 && (#[trigger] s[i]).is_article() && prev[j1] == (
                        s[i].spec_id(),
                        s[i].spec_permalink(),
                        );
                    assert(s[i1].spec_id() != s[n - 1].spec_id());
                }
            }
        } else {
            assert(cur == prev);
        }
    }
}

/// Law: the graph export holds exactly one node per article and none per
/// asset, whatever the index holds. The node list is as long as the
/// article count, every article's (identifier, permalink) pair is a node,
/// node identifiers are pairwise distinct, and no asset identifier ever
/// appears as a node.
pub proof fn lemma_one_node_per_article(s: Seq<Content>)
    requires
        unique_ids(s),
    ensures
        graph_nodes(s).len() == count_articles(s),
        forall|i: int|
            0 <= i < s.len() && (#[trigger] s[i]).is_article() ==> graph_nodes(s).contains(
                (s[i].spec_id(), s[i].spec_permalink()),
            ),
        forall|j1: int, j2: int|
            0 <= j1 < j2 < graph_nodes(s).len() ==> (#[trigger] graph_nodes(s)[j1]).0 != (
            #[trigger] graph_nodes(s)[j2]).0,
        forall|i: int, j: int|
            0 <= i < s.len() && (#[trigger] s[i]).is_asset() && 0 <= j < graph_nodes(s).len()
                ==> (#[trigger] graph_nodes(s)[j]).0 != s[i].spec_id(),
{
    lemma_graph_nodes_upto_props(s, s.len() as int);
    assert forall|i: int, j: int|
        0 <= i < s.len() && (#[trigger] s[i]).is_asset() && 0 <= j < graph_nodes(s).len() implies (
    #[trigger] graph_nodes(s)[j]).0 != s[i].spec_id() by {
        lemma_graph_nodes_provenance(s, s.len() as int, j);
        let i2 = choose|i2: int|
            0 <= i2 < s.len() && (#[trigger] s[i2]).is_article() && graph_nodes_upto(
                s,
                s.len() as int,
            )[j] == (s[i2].spec_id(), s[i2].spec_permalink());
        if graph_nodes(s)[j].0 == s[i].spec_id() {
            assert(s[i2].spec_id() == s[i].spec_id());
            assert(i2 != i);
        }
    }
}

/// How many targets of `tgts` from `k` on name an article of the index.
pub open spec fn count_entry_targets(s: Seq<Content>, tgts: Seq<Seq<char>>, k: int) -> int
    decreases tgts.len() - k,
{
    if k < 0 || k >= tgts.len() {
        0
    } else {
        (if article_id_present(s, tgts[k]) {
            1int
        } else {
            0int
        }) + count_entry_targets(s, tgts, k + 1)
    }
}

/// How many targets of the first `n` reference-map entries name an
/// article.
pub open spec fn count_article_targets_upto(
    s: Seq<Content>,
    rm: Seq<(Seq<char>, Seq<Seq<char>>)>,
    n: int,
) -> int
    decreases n,
{
    if n <= 0 {
        0
    } else {
        count_article_targets_upto(s, rm, n - 1) + count_entry_targets(s, rm[n - 1].1, 0)
    }
}

proof fn lemma_entry_edge_count(s: Seq<Content>, src: Seq<char>, tgts: Seq<Seq<char>>, k: int)
    ensures
        entry_edge_parts(s, src, tgts, k).len() == count_entry_targets(s, tgts, k),
    decreases tgts.len() - k,
{
    if 0 <= k < tgts.len() {
        lemma_entry_edge_count(s, src, tgts, k + 1);
    }
}

/// Law: the number of edge objects in the export equals the number of
/// reference-map targets that name an article, duplicates included.
pub proof fn lemma_edge_count(s: Seq<Content>, rm: Seq<(Seq<char>, Seq<Seq<char>>)>)
    ensures
        edge_parts_upto(s, rm, rm.len() as int).len() == count_article_targets_upto(
            s,
            rm,
            rm.len() as int,
        ),
{
    lemma_edge_count_upto(s, rm, rm.len() as int);
}

proof fn lemma_edge_count_upto(s: Seq<Content>, rm: Seq<(Seq<char>, Seq<Seq<char>>)>, n: int)
    ensures
        edge_parts_upto(s, rm, n).len() == count_article_targets_upto(s, rm, n),
    decreases n,
{
    if n > 0 {
        lemma_edge_count_upto(s, rm, n - 1);
        lemma_entry_edge_count(s, rm[n - 1].0, rm[n - 1].1, 0);
    }
}

/// Every article of the index owns exactly its entry in the reference
/// map: the entry's key is the article's identifier and its targets are
/// what the article's raw body references.
pub proof fn lemma_reference_map_has_article(s: Seq<Content>, i: int)
    requires
        0 <= i < s.len(),
        s[i].is_article(),
    ensures
        exists|j: int|
            0 <= j < reference_map(s).len() && #[trigger] reference_map(s)[j] == (
            s[i].spec_id(),
            crate::links::extract_refs(s, s[i].spec_article().raw@),
            ),
{
    lemma_rm_upto_has(s, i, s.len() as int);
    let entry = (s[i].spec_id(), crate::links::extract_refs(s, s[i].spec_article().raw@));
    let j = choose|j: int|
        0 <= j < reference_map_upto(s, s.len() as int).len() && #[trigger] reference_map_upto(
            s,
            s.len() as int,
        )[j] == entry;
    assert(reference_map(s)[j] == entry);
}

proof fn lemma_rm_upto_has(s: Seq<Content>, i: int, n: int)
    requires
        0 <= i < n <= s.len(),
        s[i].is_article(),
    ensures
        exists|j: int|
            0 <= j < reference_map_upto(s, n).len() && #[trigger] reference_map_upto(s, n)[j] == (
            s[i].spec_id(),
            crate::links::extract_refs(s, s[i].spec_article().raw@),
            ),
    decreases n,
{
    let entry = (s[i].spec_id(), crate::links::extract_refs(s, s[i].spec_article().raw@));
    if i == n - 1 {
        let cur = reference_map_upto(s, n);
        assert(cur[cur.len() - 1] == entry);
    } else {
        lemma_rm_upto_has(s, i, n - 1);
        let prev = reference_map_upto(s, n - 1);
        let j = choose|j: int| 0 <= j < prev.len() && #[trigger] prev[j] == entry;
        assert(reference_map_upto(s, n)[j] == entry);
    }
}

proof fn lemma_rm_upto_entry_provenance(s: Seq<Content>, n: int, j: int)
    requires
        0 <= n <= s.len(),
        0 <= j < reference_map_upto(s, n).len(),
    ensures
        exists|i: int|
            0 <= i < n && (#[trigger] s[i]).is_article() && reference_map_upto(s, n)[j] == (
            s[i].spec_id(),
            crate::links::extract_refs(s, s[i].spec_article().raw@),
            ),
    decreases n,
{
    let prev = reference_map_upto(s, n - 1);
    let cur = reference_map_upto(s, n);
    if j < prev.len() {
        lemma_rm_upto_entry_provenance(s, n - 1, j);
        let i = choose|i: int|
            0 <= i < n - 1 && (#[trigger] s[i]).is_article() && prev[j] == (
            s[i].spec_id(),
            crate::links::extract_refs(s, s[i].spec_article().raw@),
            );
        assert(cur[j] == prev[j]);
        assert(0 <= i < n && s[i].is_article() && cur[j] == (
            s[i].spec_id(),
            crate::links::extract_refs(s, s[i].spec_article().raw@),
        ));
    } else {
        assert(s[n - 1].is_article() && cur[j] == (
            s[n - 1].spec_id(),
            crate::links::extract_refs(s, s[n - 1].spec_article().raw@),
        ));
    }
}

/// Law: a token that no content item resolves is absent from every entry
/// of the reference map.
pub proof fn lemma_unresolved_absent_from_map(s: Seq<Content>, t: Seq<char>, j: int)
    requires
        resolve_token(s, t) is None,
        0 <= j < reference_map(s).len(),
    ensures
        !reference_map(s)[j].1.contains(t),
{
    lemma_rm_upto_entry_provenance(s, s.len() as int, j);
    let i = choose|i: int|
        0 <= i < s.len() && (#[trigger] s[i]).is_article() && reference_map_upto(
            s,
            s.len() as int,
        )[j] == (s[i].spec_id(), crate::links::extract_refs(s, s[i].spec_article().raw@));
    crate::links::lemma_unresolved_token_absent(s, s[i].spec_article().raw@, t);
}

/// Character-wise string equality, stated over the views.
pub fn str_eq(a: &str, b: &str) -> (r: bool)
    ensures
        r == (a@ == b@),
{
    let na = a.unicode_len();
    let nb = b.unicode_len();
    if na != nb {
        return false;
    }
    for i in 0..na
        invariant
            na == a@.len(),
            na == b@.len(),
            forall|j: int| 0 <= j < i ==> a@[j] == b@[j],
    {
        if a.get_char(i) != b.get_char(i) {
            return false;
        }
    }
    proof {
        assert(a@ =~= b@);
    }
    true
}

} // verus!
