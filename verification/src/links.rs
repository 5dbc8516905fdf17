//! Wikilink scanning: recognizing the three link syntaxes in an article
//! body and resolving or rewriting them.
//!
//! The three syntaxes, over a token alphabet of word characters, whitespace,
//! `/`, `.`, `-` and `_`:
//!
//! - image link: `![[TARGET]]`
//! - aliased link: `[[TARGET|LABEL]]`, not preceded by `!`
//! - plain link: `[[TARGET]]`, not preceded by `!`

use crate::content::{lookup_article, lookup_asset, Article, Content, ContentIndex};
use vstd::prelude::*;

verus! {

/// A word character: an ASCII letter, a digit, or an underscore.
pub open spec fn is_word_char(c: char) -> bool {
    ('a' <= c && c <= 'z') || ('A' <= c && c <= 'Z') || ('0' <= c && c <= '9') || c == '_'
}

/// A whitespace character.
pub open spec fn is_space_char(c: char) -> bool {
    c == ' ' || c == '\t' || c == '\n' || c == '\r'
}

/// A character that may appear inside a link token.
pub open spec fn is_token_char(c: char) -> bool {
    is_word_char(c) || is_space_char(c) || c == '/' || c == '.' || c == '-'
}

/// First position at or after `k` that does not hold a token character
/// (`s.len()` when the token run reaches the end).
pub open spec fn token_run_end(s: Seq<char>, k: int) -> int
    decreases s.len() - k,
{
    if k < 0 || k >= s.len() {
        k
    } else if is_token_char(s[k]) {
        token_run_end(s, k + 1)
    } else {
        k
    }
}

pub proof fn lemma_token_run_end(s: Seq<char>, k: int)
    requires
        0 <= k <= s.len(),
    ensures
        k <= token_run_end(s, k) <= s.len(),
        forall|j: int| k <= j < token_run_end(s, k) ==> is_token_char(#[trigger] s[j]),
        token_run_end(s, k) < s.len() ==> !is_token_char(s[token_run_end(s, k)]),
    decreases s.len() - k,
{
    if k < s.len() && is_token_char(s[k]) {
        lemma_token_run_end(s, k + 1);
    }
}

/// A word character, executable form.
pub fn word_char(c: char) -> (r: bool)
    ensures
        r == is_word_char(c),
{
    ('a' <= c && c <= 'z') || ('A' <= c && c <= 'Z') || ('0' <= c && c <= '9') || c == '_'
}

/// A token character, executable form.
pub fn token_char(c: char) -> (r: bool)
    ensures
        r == is_token_char(c),
{
    word_char(c) || c == ' ' || c == '\t' || c == '\n' || c == '\r' || c == '/' || c == '.' || c
        == '-'
}

/// An image link `![[TARGET]]` starts at `i`: `![[`, a nonempty token run,
/// then `]]`.
pub open spec fn image_match_at(s: Seq<char>, i: int) -> bool {
    &&& 0 <= i
    &&& i + 3 <= s.len()
    &&& s[i] == '!'
    &&& s[i + 1] == '['
    &&& s[i + 2] == '['
    &&& {
        let m = token_run_end(s, i + 3);
        m > i + 3 && m + 2 <= s.len() && s[m] == ']' && s[m + 1] == ']'
    }
}

/// End of the image link starting at `i` (one past the closing `]]`).
pub open spec fn image_end(s: Seq<char>, i: int) -> int {
    token_run_end(s, i + 3) + 2
}

/// The raw target token of the image link starting at `i`.
pub open spec fn image_target(s: Seq<char>, i: int) -> Seq<char> {
    s.subrange(i + 3, token_run_end(s, i + 3))
}

/// `[[` stands at `i` and is not preceded by `!`.
pub open spec fn wiki_open_at(s: Seq<char>, i: int) -> bool {
    &&& 0 <= i
    &&& i + 2 <= s.len()
    &&& s[i] == '['
    &&& s[i + 1] == '['
    &&& (i == 0 || s[i - 1] != '!')
}

/// An aliased link `[[TARGET|LABEL]]` starts at `i`, not preceded by `!`.
pub open spec fn alias_match_at(s: Seq<char>, i: int) -> bool {
    &&& wiki_open_at(s, i)
    &&& {
        let m = token_run_end(s, i + 2);
        let m2 = token_run_end(s, m + 1);
        &&& m > i + 2
        &&& m < s.len()
        &&& s[m] == '|'
        &&& m2 > m + 1
        &&& m2 + 2 <= s.len()
        &&& s[m2] == ']'
        &&& s[m2 + 1] == ']'
    }
}

/// End of the aliased link starting at `i`.
pub open spec fn alias_end(s: Seq<char>, i: int) -> int {
    token_run_end(s, token_run_end(s, i + 2) + 1) + 2
}

/// The raw target token of the aliased link starting at `i`.
pub open spec fn alias_target(s: Seq<char>, i: int) -> Seq<char> {
    s.subrange(i + 2, token_run_end(s, i + 2))
}

/// The label of the aliased link starting at `i`.
pub open spec fn alias_label(s: Seq<char>, i: int) -> Seq<char> {
    s.subrange(token_run_end(s, i + 2) + 1, token_run_end(s, token_run_end(s, i + 2) + 1))
}

/// A plain link `[[TARGET]]` starts at `i`, not preceded by `!`.
pub open spec fn normal_match_at(s: Seq<char>, i: int) -> bool {
    &&& wiki_open_at(s, i)
    &&& {
        let m = token_run_end(s, i + 2);
        m > i + 2 && m + 2 <= s.len() && s[m] == ']' && s[m + 1] == ']'
    }
}

/// End of the plain link starting at `i`.
pub open spec fn normal_end(s: Seq<char>, i: int) -> int {
    token_run_end(s, i + 2) + 2
}

/// The raw target token of the plain link starting at `i`.
pub open spec fn normal_target(s: Seq<char>, i: int) -> Seq<char> {
    s.subrange(i + 2, token_run_end(s, i + 2))
}

/// Identifiers of the assets the image links at or after `pos` resolve to,
/// in textual order. An unresolved token is silently omitted.
pub open spec fn image_refs_from(s: Seq<Content>, body: Seq<char>, pos: int) -> Seq<Seq<char>>
    decreases body.len() - pos,
{
    if pos < 0 || pos >= body.len() {
        Seq::empty()
    } else if image_match_at(body, pos) {
        let rest = image_refs_from(s, body, image_end(body, pos));
        match lookup_asset(s, image_target(body, pos)) {
            Some(a) => seq![a.id@] + rest,
            None => rest,
        }
    } else {
        image_refs_from(s, body, pos + 1)
    }
}

/// Identifiers of the articles the aliased links at or after `pos` resolve
/// to, in textual order.
pub open spec fn alias_refs_from(s: Seq<Content>, body: Seq<char>, pos: int) -> Seq<Seq<char>>
    decreases body.len() - pos,
{
    if pos < 0 || pos >= body.len() {
        Seq::empty()
    } else if alias_match_at(body, pos) {
        let rest = alias_refs_from(s, body, alias_end(body, pos));
        match lookup_article(s, alias_target(body, pos)) {
            Some(a) => seq![a.id@] + rest,
            None => rest,
        }
    } else {
        alias_refs_from(s, body, pos + 1)
    }
}

/// Identifiers of the articles the plain links at or after `pos` resolve
/// to, in textual order.
pub open spec fn normal_refs_from(s: Seq<Content>, body: Seq<char>, pos: int) -> Seq<Seq<char>>
    decreases body.len() - pos,
{
    if pos < 0 || pos >= body.len() {
        Seq::empty()
    } else if normal_match_at(body, pos) {
        let rest = normal_refs_from(s, body, normal_end(body, pos));
        match lookup_article(s, normal_target(body, pos)) {
            Some(a) => seq![a.id@] + rest,
            None => rest,
        }
    } else {
        normal_refs_from(s, body, pos + 1)
    }
}

/// Everything a body references, resolved against the index: all image
/// links in textual order, then all aliased links, then all plain links.
pub open spec fn extract_refs(s: Seq<Content>, body: Seq<char>) -> Seq<Seq<char>> {
    image_refs_from(s, body, 0) + alias_refs_from(s, body, 0) + normal_refs_from(s, body, 0)
}

/// What the image link at `pos` is rewritten to, when its token resolves:
/// a markdown image pointing at the asset's permalink. Permalinks carry
/// their own leading `/`; the rewrite inserts none.
pub open spec fn image_replacement(s: Seq<Content>, body: Seq<char>, pos: int) -> Seq<char> {
    match lookup_asset(s, image_target(body, pos)) {
        Some(a) => ("![Image](")@ + a.permalink@ + (")")@,
        None => Seq::empty(),
    }
}

/// What the aliased link at `pos` is rewritten to: the label, linking to
/// the article's permalink.
pub open spec fn alias_replacement(s: Seq<Content>, body: Seq<char>, pos: int) -> Seq<char> {
    match lookup_article(s, alias_target(body, pos)) {
        Some(a) => ("[")@ + alias_label(body, pos) + ("](")@ + a.permalink@ + (")")@,
        None => Seq::empty(),
    }
}

/// What the plain link at `pos` is rewritten to: the raw token as its own
/// label, linking to the article's permalink.
pub open spec fn normal_replacement(s: Seq<Content>, body: Seq<char>, pos: int) -> Seq<char> {
    match lookup_article(s, normal_target(body, pos)) {
        Some(a) => ("[")@ + normal_target(body, pos) + ("](")@ + a.permalink@ + (")")@,
        None => Seq::empty(),
    }
}

/// The body from `pos` on with every resolved wikilink rewritten in place.
/// A link whose token does not resolve is left as its literal source text;
/// every other character is copied unchanged.
pub open spec fn replaced_from(s: Seq<Content>, body: Seq<char>, pos: int) -> Seq<char>
    decreases body.len() - pos,
{
    if pos < 0 || pos >= body.len() {
        Seq::empty()
    } else if image_match_at(body, pos) && lookup_asset(s, image_target(body, pos)) is Some {
        image_replacement(s, body, pos) + replaced_from(s, body, image_end(body, pos))
    } else if alias_match_at(body, pos) && lookup_article(s, alias_target(body, pos)) is Some {
        alias_replacement(s, body, pos) + replaced_from(s, body, alias_end(body, pos))
    } else if normal_match_at(body, pos) && lookup_article(s, normal_target(body, pos)) is Some {
        normal_replacement(s, body, pos) + replaced_from(s, body, normal_end(body, pos))
    } else {
        seq![body[pos]] + replaced_from(s, body, pos + 1)
    }
}

/// The whole body, resolved.
pub open spec fn replaced_body(s: Seq<Content>, body: Seq<char>) -> Seq<char> {
    replaced_from(s, body, 0)
}

/// Scan the token run that starts at `k`.
fn token_run_end_exec(s: &str, k: usize) -> (r: usize)
    requires
        k <= s@.len(),
    ensures
        r == token_run_end(s@, k as int),
        k <= r <= s@.len(),
{
    proof {
        lemma_token_run_end(s@, k as int);
    }
    let n = s.unicode_len();
    let mut j = k;
    while j < n && token_char(s.get_char(j))
        invariant
            k <= j <= n,
            n == s@.len(),
            token_run_end(s@, k as int) == token_run_end(s@, j as int),
        decreases n - j,
    {
        j = j + 1;
    }
    j
}

/// Recognize an image link at `i`; returns one past its closing `]]`.
fn image_match_exec(s: &str, i: usize, n: usize) -> (r: Option<usize>)
    requires
        i < n,
        n == s@.len(),
    ensures
        r is Some <==> image_match_at(s@, i as int),
        r matches Some(e) ==> e == image_end(s@, i as int) && i < e <= n,
{
    if !(s.get_char(i) == '!' && i + 1 < n && s.get_char(i + 1) == '[' && i + 2 < n && s.get_char(
        i + 2,
    ) == '[') {
        return None;
    }
    let m = token_run_end_exec(s, i + 3);
    if m > i + 3 && m < n - 1 && s.get_char(m) == ']' && s.get_char(m + 1) == ']' {
        Some(m + 2)
    } else {
        None
    }
}

/// Recognize an aliased link at `i`; returns the ends of the target token,
/// of the label, and of the whole span.
fn alias_match_exec(s: &str, i: usize, n: usize) -> (r: Option<(usize, usize, usize)>)
    requires
        i < n,
        n == s@.len(),
    ensures
        r is Some <==> alias_match_at(s@, i as int),
        r matches Some((m, m2, e)) ==> m == token_run_end(s@, i + 2) && m2 == token_run_end(
            s@,
            m + 1,
        ) && e == alias_end(s@, i as int) && i < e <= n && i + 2 < m && m + 1 < m2,
{
    if !(s.get_char(i) == '[' && i + 1 < n && s.get_char(i + 1) == '[' && (i == 0 || s.get_char(
        i - 1,
    ) != '!')) {
        return None;
    }
    let m = token_run_end_exec(s, i + 2);
    if !(m > i + 2 && m < n && s.get_char(m) == '|') {
        return None;
    }
    let m2 = token_run_end_exec(s, m + 1);
    if m2 > m + 1 && m2 < n - 1 && s.get_char(m2) == ']' && s.get_char(m2 + 1) == ']' {
        Some((m, m2, m2 + 2))
    } else {
        None
    }
}

/// Recognize a plain link at `i`; returns the end of the target token and
/// of the whole span.
fn normal_match_exec(s: &str, i: usize, n: usize) -> (r: Option<(usize, usize)>)
    requires
        i < n,
        n == s@.len(),
    ensures
        r is Some <==> normal_match_at(s@, i as int),
        r matches Some((m, e)) ==> m == token_run_end(s@, i + 2) && e == normal_end(s@, i as int)
            && i < e <= n && i + 2 < m,
{
    if !(s.get_char(i) == '[' && i + 1 < n && s.get_char(i + 1) == '[' && (i == 0 || s.get_char(
        i - 1,
    ) != '!')) {
        return None;
    }
    let m = token_run_end_exec(s, i + 2);
    if m > i + 2 && m < n - 1 && s.get_char(m) == ']' && s.get_char(m + 1) == ']' {
        Some((m, m + 2))
    } else {
        None
    }
}

/// Run the extractor over an article's raw body: every resolved image link
/// target first, then every resolved aliased link target, then every
/// resolved plain link target, each as the canonical identifier of the item
/// it resolves to. Unresolved tokens are omitted.
pub fn extract(contents: &ContentIndex, article: &Article) -> (r: Vec<String>)
    ensures
        r.deep_view() == extract_refs(contents@, article.raw@),
{
    let body: &str = article.raw.as_str();
    let n = body.unicode_len();
    let ghost cs: Seq<Content> = contents@;
    let ghost b: Seq<char> = body@;
    let mut out: Vec<String> = Vec::new();
    proof {
        assert(out.deep_view() =~= Seq::<Seq<char>>::empty());
        assert(Seq::<Seq<char>>::empty() + image_refs_from(cs, b, 0) =~= image_refs_from(cs, b, 0));
    }

    let mut pos: usize = 0;
    while pos < n
        invariant
            pos <= n,
            n == b.len(),
            b == body@,
            cs == contents@,
            out.deep_view() + image_refs_from(cs, b, pos as int) == image_refs_from(cs, b, 0),
        decreases n - pos,
    {
        let ghost prev = out.deep_view();
        match image_match_exec(body, pos, n) {
            Some(e) => {
                let token = body.substring_char(pos + 3, e - 2);
                proof {
                    assert(token@ == image_target(b, pos as int));
                }
                match crate::content::get_asset(contents, token) {
                    Some(asset) => {
                        out.push(asset.id.clone());
                        proof {
                            assert(out.deep_view() =~= prev.push(asset.id@));
                            assert(prev.push(asset.id@) + image_refs_from(cs, b, e as int) =~= prev
                                + (seq![asset.id@] + image_refs_from(cs, b, e as int)));
                        }
                    }
                    None => {}
                }
                pos = e;
            }
            None => {
                pos = pos + 1;
            }
        }
    }

    let ghost img_all = image_refs_from(cs, b, 0);
    assert(out.deep_view() =~= img_all);

    let mut pos: usize = 0;
    while pos < n
        invariant
            pos <= n,
            n == b.len(),
            b == body@,
            cs == contents@,
            out.deep_view() + alias_refs_from(cs, b, pos as int) == img_all + alias_refs_from(
                cs,
                b,
                0,
            ),
        decreases n - pos,
    {
        let ghost prev = out.deep_view();
        match alias_match_exec(body, pos, n) {
            Some((m, _m2, e)) => {
                let token = body.substring_char(pos + 2, m);
                proof {
                    assert(token@ == alias_target(b, pos as int));
                }
                match crate::content::get_article(contents, token) {
                    Some(a) => {
                        out.push(a.id.clone());
                        proof {
                            assert(out.deep_view() =~= prev.push(a.id@));
                            assert(prev.push(a.id@) + alias_refs_from(cs, b, e as int) =~= prev + (
                            seq![a.id@] + alias_refs_from(cs, b, e as int)));
                        }
                    }
                    None => {}
                }
                pos = e;
            }
            None => {
                pos = pos + 1;
            }
        }
    }

    let ghost imgal_all = img_all + alias_refs_from(cs, b, 0);
    assert(out.deep_view() =~= imgal_all);

    let mut pos: usize = 0;
    while pos < n
        invariant
            pos <= n,
            n == b.len(),
            b == body@,
            cs == contents@,
            out.deep_view() + normal_refs_from(cs, b, pos as int) == imgal_all + normal_refs_from(
                cs,
                b,
                0,
            ),
        decreases n - pos,
    {
        let ghost prev = out.deep_view();
        match normal_match_exec(body, pos, n) {
            Some((m, e)) => {
                let token = body.substring_char(pos + 2, m);
                proof {
                    assert(token@ == normal_target(b, pos as int));
                }
                match crate::content::get_article(contents, token) {
                    Some(a) => {
                        out.push(a.id.clone());
                        proof {
                            assert(out.deep_view() =~= prev.push(a.id@));
                            assert(prev.push(a.id@) + normal_refs_from(cs, b, e as int) =~= prev + (
                            seq![a.id@] + normal_refs_from(cs, b, e as int)));
                        }
                    }
                    None => {}
                }
                pos = e;
            }
            None => {
                pos = pos + 1;
            }
        }
    }

    proof {
        assert(out.deep_view() =~= extract_refs(cs, b));
    }
    out
}

/// Resolve the wikilinks of an article's raw body, returning a copy of the
/// article whose body has every resolved link rewritten and every
/// unresolved link left as its literal source text.
pub fn replace(contents: &ContentIndex, article: &Article) -> (r: Article)
    ensures
        r.id@ == article.id@,
        r.permalink@ == article.permalink@,
        r.src@ == article.src@,
        r.meta is Some <==> article.meta is Some,
        r.content is Some <==> article.content is Some,
        r.raw@ == replaced_body(contents@, article.raw@),
{
    let body: &str = article.raw.as_str();
    let n = body.unicode_len();
    let ghost cs: Seq<Content> = contents@;
    let ghost b: Seq<char> = body@;
    let mut out: String = String::new();
    proof {
        assert(Seq::<char>::empty() + replaced_from(cs, b, 0) =~= replaced_from(cs, b, 0));
    }

    let mut pos: usize = 0;
    while pos < n
        invariant
            pos <= n,
            n == b.len(),
            b == body@,
            cs == contents@,
            out@ + replaced_from(cs, b, pos as int) == replaced_from(cs, b, 0),
        decreases n - pos,
    {
        let ghost prev = out@;
        let mut replaced = false;
        if let Some(e) = image_match_exec(body, pos, n) {
            let token = body.substring_char(pos + 3, e - 2);
            proof {
                assert(token@ == image_target(b, pos as int));
            }
            if let Some(asset) = crate::content::get_asset(contents, token) {
                out.append("![Image](");
                out.append(asset.permalink.as_str());
                out.append(")");
                proof {
                    assert(out@ =~= prev + image_replacement(cs, b, pos as int));
                    assert(prev + image_replacement(cs, b, pos as int) + replaced_from(
                        cs,
                        b,
                        e as int,
                    ) =~= prev + (image_replacement(cs, b, pos as int) + replaced_from(
                        cs,
                        b,
                        e as int,
                    )));
                }
                pos = e;
                replaced = true;
            }
        } else if let Some((m, _m2, e)) = alias_match_exec(body, pos, n) {
            let token = body.substring_char(pos + 2, m);
            proof {
                assert(token@ == alias_target(b, pos as int));
            }
            if let Some(a) = crate::content::get_article(contents, token) {
                let label = body.substring_char(m + 1, e - 2);
                proof {
                    assert(label@ == alias_label(b, pos as int));
                }
                out.append("[");
                out.append(label);
                out.append("](");
                out.append(a.permalink.as_str());
                out.append(")");
                proof {
                    assert(out@ =~= prev + alias_replacement(cs, b, pos as int));
                    assert(prev + alias_replacement(cs, b, pos as int) + replaced_from(
                        cs,
                        b,
                        e as int,
                    ) =~= prev + (alias_replacement(cs, b, pos as int) + replaced_from(
                        cs,
                        b,
                        e as int,
                    )));
                }
                pos = e;
                replaced = true;
            }
        } else if let Some((m, e)) = normal_match_exec(body, pos, n) {
            let token = body.substring_char(pos + 2, m);
            proof {
                assert(token@ == normal_target(b, pos as int));
            }
            if let Some(a) = crate::content::get_article(contents, token) {
                out.append("[");
                out.append(token);
                out.append("](");
                out.append(a.permalink.as_str());
                out.append(")");
                proof {
                    assert(out@ =~= prev + normal_replacement(cs, b, pos as int));
                    assert(prev + normal_replacement(cs, b, pos as int) + replaced_from(
                        cs,
                        b,
                        e as int,
                    ) =~= prev + (normal_replacement(cs, b, pos as int) + replaced_from(
                        cs,
                        b,
                        e as int,
                    )));
                }
                pos = e;
                replaced = true;
            }
        }
        if !replaced {
            let ch = body.substring_char(pos, pos + 1);
            out.append(ch);
            proof {
                assert(ch@ =~= seq![b[pos as int]]);
                assert(prev + seq![b[pos as int]] + replaced_from(cs, b, pos + 1) =~= prev + (seq![
                    b[pos as int],
                ] + replaced_from(cs, b, pos + 1)));
            }
            pos = pos + 1;
        }
    }
    proof {
        assert(out@ =~= replaced_from(cs, b, 0));
    }
    Article {
        id: article.id.clone(),
        permalink: article.permalink.clone(),
        src: article.src.clone(),
        meta: article.meta.clone(),
        content: article.content.clone(),
        raw: out,
    }
}

/// A wikilink of some syntax starts at `i`.
pub open spec fn link_match_at(body: Seq<char>, i: int) -> bool {
    image_match_at(body, i) || alias_match_at(body, i) || normal_match_at(body, i)
}

/// End of the wikilink starting at `i`.
pub open spec fn link_end(body: Seq<char>, i: int) -> int {
    if image_match_at(body, i) {
        image_end(body, i)
    } else if alias_match_at(body, i) {
        alias_end(body, i)
    } else {
        normal_end(body, i)
    }
}

/// No wikilink syntax remains in the body.
pub open spec fn link_free(body: Seq<char>) -> bool {
    forall|i: int| !(#[trigger] link_match_at(body, i))
}

/// Law: replace mode is a no-op on an already-resolved body. A body with
/// no remaining wikilink syntax comes out of replace mode unchanged, so
/// running replace mode on it any number of times changes nothing.
pub proof fn lemma_replace_noop_on_link_free(s: Seq<Content>, body: Seq<char>)
    requires
        link_free(body),
    ensures
        replaced_body(s, body) == body,
{
    lemma_replace_noop_from(s, body, 0);
    assert(body.skip(0) =~= body);
}

proof fn lemma_replace_noop_from(s: Seq<Content>, body: Seq<char>, pos: int)
    requires
        link_free(body),
        0 <= pos <= body.len(),
    ensures
        replaced_from(s, body, pos) == body.skip(pos),
    decreases body.len() - pos,
{
    if pos >= body.len() {
        assert(body.skip(pos) =~= Seq::<char>::empty());
    } else {
        assert(!link_match_at(body, pos));
        lemma_replace_noop_from(s, body, pos + 1);
        assert(seq![body[pos]] + body.skip(pos + 1) =~= body.skip(pos));
    }
}

/// A token character is neither `!` nor `[` nor `]` nor `|`.
proof fn lemma_token_char_shape(c: char)
    ensures
        is_token_char(c) ==> c != '!' && c != '[' && c != ']' && c != '|',
{
}

/// No wikilink starts strictly inside another: the spans of two links
/// never overlap.
pub proof fn lemma_links_disjoint(body: Seq<char>, p: int, q: int)
    requires
        link_match_at(body, p),
        link_match_at(body, q),
        p < q,
    ensures
        link_end(body, p) <= q,
{
    if q < link_end(body, p) {
        if image_match_at(body, p) {
            let m = token_run_end(body, p + 3);
            lemma_token_run_end(body, p + 3);
            assert(body[p + 1] == '[' && body[p + 2] == '[');
            // positions p+3 .. m hold token characters; m and m+1 hold `]`
            if q == p + 1 {
                // `[[` stands here, but it is preceded by `!`
                assert(!image_match_at(body, q));
                assert(!wiki_open_at(body, q));
            } else if q == p + 2 {
                assert(body[q + 1] != '[') by {
                    lemma_token_char_shape(body[p + 3]);
                }
                assert(!image_match_at(body, q)) by {
                    lemma_token_char_shape(body[p + 3]);
                }
            } else if q < m {
                lemma_token_char_shape(body[q]);
            } else {
                // q is m or m+1, holding `]`
                assert(body[q] == ']');
            }
        } else {
            let m = token_run_end(body, p + 2);
            lemma_token_run_end(body, p + 2);
            assert(body[p] == '[' && body[p + 1] == '[');
            if alias_match_at(body, p) {
                let m2 = token_run_end(body, m + 1);
                lemma_token_run_end(body, m + 1);
                if q == p + 1 {
                    assert(body[q + 1] != '[') by {
                        lemma_token_char_shape(body[p + 2]);
                    }
                } else if q < m {
                    lemma_token_char_shape(body[q]);
                } else if q == m {
                    assert(body[q] == '|');
                } else if q < m2 {
                    lemma_token_char_shape(body[q]);
                } else {
                    assert(body[q] == ']');
                }
            } else {
                if q == p + 1 {
                    assert(body[q + 1] != '[') by {
                        lemma_token_char_shape(body[p + 2]);
                    }
                } else if q < m {
                    lemma_token_char_shape(body[q]);
                } else {
                    assert(body[q] == ']');
                }
            }
        }
    }
}

/// `needle` occurs in `hay` as one contiguous run.
pub open spec fn contains_seq(hay: Seq<char>, needle: Seq<char>) -> bool {
    exists|k: int|
        0 <= k && k + needle.len() <= hay.len() && #[trigger] hay.subrange(
            k,
            k + needle.len() as int,
        ) == needle
}

/// The wikilink at `i` does not resolve against the index.
pub open spec fn unresolved_link_at(s: Seq<Content>, body: Seq<char>, i: int) -> bool {
    if image_match_at(body, i) {
        lookup_asset(s, image_target(body, i)) is None
    } else if alias_match_at(body, i) {
        lookup_article(s, alias_target(body, i)) is None
    } else {
        lookup_article(s, normal_target(body, i)) is None
    }
}

proof fn lemma_link_end_bounds(body: Seq<char>, i: int)
    requires
        link_match_at(body, i),
    ensures
        i < link_end(body, i) <= body.len(),
{
}

proof fn lemma_contains_seq_shift(x: Seq<char>, t: Seq<char>, needle: Seq<char>)
    requires
        contains_seq(t, needle),
    ensures
        contains_seq(x + t, needle),
{
    let k = choose|k: int|
        0 <= k && k + needle.len() <= t.len() && #[trigger] t.subrange(k, k + needle.len() as int)
            == needle;
    assert((x + t).subrange(x.len() + k, x.len() + k + needle.len() as int) =~= t.subrange(
        k,
        k + needle.len() as int,
    ));
}

proof fn lemma_span_tail(s: Seq<Content>, body: Seq<char>, pos: int, q: int)
    requires
        link_match_at(body, pos),
        pos < q <= link_end(body, pos),
    ensures
        replaced_from(s, body, q) == body.subrange(q, link_end(body, pos)) + replaced_from(
            s,
            body,
            link_end(body, pos),
        ),
    decreases link_end(body, pos) - q,
{
    lemma_link_end_bounds(body, pos);
    let e = link_end(body, pos);
    if q == e {
        assert(body.subrange(q, e) =~= Seq::<char>::empty());
        assert(body.subrange(q, e) + replaced_from(s, body, e) =~= replaced_from(s, body, e));
    } else {
        if link_match_at(body, q) {
            lemma_links_disjoint(body, pos, q);
        }
        assert(!image_match_at(body, q) && !alias_match_at(body, q) && !normal_match_at(body, q));
        lemma_span_tail(s, body, pos, q + 1);
        assert(seq![body[q]] + (body.subrange(q + 1, e) + replaced_from(s, body, e))
            =~= body.subrange(q, e) + replaced_from(s, body, e));
    }
}

proof fn lemma_span_kept_at(s: Seq<Content>, body: Seq<char>, pos: int)
    requires
        link_match_at(body, pos),
        unresolved_link_at(s, body, pos),
    ensures
        replaced_from(s, body, pos) == body.subrange(pos, link_end(body, pos)) + replaced_from(
            s,
            body,
            link_end(body, pos),
        ),
{
    lemma_link_end_bounds(body, pos);
    let e = link_end(body, pos);
    lemma_span_tail(s, body, pos, pos + 1);
    assert(seq![body[pos]] + (body.subrange(pos + 1, e) + replaced_from(s, body, e))
        =~= body.subrange(pos, e) + replaced_from(s, body, e));
}

proof fn lemma_kept_from(s: Seq<Content>, body: Seq<char>, p: int, pos: int)
    requires
        link_match_at(body, pos),
        unresolved_link_at(s, body, pos),
        0 <= p <= pos,
    ensures
        contains_seq(replaced_from(s, body, p), body.subrange(pos, link_end(body, pos))),
    decreases pos - p,
{
    lemma_link_end_bounds(body, pos);
    let span = body.subrange(pos, link_end(body, pos));
    if p == pos {
        lemma_span_kept_at(s, body, pos);
        assert(replaced_from(s, body, p).subrange(0, 0 + span.len() as int) =~= span);
    } else {
        if image_match_at(body, p) && lookup_asset(s, image_target(body, p)) is Some {
            let e = image_end(body, p);
            lemma_links_disjoint(body, p, pos);
            lemma_kept_from(s, body, e, pos);
            lemma_contains_seq_shift(
                image_replacement(s, body, p),
                replaced_from(s, body, e),
                span,
            );
        } else if alias_match_at(body, p) && lookup_article(s, alias_target(body, p)) is Some {
            let e = alias_end(body, p);
            lemma_links_disjoint(body, p, pos);
            lemma_kept_from(s, body, e, pos);
            lemma_contains_seq_shift(
                alias_replacement(s, body, p),
                replaced_from(s, body, e),
                span,
            );
        } else if normal_match_at(body, p) && lookup_article(s, normal_target(body, p)) is Some {
            let e = normal_end(body, p);
            lemma_links_disjoint(body, p, pos);
            lemma_kept_from(s, body, e, pos);
            lemma_contains_seq_shift(
                normal_replacement(s, body, p),
                replaced_from(s, body, e),
                span,
            );
        } else {
            lemma_kept_from(s, body, p + 1, pos);
            lemma_contains_seq_shift(seq![body[p]], replaced_from(s, body, p + 1), span);
        }
    }
}

/// Law: in replace mode, the literal source text of an unresolved
/// wikilink appears unchanged in the resolved body.
pub proof fn lemma_unresolved_text_kept(s: Seq<Content>, body: Seq<char>, pos: int)
    requires
        link_match_at(body, pos),
        unresolved_link_at(s, body, pos),
    ensures
        contains_seq(replaced_body(s, body), body.subrange(pos, link_end(body, pos))),
{
    lemma_kept_from(s, body, 0, pos);
}

/// `t` is the identifier of some item of the index.
pub open spec fn is_index_id(s: Seq<Content>, t: Seq<char>) -> bool {
    exists|i: int| 0 <= i < s.len() && (#[trigger] s[i]).spec_id() == t
}

proof fn lemma_contains_cons(x: Seq<char>, rest: Seq<Seq<char>>, t: Seq<char>)
    requires
        (seq![x] + rest).contains(t),
    ensures
        t == x || rest.contains(t),
{
    let idx = choose|i: int| 0 <= i < (seq![x] + rest).len() && (seq![x] + rest)[i] == t;
    if idx > 0 {
        assert(rest[idx - 1] == t);
    }
}

proof fn lemma_contains_cons_rev(x: Seq<char>, rest: Seq<Seq<char>>, t: Seq<char>)
    requires
        t == x || rest.contains(t),
    ensures
        (seq![x] + rest).contains(t),
{
    if t == x {
        assert((seq![x] + rest)[0] == t);
    } else {
        let idx = choose|i: int| 0 <= i < rest.len() && rest[i] == t;
        assert((seq![x] + rest)[idx + 1] == t);
    }
}

proof fn lemma_contains_concat(a: Seq<Seq<char>>, b: Seq<Seq<char>>, t: Seq<char>)
    requires
        (a + b).contains(t),
    ensures
        a.contains(t) || b.contains(t),
{
    let idx = choose|i: int| 0 <= i < (a + b).len() && (a + b)[i] == t;
    if idx >= a.len() {
        assert(b[idx - a.len()] == t);
    }
}

proof fn lemma_lookup_asset_id(s: Seq<Content>, tok: Seq<char>)
    ensures
        lookup_asset(s, tok) matches Some(a) ==> is_index_id(s, a.id@),
{
    if lookup_asset(s, tok) is Some {
        crate::content::lemma_best_candidate_spec(s, tok, s.len() as int);
    }
}

proof fn lemma_lookup_article_id(s: Seq<Content>, tok: Seq<char>)
    ensures
        lookup_article(s, tok) matches Some(a) ==> is_index_id(s, a.id@),
{
    if lookup_article(s, tok) is Some {
        crate::content::lemma_best_candidate_spec(s, tok, s.len() as int);
    }
}

proof fn lemma_image_refs_ids(s: Seq<Content>, body: Seq<char>, pos: int)
    ensures
        forall|t: Seq<char>|
            #[trigger] image_refs_from(s, body, pos).contains(t) ==> is_index_id(s, t),
    decreases body.len() - pos,
{
    if pos < 0 || pos >= body.len() {
        assert(image_refs_from(s, body, pos) =~= Seq::<Seq<char>>::empty());
    } else if image_match_at(body, pos) {
        let e = image_end(body, pos);
        lemma_image_refs_ids(s, body, e);
        lemma_lookup_asset_id(s, image_target(body, pos));
        assert forall|t: Seq<char>|
            #[trigger] image_refs_from(s, body, pos).contains(t) implies is_index_id(s, t) by {
            match lookup_asset(s, image_target(body, pos)) {
                Some(a) => {
                    assert(image_refs_from(s, body, pos) == seq![a.id@] + image_refs_from(
                        s,
                        body,
                        e,
                    ));
                    lemma_contains_cons(a.id@, image_refs_from(s, body, e), t);
                    if t != a.id@ {
                        assert(image_refs_from(s, body, e).contains(t));
                    }
                }
                None => {
                    assert(image_refs_from(s, body, pos) == image_refs_from(s, body, e));
                }
            }
        }
    } else {
        lemma_image_refs_ids(s, body, pos + 1);
        assert forall|t: Seq<char>|
            #[trigger] image_refs_from(s, body, pos).contains(t) implies is_index_id(s, t) by {
            assert(image_refs_from(s, body, pos) == image_refs_from(s, body, pos + 1));
            assert(image_refs_from(s, body, pos + 1).contains(t));
        }
    }
}

proof fn lemma_alias_refs_ids(s: Seq<Content>, body: Seq<char>, pos: int)
    ensures
        forall|t: Seq<char>|
            #[trigger] alias_refs_from(s, body, pos).contains(t) ==> is_index_id(s, t),
    decreases body.len() - pos,
{
    if pos < 0 || pos >= body.len() {
        assert(alias_refs_from(s, body, pos) =~= Seq::<Seq<char>>::empty());
    } else if alias_match_at(body, pos) {
        let e = alias_end(body, pos);
        lemma_alias_refs_ids(s, body, e);
        lemma_lookup_article_id(s, alias_target(body, pos));
        assert forall|t: Seq<char>|
            #[trigger] alias_refs_from(s, body, pos).contains(t) implies is_index_id(s, t) by {
            match lookup_article(s, alias_target(body, pos)) {
                Some(a) => {
                    assert(alias_refs_from(s, body, pos) == seq![a.id@] + alias_refs_from(
                        s,
                        body,
                        e,
                    ));
                    lemma_contains_cons(a.id@, alias_refs_from(s, body, e), t);
                    if t != a.id@ {
                        assert(alias_refs_from(s, body, e).contains(t));
                    }
                }
                None => {
                    assert(alias_refs_from(s, body, pos) == alias_refs_from(s, body, e));
                }
            }
        }
    } else {
        lemma_alias_refs_ids(s, body, pos + 1);
        assert forall|t: Seq<char>|
            #[trigger] alias_refs_from(s, body, pos).contains(t) implies is_index_id(s, t) by {
            assert(alias_refs_from(s, body, pos) == alias_refs_from(s, body, pos + 1));
            assert(alias_refs_from(s, body, pos + 1).contains(t));
        }
    }
}

proof fn lemma_normal_refs_ids(s: Seq<Content>, body: Seq<char>, pos: int)
    ensures
        forall|t: Seq<char>|
            #[trigger] normal_refs_from(s, body, pos).contains(t) ==> is_index_id(s, t),
    decreases body.len() - pos,
{
    if pos < 0 || pos >= body.len() {
        assert(normal_refs_from(s, body, pos) =~= Seq::<Seq<char>>::empty());
    } else if normal_match_at(body, pos) {
        let e = normal_end(body, pos);
        lemma_normal_refs_ids(s, body, e);
        lemma_lookup_article_id(s, normal_target(body, pos));
        assert forall|t: Seq<char>|
            #[trigger] normal_refs_from(s, body, pos).contains(t) implies is_index_id(s, t) by {
            match lookup_article(s, normal_target(body, pos)) {
                Some(a) => {
                    assert(normal_refs_from(s, body, pos) == seq![a.id@] + normal_refs_from(
                        s,
                        body,
                        e,
                    ));
                    lemma_contains_cons(a.id@, normal_refs_from(s, body, e), t);
                    if t != a.id@ {
                        assert(normal_refs_from(s, body, e).contains(t));
                    }
                }
                None => {
                    assert(normal_refs_from(s, body, pos) == normal_refs_from(s, body, e));
                }
            }
        }
    } else {
        lemma_normal_refs_ids(s, body, pos + 1);
        assert forall|t: Seq<char>|
            #[trigger] normal_refs_from(s, body, pos).contains(t) implies is_index_id(s, t) by {
            assert(normal_refs_from(s, body, pos) == normal_refs_from(s, body, pos + 1));
            assert(normal_refs_from(s, body, pos + 1).contains(t));
        }
    }
}

/// Law: every extracted reference is the canonical identifier of an item
/// that stands in the index.
pub proof fn lemma_refs_are_index_ids(s: Seq<Content>, body: Seq<char>)
    ensures
        forall|t: Seq<char>| #[trigger] extract_refs(s, body).contains(t) ==> is_index_id(s, t),
{
    lemma_image_refs_ids(s, body, 0);
    lemma_alias_refs_ids(s, body, 0);
    lemma_normal_refs_ids(s, body, 0);
    assert forall|t: Seq<char>| #[trigger] extract_refs(s, body).contains(t) implies is_index_id(
        s,
        t,
    ) by {
        lemma_contains_concat(
            image_refs_from(s, body, 0) + alias_refs_from(s, body, 0),
            normal_refs_from(s, body, 0),
            t,
        );
        if (image_refs_from(s, body, 0) + alias_refs_from(s, body, 0)).contains(t) {
            lemma_contains_concat(image_refs_from(s, body, 0), alias_refs_from(s, body, 0), t);
        }
    }
}

/// Law: a token that no content item resolves is absent from the
/// extracted references of every body.
pub proof fn lemma_unresolved_token_absent(s: Seq<Content>, body: Seq<char>, t: Seq<char>)
    requires
        crate::content::resolve_token(s, t) is None,
    ensures
        !extract_refs(s, body).contains(t),
{
    if extract_refs(s, body).contains(t) {
        lemma_refs_are_index_ids(s, body);
        let i = choose|i: int| 0 <= i < s.len() && (#[trigger] s[i]).spec_id() == t;
        assert(crate::content::ends_with(s[i].spec_id(), t)) by {
            assert(s[i].spec_id().subrange(
                s[i].spec_id().len() - t.len(),
                s[i].spec_id().len() as int,
            ) =~= t);
        }
        assert(crate::content::is_candidate(s, t, i));
        crate::content::lemma_best_candidate_spec(s, t, s.len() as int);
    }
}

/// Law: a plain wikilink whose token resolves to an article contributes
/// that article's identifier to the extracted references.
pub proof fn lemma_resolved_link_extracted(s: Seq<Content>, body: Seq<char>, pos: int, b: Article)
    requires
        normal_match_at(body, pos),
        lookup_article(s, normal_target(body, pos)) == Some(b),
    ensures
        extract_refs(s, body).contains(b.id@),
{
    lemma_normal_refs_find(s, body, 0, pos, b);
    let idx = choose|i: int|
        0 <= i < normal_refs_from(s, body, 0).len() && normal_refs_from(s, body, 0)[i] == b.id@;
    let pre = image_refs_from(s, body, 0) + alias_refs_from(s, body, 0);
    assert((pre + normal_refs_from(s, body, 0))[pre.len() + idx] == b.id@);
}

proof fn lemma_normal_refs_find(s: Seq<Content>, body: Seq<char>, p: int, pos: int, b: Article)
    requires
        0 <= p <= pos,
        normal_match_at(body, pos),
        lookup_article(s, normal_target(body, pos)) == Some(b),
    ensures
        normal_refs_from(s, body, p).contains(b.id@),
    decreases pos - p,
{
    if p == pos {
        let e = normal_end(body, pos);
        assert(normal_refs_from(s, body, p)[0] == b.id@);
    } else {
        if normal_match_at(body, p) {
            let e = normal_end(body, p);
            lemma_links_disjoint(body, p, pos);
            assert(link_end(body, p) == e);
            lemma_normal_refs_find(s, body, e, pos, b);
            match lookup_article(s, normal_target(body, p)) {
                Some(a) => {
                    lemma_contains_cons_rev(a.id@, normal_refs_from(s, body, e), b.id@);
                }
                None => {}
            }
        } else {
            lemma_normal_refs_find(s, body, p + 1, pos, b);
        }
    }
}

} // verus!
