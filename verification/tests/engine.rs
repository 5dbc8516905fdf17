use spade::content::{get_article, get_asset, ContentIndex};
use spade::links::{extract, replace};
use spade::repository::Repository;
use spade::{Article, Asset, Content};

fn article(id: &str, permalink: &str, raw: &str) -> Content {
    Content::Article(Box::new(Article {
        id: id.to_string(),
        permalink: permalink.to_string(),
        src: String::new(),
        meta: None,
        content: None,
        raw: raw.to_string(),
    }))
}

fn asset(id: &str, permalink: &str) -> Content {
    Content::Asset(Asset {
        id: id.to_string(),
        permalink: permalink.to_string(),
        src: String::new(),
    })
}

fn article_of(index: &ContentIndex, id: &str) -> Article {
    get_article(index, id).expect("article should resolve").clone()
}

#[test]
fn replace_and_extract_scenario() {
    let index = ContentIndex::new(vec![
        article("intro", "/intro", "# Intro"),
        asset("diagram.png", "/assets/diagram.png"),
        article("page", "/page", "See [[intro]] and ![[diagram.png]]."),
    ]);
    let page = article_of(&index, "page");
    let resolved = replace(&index, &page);
    assert_eq!(
        resolved.raw,
        "See [intro](/intro) and ![Image](/assets/diagram.png)."
    );
    let refs = extract(&index, &page);
    assert_eq!(refs, vec!["diagram.png".to_string(), "intro".to_string()]);
}

#[test]
fn unresolved_token_is_left_alone() {
    let index = ContentIndex::new(vec![article(
        "page",
        "/page",
        "Look at [[missing]] now.",
    )]);
    let page = article_of(&index, "page");
    let resolved = replace(&index, &page);
    assert_eq!(resolved.raw, "Look at [[missing]] now.");
    let refs = extract(&index, &page);
    assert!(refs.is_empty());
}

#[test]
fn suffix_resolution_is_deterministic() {
    let index = ContentIndex::new(vec![
        article("notes/a", "/notes/a", ""),
        article("archive/notes/a", "/archive/notes/a", ""),
    ]);
    // The shortest key wins; repeated calls give the same answer.
    let first = get_article(&index, "a").expect("should resolve").id.clone();
    let second = get_article(&index, "a").expect("should resolve").id.clone();
    assert_eq!(first, "notes/a");
    assert_eq!(first, second);
}

#[test]
fn exact_match_beats_suffix_match() {
    let index = ContentIndex::new(vec![
        article("x/a", "/x/a", ""),
        article("a", "/a", ""),
    ]);
    assert_eq!(get_article(&index, "a").unwrap().id, "a");
}

#[test]
fn length_ties_break_lexicographically() {
    let index = ContentIndex::new(vec![
        article("z/a", "/z/a", ""),
        article("b/a", "/b/a", ""),
    ]);
    assert_eq!(get_article(&index, "a").unwrap().id, "b/a");
}

#[test]
fn variant_mismatch_is_absence() {
    let index = ContentIndex::new(vec![asset("pic.png", "/pic.png")]);
    assert!(get_article(&index, "pic.png").is_none());
    assert!(get_asset(&index, "pic.png").is_some());
}

#[test]
fn extraction_order_is_image_then_alias_then_plain() {
    let index = ContentIndex::new(vec![
        article("b", "/b", ""),
        article("t", "/t", ""),
        asset("i.png", "/i.png"),
        article("page", "/page", "[[b]] then ![[i.png]] then [[t|Label]]"),
    ]);
    let page = article_of(&index, "page");
    let refs = extract(&index, &page);
    assert_eq!(
        refs,
        vec!["i.png".to_string(), "t".to_string(), "b".to_string()]
    );
}

#[test]
fn aliased_link_uses_label() {
    let index = ContentIndex::new(vec![
        article("t", "/t", ""),
        article("page", "/page", "go [[t|The Label]] now"),
    ]);
    let page = article_of(&index, "page");
    let resolved = replace(&index, &page);
    assert_eq!(resolved.raw, "go [The Label](/t) now");
}

#[test]
fn extract_returns_canonical_identifiers() {
    let index = ContentIndex::new(vec![
        article("notes/a", "/notes/a", ""),
        article("page", "/page", "see [[a]]"),
    ]);
    let page = article_of(&index, "page");
    let refs = extract(&index, &page);
    assert_eq!(refs, vec!["notes/a".to_string()]);
    let resolved = replace(&index, &page);
    assert_eq!(resolved.raw, "see [a](/notes/a)");
}

#[test]
fn image_token_resolving_to_article_stays_literal() {
    let index = ContentIndex::new(vec![
        article("t", "/t", ""),
        article("page", "/page", "![[t]]"),
    ]);
    let page = article_of(&index, "page");
    let resolved = replace(&index, &page);
    assert_eq!(resolved.raw, "![[t]]");
    assert!(extract(&index, &page).is_empty());
}

#[test]
fn replace_is_noop_without_wikilinks() {
    let body = "Plain text with [a link](/x) and ![Image](/y).";
    let index = ContentIndex::new(vec![article("page", "/page", body)]);
    let page = article_of(&index, "page");
    let once = replace(&index, &page);
    assert_eq!(once.raw, body);
    let twice = replace(&index, &once);
    assert_eq!(twice.raw, body);
}

#[test]
fn duplicate_identifiers_keep_the_last_item() {
    let index = ContentIndex::new(vec![
        article("x", "/first", "one"),
        article("x", "/second", "two"),
    ]);
    assert_eq!(index.len(), 1);
    let got = get_article(&index, "x").unwrap();
    assert_eq!(got.permalink, "/second");
    assert_eq!(got.raw, "two");
}

#[test]
fn backlinks_list_referencing_articles_once() {
    let index = ContentIndex::new(vec![
        article("b", "/b", ""),
        article("a", "/a", "[[b]] and again [[b]]"),
        article("c", "/c", "only [[b]]"),
        article("d", "/d", "nothing"),
    ]);
    let repo = Repository::new(index);
    let mut inbound = repo.get_inbound_references("b");
    inbound.sort();
    assert_eq!(inbound, vec!["a".to_string(), "c".to_string()]);
}

#[test]
fn assets_have_backlinks_too() {
    let index = ContentIndex::new(vec![
        asset("diagram.png", "/assets/diagram.png"),
        article("page", "/page", "see ![[diagram.png]]"),
    ]);
    let repo = Repository::new(index);
    assert_eq!(
        repo.get_inbound_references("diagram.png"),
        vec!["page".to_string()]
    );
}

#[test]
fn repository_lookups_match_free_functions() {
    let index = ContentIndex::new(vec![
        article("notes/a", "/notes/a", ""),
        asset("p.png", "/p.png"),
    ]);
    let repo = Repository::new(index);
    assert_eq!(repo.get_article("a").unwrap().id, "notes/a");
    assert_eq!(repo.get_asset("p.png").unwrap().permalink, "/p.png");
    assert!(repo.get_article("p.png").is_none());
}
