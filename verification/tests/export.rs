use spade::content::{get_references, json_graph, ContentIndex};
use spade::filesystem::{id_from_path, permalink_from_path, Filesystem};
use spade::frontmatter::extract;
use spade::{Article, Asset, Content};

fn article(id: &str, permalink: &str, raw: &str) -> Content {
    Content::Article(Box::new(Article {
        id: id.to_string(),
        permalink: permalink.to_string(),
        src: String::new(),
        meta: None,
        content: None,
        raw: raw.to_string(),
    }))
}

fn asset(id: &str, permalink: &str) -> Content {
    Content::Asset(Asset {
        id: id.to_string(),
        permalink: permalink.to_string(),
        src: String::new(),
    })
}

#[test]
fn graph_has_one_node_per_article_and_duplicate_edges() {
    let index = ContentIndex::new(vec![
        article("a", "/a", "[[b]] twice [[b]] plus ![[p.png]]"),
        article("b", "/b", ""),
        asset("p.png", "/p.png"),
    ]);
    let refs = get_references(&index);
    let graph = json_graph(&index, &refs);
    let expected = "{\"edges\":[\
{\"data\":{\"id\":\"a-b\",\"source\":\"a\",\"target\":\"b\"}},\
{\"data\":{\"id\":\"a-b\",\"source\":\"a\",\"target\":\"b\"}}\
],\"nodes\":[\
{\"data\":{\"id\":\"a\",\"url\":\"/a\"}},\
{\"data\":{\"id\":\"b\",\"url\":\"/b\"}}\
]}";
    assert_eq!(graph, expected);
}

#[test]
fn graph_of_empty_index_is_empty() {
    let index = ContentIndex::new(vec![]);
    let refs = get_references(&index);
    assert!(refs.is_empty());
    assert_eq!(json_graph(&index, &refs), "{\"edges\":[],\"nodes\":[]}");
}

#[test]
fn reference_map_has_one_entry_per_article() {
    let index = ContentIndex::new(vec![
        article("a", "/a", "[[b]]"),
        article("b", "/b", ""),
        asset("p.png", "/p.png"),
    ]);
    let refs = get_references(&index);
    assert_eq!(refs.len(), 2);
    assert_eq!(refs[0].0, "a");
    assert_eq!(refs[0].1, vec!["b".to_string()]);
    assert_eq!(refs[1].0, "b");
    assert!(refs[1].1.is_empty());
}

#[test]
fn graph_json_escapes_special_characters() {
    let index = ContentIndex::new(vec![article("he\"llo\\w", "/a\nb", "")]);
    let refs = get_references(&index);
    let graph = json_graph(&index, &refs);
    let parsed: serde_json::Value = serde_json::from_str(&graph).expect("export must be valid JSON");
    let node = &parsed["nodes"][0]["data"];
    assert_eq!(node["id"].as_str().unwrap(), "he\"llo\\w");
    assert_eq!(node["url"].as_str().unwrap(), "/a\nb");
    assert_eq!(parsed["edges"].as_array().unwrap().len(), 0);
}

#[test]
fn identifier_strips_markdown_extension() {
    assert_eq!(id_from_path("notes/Some File.md"), "notes/Some File");
    assert_eq!(id_from_path("img/My Pic.PNG"), "img/My Pic.PNG");
    assert_eq!(id_from_path("plain"), "plain");
}

#[test]
fn permalink_slugifies_every_fragment() {
    assert_eq!(permalink_from_path("notes/Some File.md"), "/notes/some-file");
    assert_eq!(permalink_from_path("img/My Pic.PNG"), "/img/my-pic.PNG");
    assert_eq!(permalink_from_path("One Dir/Two Dir/Page.md"), "/one-dir/two-dir/page");
}

#[test]
fn filesystem_keeps_its_root() {
    let fs = Filesystem::new("/srv/content".to_string());
    assert_eq!(fs.root(), "/srv/content");
}

#[test]
fn frontmatter_block_is_split_off() {
    let body = "---\ntags:\n- some-tag\ntemplate: main\n---\n# Here comes the markdown!";
    let (block, rest) = extract(body.to_string());
    assert_eq!(block.unwrap(), "tags:\n- some-tag\ntemplate: main");
    assert_eq!(rest, "# Here comes the markdown!");
}

#[test]
fn body_without_frontmatter_is_unchanged() {
    let body = "# Here comes the markdown!";
    let (block, rest) = extract(body.to_string());
    assert!(block.is_none());
    assert_eq!(rest, "# Here comes the markdown!");
}
