use teangadb::corpus::{shares_prefix, Corpus};
use teangadb::document::{has_unique_keys, key_less, Document};
use teangadb::error::CorpusError;
use teangadb::layer::{str_equal, LayerType};
use teangadb::reader::{read_corpus, read_desc, read_meta, CorpusReader};
use teangadb::tree::Tree;

fn tree_from_yaml(v: serde_yaml::Value) -> Tree {
    match v {
        serde_yaml::Value::Null => Tree::Null,
        serde_yaml::Value::Bool(b) => Tree::Bool(b),
        serde_yaml::Value::Number(n) => Tree::Number(n.to_string()),
        serde_yaml::Value::String(s) => Tree::Text(s),
        serde_yaml::Value::Sequence(a) => Tree::List(a.into_iter().map(tree_from_yaml).collect()),
        serde_yaml::Value::Mapping(m) => Tree::Mapping(
            m.into_iter()
                .map(|(k, v)| (k.as_str().unwrap().to_string(), tree_from_yaml(v)))
                .collect(),
        ),
        serde_yaml::Value::Tagged(t) => tree_from_yaml(t.value),
    }
}

fn read_corpus_from_yaml_string(s: &str, path: String) -> Result<Corpus, CorpusError> {
    let v: serde_yaml::Value = serde_yaml::from_str(s).unwrap();
    read_corpus(tree_from_yaml(v), path)
}

fn text(s: &str) -> Tree {
    Tree::Text(s.to_string())
}

fn mapping(entries: Vec<(&str, Tree)>) -> Tree {
    Tree::Mapping(entries.into_iter().map(|(k, v)| (k.to_string(), v)).collect())
}

fn list(items: Vec<Tree>) -> Tree {
    Tree::List(items)
}

fn span(a: u32, b: u32) -> Tree {
    list(vec![Tree::Number(a.to_string()), Tree::Number(b.to_string())])
}

fn sample_meta() -> Tree {
    mapping(vec![
        ("text", mapping(vec![("type", text("characters"))])),
        ("tokens", mapping(vec![("type", text("span")), ("on", text("text"))])),
    ])
}

fn sample_doc() -> Tree {
    mapping(vec![
        ("text", text("This is an example")),
        ("tokens", list(vec![span(0, 4), span(5, 7), span(8, 10), span(11, 18)])),
    ])
}

const SAMPLE_ID: &str = "ecWczHc20YwqITuopZqffrpPhVsEUeLZV269U/9JP08=";

fn doc_of(entries: Vec<(&str, Tree)>) -> Document {
    Document { layers: entries.into_iter().map(|(k, v)| (k.to_string(), v)).collect() }
}

#[test]
fn test_deserialize_yaml() {
    let doc = "_meta:
    text:
        type: characters
    tokens:
        type: span
        on: text
_order: [\"ecWc\"]
ecWc:
    text: This is an example
    tokens: [[0, 4], [5, 7], [8, 10], [11, 18]]
";
    read_corpus_from_yaml_string(doc, "tmp".to_string()).unwrap();
}

#[test]
fn sample_corpus_reads_into_layers_document_and_order() {
    let root = mapping(vec![
        ("_meta", sample_meta()),
        ("_order", list(vec![text("ecWc")])),
        ("ecWc", sample_doc()),
    ]);
    let c = read_corpus(root, "tmp".to_string()).unwrap();
    assert_eq!(c.meta.len(), 2);
    assert_eq!(c.meta[0].name, "text");
    assert_eq!(c.meta[0].layer_type, LayerType::Characters);
    assert_eq!(c.meta[0].on, "");
    assert_eq!(c.meta[1].name, "tokens");
    assert_eq!(c.meta[1].layer_type, LayerType::Span);
    assert_eq!(c.meta[1].on, "text");
    assert_eq!(c.documents.len(), 1);
    assert!(c.documents[0].0.starts_with("ecWc"));
    assert_eq!(c.documents[0].0, SAMPLE_ID);
    assert_eq!(c.order, vec!["ecWc".to_string()]);
    assert_eq!(c.path, "tmp");
}

#[test]
fn sample_document_under_other_key_is_a_hash_mismatch() {
    let root = mapping(vec![
        ("_meta", sample_meta()),
        ("_order", list(vec![text("zzzz")])),
        ("zzzz", sample_doc()),
    ]);
    match read_corpus(root, "tmp".to_string()) {
        Err(CorpusError::DocumentHashMismatch(computed, provided)) => {
            assert_eq!(computed, SAMPLE_ID);
            assert_eq!(provided, "zzzz");
        }
        other => panic!("unexpected {:?}", other),
    }
}

#[test]
fn empty_key_and_full_id_key_are_accepted() {
    for key in ["", SAMPLE_ID, "e"] {
        let root = mapping(vec![(key, sample_doc())]);
        let c = read_corpus(root, "p".to_string()).unwrap();
        assert_eq!(c.order, vec![SAMPLE_ID.to_string()]);
    }
}

#[test]
fn key_longer_than_id_must_agree_on_the_id() {
    let longer = format!("{}xyz", SAMPLE_ID);
    let root = mapping(vec![(longer.as_str(), sample_doc())]);
    assert!(read_corpus(root, "p".to_string()).is_ok());
    let root = mapping(vec![("ecWd", sample_doc())]);
    assert!(matches!(
        read_corpus(root, "p".to_string()),
        Err(CorpusError::DocumentHashMismatch(_, _))
    ));
}

#[test]
fn order_entry_decides_iteration_order() {
    let d1 = mapping(vec![("text", text("one"))]);
    let d2 = mapping(vec![("text", text("two"))]);
    let id1 = doc_of(vec![("text", text("one"))]).content_id();
    let id2 = doc_of(vec![("text", text("two"))]).content_id();
    let root = mapping(vec![
        (&id1[..4], d1),
        (&id2[..4], d2),
        ("_order", list(vec![text(&id2[..4]), text(&id1[..4])])),
    ]);
    let c = read_corpus(root, "p".to_string()).unwrap();
    assert_eq!(c.order, vec![id2[..4].to_string(), id1[..4].to_string()]);
    assert_eq!(c.documents[0].0, id1);
    assert_eq!(c.documents[1].0, id2);
}

#[test]
fn without_order_entry_documents_keep_reading_order() {
    let root = mapping(vec![("", mapping(vec![("text", text("b"))])), ("", mapping(vec![("text", text("a"))]))]);
    let c = read_corpus(root, "p".to_string()).unwrap();
    assert_eq!(c.order.len(), 2);
    assert_eq!(c.order[0], doc_of(vec![("text", text("b"))]).content_id());
    assert_eq!(c.order[1], doc_of(vec![("text", text("a"))]).content_id());
}

#[test]
fn second_meta_replaces_the_first() {
    let root = mapping(vec![
        ("_meta", sample_meta()),
        ("_meta", mapping(vec![("words", mapping(vec![("type", text("seq")), ("on", text("text"))]))])),
    ]);
    let c = read_corpus(root, "p".to_string()).unwrap();
    assert_eq!(c.meta.len(), 1);
    assert_eq!(c.meta[0].name, "words");
    assert_eq!(c.meta[0].layer_type, LayerType::Sequence);
}

#[test]
fn layer_types_round_trip() {
    for t in ["characters", "seq", "div", "element", "span"] {
        assert_eq!(LayerType::parse(t).unwrap().token(), t);
    }
    assert_eq!(LayerType::parse("div").unwrap(), LayerType::Div);
    assert_eq!(LayerType::parse("element").unwrap(), LayerType::Element);
}

#[test]
fn unknown_layer_type_is_refused() {
    for t in ["", "Characters", "spans", "sequence", " span"] {
        match LayerType::parse(t) {
            Err(CorpusError::UnknownLayerType(u)) => assert_eq!(u, t),
            other => panic!("unexpected {:?}", other),
        }
    }
}

#[test]
fn unknown_layer_type_in_meta_is_refused() {
    let root = mapping(vec![("_meta", mapping(vec![("x", mapping(vec![("type", text("word"))]))]))]);
    assert!(matches!(
        read_corpus(root, "p".to_string()),
        Err(CorpusError::UnknownLayerType(_))
    ));
}

#[test]
fn add_layer_refuses_duplicate_names() {
    let mut c = Corpus::new("p".to_string());
    assert!(c
        .add_layer("text".to_string(), LayerType::Characters, String::new(), None, None, None, None)
        .is_ok());
    assert!(c
        .add_layer("words".to_string(), LayerType::Sequence, "text".to_string(), None, None, None, None)
        .is_ok());
    let r = c.add_layer(
        "text".to_string(),
        LayerType::Span,
        "words".to_string(),
        Some("file".to_string()),
        None,
        None,
        None,
    );
    match r {
        Err(CorpusError::DuplicateLayer(n)) => assert_eq!(n, "text"),
        other => panic!("unexpected {:?}", other),
    }
    assert_eq!(c.meta.len(), 2);
    assert_eq!(c.meta[0].layer_type, LayerType::Characters);
    assert_eq!(c.meta[0].data, None);
    assert!(c.has_layer("words"));
    assert!(!c.has_layer("word"));
}

#[test]
fn duplicate_layer_in_meta_is_refused() {
    let t = mapping(vec![
        ("a", mapping(vec![("type", text("characters"))])),
        ("a", mapping(vec![("type", text("seq"))])),
    ]);
    assert!(matches!(read_meta(&t), Err(CorpusError::DuplicateLayer(_))));
}

#[test]
fn descriptor_optional_fields_are_read() {
    let t = mapping(vec![
        ("type", text("element")),
        ("on", text("tokens")),
        ("data", text("ud")),
        ("link_types", list(vec![text("nsubj"), text("obj")])),
        ("target", text("tokens")),
        ("default", list(vec![text("O")])),
    ]);
    let d = read_desc(&"dep".to_string(), &t).unwrap();
    assert_eq!(d.name, "dep");
    assert_eq!(d.layer_type, LayerType::Element);
    assert_eq!(d.on, "tokens");
    assert_eq!(d.data, Some("ud".to_string()));
    assert_eq!(d.link_types, Some(vec!["nsubj".to_string(), "obj".to_string()]));
    assert_eq!(d.target, Some("tokens".to_string()));
    assert_eq!(d.default, Some(vec!["O".to_string()]));
}

#[test]
fn malformed_inputs_are_reported() {
    let bad = vec![
        list(vec![]),
        mapping(vec![("_order", text("ecWc"))]),
        mapping(vec![("_order", list(vec![Tree::Number("1".to_string())]))]),
        mapping(vec![("_meta", list(vec![]))]),
        mapping(vec![("_meta", mapping(vec![("x", mapping(vec![("on", text("y"))]))]))]),
        mapping(vec![("_meta", mapping(vec![("x", mapping(vec![("type", text("seq")), ("on", Tree::Bool(true))]))]))]),
        mapping(vec![("ecWc", text("not a document"))]),
        mapping(vec![("", mapping(vec![("text", text("a")), ("text", text("b"))]))]),
    ];
    for root in bad {
        assert!(matches!(
            read_corpus(root, "p".to_string()),
            Err(CorpusError::MalformedInput(_, _))
        ));
    }
}

#[test]
fn content_id_ignores_layer_order() {
    let a = doc_of(vec![("text", text("This is an example")), ("title", text("Ex")), ("n", Tree::Null)]);
    let b = doc_of(vec![("n", Tree::Null), ("title", text("Ex")), ("text", text("This is an example"))]);
    assert_eq!(a.content_id(), b.content_id());
    let c = doc_of(vec![("text", text("This is an example")), ("title", text("Ey"))]);
    assert_ne!(a.content_id(), c.content_id());
}

#[test]
fn content_id_of_sample_text() {
    let d = doc_of(vec![("text", text("This is an example"))]);
    assert_eq!(d.content_id(), SAMPLE_ID);
    assert_eq!(Document::new().content_id(), "47DEQpj8HBSa+/TImW+5JCeuQeRkm5NMpJWZG3hSuFU=");
}

#[test]
fn add_document_appends_repeats() {
    let mut c = Corpus::new("p".to_string());
    let id1 = c.add_document(doc_of(vec![("text", text("x"))]));
    let id2 = c.add_document(doc_of(vec![("text", text("x"))]));
    assert_eq!(id1, id2);
    assert_eq!(c.order, vec![id1.clone(), id1]);
    assert_eq!(c.documents.len(), 2);
}

#[test]
fn reader_reads_entry_by_entry() {
    let mut r = CorpusReader::new("p".to_string());
    r.read_entry("_meta".to_string(), sample_meta()).unwrap();
    r.read_entry("ecWc".to_string(), sample_doc()).unwrap();
    let c = r.finish();
    assert_eq!(c.order, vec![SAMPLE_ID.to_string()]);
    assert_eq!(c.meta.len(), 2);
}

#[test]
fn string_helpers() {
    assert!(shares_prefix("abc", "ab"));
    assert!(shares_prefix("", "xyz"));
    assert!(!shares_prefix("abc", "abd"));
    assert!(key_less("ab", "abc"));
    assert!(key_less("abc", "abd"));
    assert!(!key_less("b", "abc"));
    assert!(!key_less("a", "a"));
    assert!(str_equal("seq", "seq"));
    assert!(!str_equal("seq", "se"));
    assert!(has_unique_keys(&vec![("a".to_string(), Tree::Null), ("b".to_string(), Tree::Null)]));
    assert!(!has_unique_keys(&vec![("a".to_string(), Tree::Null), ("a".to_string(), Tree::Null)]));
}
