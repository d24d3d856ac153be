use vstd::prelude::*;

use crate::corpus::{
    has_layer, opt_string_view, opt_strings_view, prefix_agree, shares_prefix, strings_view, Corpus, CorpusView,
    LayerDesc, LayerDescView,
};
use crate::document::{document_id, has_unique_keys, keys_unique, Document};
use crate::error::CorpusError;
use crate::layer::{layer_type_of, str_equal, LayerType};
use crate::tree::Tree;

verus! {

/// The kind of an error, without its text.
#[derive(Debug, Clone, Copy, PartialEq, Eq, Structural)]
pub enum Fault {
    DuplicateLayer,
    UnknownLayerType,
    HashMismatch,
    Malformed,
}

pub open spec fn fault_of(e: CorpusError) -> Fault {
    match e {
        CorpusError::DuplicateLayer(_) => Fault::DuplicateLayer,
        CorpusError::UnknownLayerType(_) => Fault::UnknownLayerType,
        CorpusError::DocumentHashMismatch(_, _) => Fault::HashMismatch,
        CorpusError::MalformedInput(_, _) => Fault::Malformed,
    }
}

pub open spec fn meta_key() -> Seq<char> {
    seq!['_', 'm', 'e', 't', 'a']
}

pub open spec fn order_key() -> Seq<char> {
    seq!['_', 'o', 'r', 'd', 'e', 'r']
}

pub open spec fn type_key() -> Seq<char> {
    seq!['t', 'y', 'p', 'e']
}

pub open spec fn on_key() -> Seq<char> {
    seq!['o', 'n']
}

pub open spec fn data_key() -> Seq<char> {
    seq!['d', 'a', 't', 'a']
}

pub open spec fn link_types_key() -> Seq<char> {
    seq!['l', 'i', 'n', 'k', '_', 't', 'y', 'p', 'e', 's']
}

pub open spec fn target_key() -> Seq<char> {
    seq!['t', 'a', 'r', 'g', 'e', 't']
}

pub open spec fn default_key() -> Seq<char> {
    seq!['d', 'e', 'f', 'a', 'u', 'l', 't']
}

proof fn lemma_key_literals()
    ensures
        "_meta"@ == meta_key(),
        "_order"@ == order_key(),
        "type"@ == type_key(),
        "on"@ == on_key(),
        "data"@ == data_key(),
        "link_types"@ == link_types_key(),
        "target"@ == target_key(),
        "default"@ == default_key(),
{
    reveal_strlit("_meta");
    reveal_strlit("_order");
    reveal_strlit("type");
    reveal_strlit("on");
    reveal_strlit("data");
    reveal_strlit("link_types");
    reveal_strlit("target");
    reveal_strlit("default");
    assert("_meta"@ =~= meta_key());
    assert("_order"@ =~= order_key());
    assert("type"@ =~= type_key());
    assert("on"@ =~= on_key());
    assert("data"@ =~= data_key());
    assert("link_types"@ =~= link_types_key());
    assert("target"@ =~= target_key());
    assert("default"@ =~= default_key());
}

/// The value of the last field of `m` named `k`.
pub open spec fn lookup(m: Seq<(String, Tree)>, k: Seq<char>) -> Option<Tree>
    decreases m.len(),
{
    if m.len() == 0 {
        None
    } else if m.last().0@ == k {
        Some(m.last().1)
    } else {
        lookup(m.drop_last(), k)
    }
}

pub open spec fn opt_deref(t: Option<&Tree>) -> Option<Tree> {
    match t {
        Some(x) => Some(*x),
        None => None,
    }
}

/// An optional text field: absent or null gives `Some(None)`; a value of
/// another shape gives `None`.
pub open spec fn opt_text(t: Option<Tree>) -> Option<Option<Seq<char>>> {
    match t {
        None => Some(None),
        Some(Tree::Null) => Some(None),
        Some(Tree::Text(s)) => Some(Some(s@)),
        _ => None,
    }
}

pub open spec fn text_of(t: Tree) -> Seq<char> {
    match t {
        Tree::Text(s) => s@,
        _ => seq![],
    }
}

pub open spec fn all_text(v: Seq<Tree>) -> bool {
    forall|i: int| 0 <= i < v.len() ==> (#[trigger] v[i]) is Text
}

/// A list of strings, if `t` is one.
pub open spec fn text_list(t: Tree) -> Option<Seq<Seq<char>>> {
    match t {
        Tree::List(v) => if all_text(v@) {
            Some(v@.map_values(|x: Tree| text_of(x)))
        } else {
            None
        },
        _ => None,
    }
}

/// An optional list field: absent or null gives `Some(None)`; a value that is
/// no list of strings gives `None`.
pub open spec fn opt_text_list(t: Option<Tree>) -> Option<Option<Seq<Seq<char>>>> {
    match t {
        None => Some(None),
        Some(Tree::Null) => Some(None),
        Some(x) => match text_list(x) {
            Some(l) => Some(Some(l)),
            None => None,
        },
    }
}

/// The descriptor that the tree `t` declares for the layer `name`.
pub open spec fn desc_of(name: Seq<char>, t: Tree) -> Result<LayerDescView, Fault> {
    match t {
        Tree::Mapping(m) => match lookup(m@, type_key()) {
            Some(Tree::Text(s)) => match layer_type_of(s@) {
                None => Err(Fault::UnknownLayerType),
                Some(ty) => {
                    let on = opt_text(lookup(m@, on_key()));
                    let data = opt_text(lookup(m@, data_key()));
                    let link_types = opt_text_list(lookup(m@, link_types_key()));
                    let target = opt_text(lookup(m@, target_key()));
                    let default = opt_text_list(lookup(m@, default_key()));
                    if on is Some && data is Some && link_types is Some && target is Some
                        && default is Some {
                        Ok(
                            LayerDescView {
                                name,
                                layer_type: ty,
                                on: match on.unwrap() {
                                    Some(s) => s,
                                    None => seq![],
                                },
                                data: data.unwrap(),
                                link_types: link_types.unwrap(),
                                target: target.unwrap(),
                                default: default.unwrap(),
                            },
                        )
                    } else {
                        Err(Fault::Malformed)
                    }
                },
            },
            _ => Err(Fault::Malformed),
        },
        _ => Err(Fault::Malformed),
    }
}

/// The value of the last field of `m` named `k`.
fn lookup_field<'a>(m: &'a Vec<(String, Tree)>, k: &str) -> (r: Option<&'a Tree>)
    ensures
        opt_deref(r) == lookup(m@, k@),
{
    let mut i: usize = m.len();
    assert(m@.subrange(0, i as int) =~= m@);
    while i > 0
        invariant
            i <= m@.len(),
            lookup(m@, k@) == lookup(m@.subrange(0, i as int), k@),
        decreases i,
    {
        assert(m@.subrange(0, i as int).drop_last() =~= m@.subrange(0, i - 1));
        if str_equal(m[i - 1].0.as_str(), k) {
            return Some(&m[i - 1].1);
        }
        i = i - 1;
    }
    None
}

fn read_opt_text(t: Option<&Tree>) -> (r: Option<Option<String>>)
    ensures
        match opt_text(opt_deref(t)) {
            None => r is None,
            Some(o) => r matches Some(x) && opt_string_view(x) == o,
        },
{
    match t {
        None => Some(None),
        Some(Tree::Null) => Some(None),
        Some(Tree::Text(s)) => Some(Some(String::from_str(s.as_str()))),
        _ => None,
    }
}

fn read_text_list(t: &Tree) -> (r: Option<Vec<String>>)
    ensures
        match text_list(*t) {
            None => r is None,
            Some(l) => r matches Some(v) && strings_view(v@) == l,
        },
{
    match t {
        Tree::List(v) => {
            let mut out: Vec<String> = Vec::new();
            let mut i: usize = 0;
            while i < v.len()
                invariant
                    *t == Tree::List(*v),
                    i <= v@.len(),
                    out@.len() == i,
                    forall|j: int| 0 <= j < i ==> (#[trigger] v@[j]) is Text,
                    forall|j: int| 0 <= j < i ==> (#[trigger] out@[j])@ == text_of(v@[j]),
                decreases v@.len() - i,
            {
                match &v[i] {
                    Tree::Text(s) => {
                        out.push(String::from_str(s.as_str()));
                    },
                    _ => {
                        assert(!(v@[i as int] is Text));
                        assert(!all_text(v@));
                        return None;
                    },
                }
                i = i + 1;
            }
            assert(strings_view(out@) =~= v@.map_values(|x: Tree| text_of(x)));
            Some(out)
        },
        _ => None,
    }
}

fn read_opt_text_list(t: Option<&Tree>) -> (r: Option<Option<Vec<String>>>)
    ensures
        match opt_text_list(opt_deref(t)) {
            None => r is None,
            Some(None) => r == Some(None::<Vec<String>>),
            Some(Some(l)) => r matches Some(Some(v)) && strings_view(v@) == l,
        },
{
    match t {
        None => Some(None),
        Some(Tree::Null) => Some(None),
        Some(x) => match read_text_list(x) {
            Some(v) => Some(Some(v)),
            None => None,
        },
    }
}

fn malformed(place: &str, what: &str) -> (r: CorpusError)
    ensures
        fault_of(r) == Fault::Malformed,
{
    CorpusError::MalformedInput(String::from_str(place), String::from_str(what))
}

/// Reads the descriptor of layer `name` from its tree.
pub fn read_desc(name: &String, t: &Tree) -> (r: Result<LayerDesc, CorpusError>)
    ensures
        match desc_of(name@, *t) {
            Ok(d) => r matches Ok(x) && x@ == d,
            Err(f) => r matches Err(e) && fault_of(e) == f,
        },
{
    proof {
        lemma_key_literals();
    }
    let m = match t {
        Tree::Mapping(m) => m,
        _ => {
            return Err(malformed(name.as_str(), "a layer description"));
        },
    };
    let layer_type = match lookup_field(m, "type") {
        Some(Tree::Text(s)) => LayerType::parse(s.as_str())?,
        _ => {
            return Err(malformed(name.as_str(), "a layer type"));
        },
    };
    let on = read_opt_text(lookup_field(m, "on"));
    let data = read_opt_text(lookup_field(m, "data"));
    let link_types = read_opt_text_list(lookup_field(m, "link_types"));
    let target = read_opt_text(lookup_field(m, "target"));
    let default = read_opt_text_list(lookup_field(m, "default"));
    match (on, data, link_types, target, default) {
        (Some(on), Some(data), Some(link_types), Some(target), Some(default)) => {
            let on = match on {
                Some(s) => s,
                None => String::new(),
            };
            Ok(LayerDesc { name: String::from_str(name.as_str()), layer_type, on, data, link_types, target, default })
        },
        _ => Err(malformed(name.as_str(), "optional strings or lists of strings")),
    }
}

/// The layer table that the entries of `_meta` declare, in order; a name
/// declared twice is refused.
pub open spec fn meta_fold(m: Seq<(String, Tree)>) -> Result<Seq<LayerDescView>, Fault>
    decreases m.len(),
{
    if m.len() == 0 {
        Ok(seq![])
    } else {
        match meta_fold(m.drop_last()) {
            Err(f) => Err(f),
            Ok(tab) => match desc_of(m.last().0@, m.last().1) {
                Err(f) => Err(f),
                Ok(d) => if has_layer(tab, d.name) {
                    Err(Fault::DuplicateLayer)
                } else {
                    Ok(tab.push(d))
                },
            },
        }
    }
}

/// The layer table that the value of `_meta` declares.
pub open spec fn meta_of(t: Tree) -> Result<Seq<LayerDescView>, Fault> {
    match t {
        Tree::Mapping(m) => meta_fold(m@),
        _ => Err(Fault::Malformed),
    }
}

proof fn lemma_meta_fold_err(m: Seq<(String, Tree)>, i: int, f: Fault)
    requires
        0 <= i <= m.len(),
        meta_fold(m.subrange(0, i)) == Err::<Seq<LayerDescView>, Fault>(f),
    ensures
        meta_fold(m) == Err::<Seq<LayerDescView>, Fault>(f),
    decreases m.len() - i,
{
    if i == m.len() {
        assert(m.subrange(0, i) =~= m);
    } else {
        assert(m.subrange(0, i + 1).drop_last() =~= m.subrange(0, i));
        lemma_meta_fold_err(m, i + 1, f);
    }
}

/// Reads the layer table that the value of `_meta` declares.
pub fn read_meta(t: &Tree) -> (r: Result<Vec<LayerDesc>, CorpusError>)
    ensures
        match meta_of(*t) {
            Ok(tab) => r matches Ok(v) && v@.map_values(|d: LayerDesc| d@) == tab,
            Err(f) => r matches Err(e) && fault_of(e) == f,
        },
{
    let m = match t {
        Tree::Mapping(m) => m,
        _ => {
            return Err(malformed("_meta", "a mapping from layer names to descriptions"));
        },
    };
    let mut table = Corpus::new(String::new());
    let mut i: usize = 0;
    assert(m@.subrange(0, 0) =~= seq![]);
    assert(table@.meta =~= seq![]);
    while i < m.len()
        invariant
            *t == Tree::Mapping(*m),
            i <= m@.len(),
            meta_fold(m@.subrange(0, i as int)) == Ok::<Seq<LayerDescView>, Fault>(table@.meta),
        decreases m@.len() - i,
    {
        let ghost before = m@.subrange(0, i as int);
        proof {
            assert(m@.subrange(0, i + 1).drop_last() =~= before);
            assert(m@.subrange(0, i + 1).last() == m@[i as int]);
        }
        let desc = match read_desc(&m[i].0, &m[i].1) {
            Ok(d) => d,
            Err(e) => {
                proof {
                    lemma_meta_fold_err(m@, i + 1, fault_of(e));
                }
                return Err(e);
            },
        };
        let LayerDesc { name, layer_type, on, data, link_types, target, default } = desc;
        match table.add_layer(name, layer_type, on, data, link_types, target, default) {
            Ok(()) => {},
            Err(e) => {
                proof {
                    lemma_meta_fold_err(m@, i + 1, fault_of(e));
                }
                return Err(e);
            },
        }
        i = i + 1;
    }
    assert(m@.subrange(0, m@.len() as int) =~= m@);
    Ok(table.meta)
}

/// The state of reading a corpus: the corpus so far, and the order that
/// the last `_order` entry gave, if any.
pub struct ReadState {
    pub corpus: CorpusView,
    pub given_order: Option<Seq<Seq<char>>>,
}

pub open spec fn initial_state(path: Seq<char>) -> ReadState {
    ReadState {
        corpus: CorpusView { meta: seq![], order: seq![], documents: seq![], path },
        given_order: None,
    }
}

/// One top-level entry `key: value` read in state `st`.
pub open spec fn step(st: ReadState, key: Seq<char>, value: Tree) -> Result<ReadState, Fault> {
    if key == meta_key() {
        match meta_of(value) {
            Ok(tab) => Ok(ReadState { corpus: CorpusView { meta: tab, ..st.corpus }, ..st }),
            Err(f) => Err(f),
        }
    } else if key == order_key() {
        match text_list(value) {
            Some(o) => Ok(ReadState { given_order: Some(o), ..st }),
            None => Err(Fault::Malformed),
        }
    } else {
        match value {
            Tree::Mapping(l) => if keys_unique(l@) {
                let id = document_id(l@);
                if prefix_agree(id, key) {
                    Ok(
                        ReadState {
                            corpus: CorpusView {
                                order: st.corpus.order.push(id),
                                documents: st.corpus.documents.push((id, l@)),
                                ..st.corpus
                            },
                            ..st
                        },
                    )
                } else {
                    Err(Fault::HashMismatch)
                }
            } else {
                Err(Fault::Malformed)
            },
            _ => Err(Fault::Malformed),
        }
    }
}

/// The state after reading the entries `m` in order from the start.
pub open spec fn read_fold(m: Seq<(String, Tree)>, path: Seq<char>) -> Result<ReadState, Fault>
    decreases m.len(),
{
    if m.len() == 0 {
        Ok(initial_state(path))
    } else {
        match read_fold(m.drop_last(), path) {
            Err(f) => Err(f),
            Ok(st) => step(st, m.last().0@, m.last().1),
        }
    }
}

/// The corpus that a finished read yields: the order is the one `_order`
/// gave, where there was one.
pub open spec fn finish(st: ReadState) -> CorpusView {
    match st.given_order {
        Some(o) => CorpusView { order: o, ..st.corpus },
        None => st.corpus,
    }
}

pub open spec fn finished(r: Result<ReadState, Fault>) -> Result<CorpusView, Fault> {
    match r {
        Ok(st) => Ok(finish(st)),
        Err(f) => Err(f),
    }
}

/// The corpus that the tree `root` describes.
pub open spec fn corpus_of(root: Tree, path: Seq<char>) -> Result<CorpusView, Fault> {
    match root {
        Tree::Mapping(m) => finished(read_fold(m@, path)),
        _ => Err(Fault::Malformed),
    }
}

proof fn lemma_read_fold_err(m: Seq<(String, Tree)>, path: Seq<char>, i: int, f: Fault)
    requires
        0 <= i <= m.len(),
        read_fold(m.subrange(0, i), path) == Err::<ReadState, Fault>(f),
    ensures
        read_fold(m, path) == Err::<ReadState, Fault>(f),
    decreases m.len() - i,
{
    if i == m.len() {
        assert(m.subrange(0, i) =~= m);
    } else {
        assert(m.subrange(0, i + 1).drop_last() =~= m.subrange(0, i));
        lemma_read_fold_err(m, path, i + 1, f);
    }
}

/// A corpus being read entry by entry from a key/value tree.
pub struct CorpusReader {
    pub corpus: Corpus,
    pub given_order: Option<Vec<String>>,
}

impl View for CorpusReader {
    type V = ReadState;

    open spec fn view(&self) -> ReadState {
        ReadState { corpus: self.corpus@, given_order: opt_strings_view(self.given_order) }
    }
}

impl CorpusReader {
    /// A reader that starts from an empty corpus bound to `path`.
    pub fn new(path: String) -> (r: CorpusReader)
        ensures
            r@ == initial_state(path@),
    {
        let r = CorpusReader { corpus: Corpus::new(path), given_order: None };
        assert(r@.corpus.meta =~= seq![]);
        assert(r@.corpus.order =~= seq![]);
        assert(r@.corpus.documents =~= seq![]);
        r
    }

    /// Reads one top-level entry. A document's computed ID must agree with
    /// its key on their shared prefix.
    pub fn read_entry(&mut self, key: String, value: Tree) -> (r: Result<(), CorpusError>)
        ensures
            match step(old(self)@, key@, value) {
                Ok(st) => r is Ok && final(self)@ == st,
                Err(f) => r matches Err(e) && fault_of(e) == f,
            },
    {
        proof {
            lemma_key_literals();
        }
        if str_equal(key.as_str(), "_meta") {
            let table = read_meta(&value)?;
            self.corpus.meta = table;
            Ok(())
        } else if str_equal(key.as_str(), "_order") {
            match read_text_list(&value) {
                Some(o) => {
                    self.given_order = Some(o);
                    Ok(())
                },
                None => Err(malformed("_order", "a list of document IDs")),
            }
        } else {
            match value {
                Tree::Mapping(l) => {
                    if !has_unique_keys(&l) {
                        return Err(malformed(key.as_str(), "a document with distinct layer names"));
                    }
                    let doc = Document { layers: l };
                    let id = self.corpus.add_document(doc);
                    if shares_prefix(id.as_str(), key.as_str()) {
                        Ok(())
                    } else {
                        Err(CorpusError::DocumentHashMismatch(id, key))
                    }
                },
                _ => Err(malformed(key.as_str(), "a document")),
            }
        }
    }

    /// The corpus read so far; the order is the one `_order` gave, where
    /// there was one.
    pub fn finish(self) -> (r: Corpus)
        ensures
            r@ == finish(self@),
    {
        let mut corpus = self.corpus;
        match self.given_order {
            Some(o) => {
                corpus.order = o;
            },
            None => {},
        }
        corpus
    }
}

/// Rebuilds a corpus bound to `path` from the tree `root`, which must be a
/// mapping; the first error ends the read.
pub fn read_corpus(root: Tree, path: String) -> (r: Result<Corpus, CorpusError>)
    ensures
        match corpus_of(root, path@) {
            Ok(c) => r matches Ok(x) && x@ == c,
            Err(f) => r matches Err(e) && fault_of(e) == f,
        },
{
    let ghost root0 = root;
    let mut entries = match root {
        Tree::Mapping(m) => m,
        _ => {
            return Err(malformed("", "a mapping at the top level"));
        },
    };
    let ghost orig = entries@;
    let ghost path_v = path@;
    let total = entries.len();
    let ghost n = orig.len();
    assert(corpus_of(root0, path_v) == finished(read_fold(orig, path_v)));
    let mut rest: Vec<(String, Tree)> = Vec::new();
    while entries.len() > 0
        invariant
            n == orig.len(),
            n == total,
            entries@.len() + rest@.len() == n,
            entries@ == orig.subrange(0, entries@.len() as int),
            forall|k: int| 0 <= k < rest@.len() ==> #[trigger] rest@[k] == orig[n - 1 - k],
        decreases entries@.len(),
    {
        let e = entries.pop().unwrap();
        rest.push(e);
    }
    let mut reader = CorpusReader::new(path);
    assert(orig.subrange(0, 0) =~= seq![]);
    let mut i: usize = 0;
    while rest.len() > 0
        invariant
            n == orig.len(),
            n == total,
            root0 == root,
            path_v == path@,
            corpus_of(root0, path_v) == finished(read_fold(orig, path_v)),
            i + rest@.len() == n,
            forall|k: int| 0 <= k < rest@.len() ==> #[trigger] rest@[k] == orig[n - 1 - k],
            read_fold(orig.subrange(0, i as int), path_v) == Ok::<ReadState, Fault>(reader@),
        decreases rest@.len(),
    {
        let ghost prev = reader@;
        proof {
            assert(rest@[rest@.len() - 1] == orig[i as int]);
        }
        let (key, value) = rest.pop().unwrap();
        proof {
            assert(orig.subrange(0, i + 1).drop_last() =~= orig.subrange(0, i as int));
            assert(orig.subrange(0, i + 1).last() == orig[i as int]);
            assert(read_fold(orig.subrange(0, i + 1), path_v) == step(prev, key@, value));
        }
        match reader.read_entry(key, value) {
            Ok(()) => {},
            Err(e) => {
                proof {
                    assert(read_fold(orig.subrange(0, i + 1), path_v) == Err::<ReadState, Fault>(fault_of(e)));
                    lemma_read_fold_err(orig, path_v, i + 1, fault_of(e));
                    assert(read_fold(orig, path_v) == Err::<ReadState, Fault>(fault_of(e)));
                    assert(corpus_of(root0, path_v) == Err::<CorpusView, Fault>(fault_of(e)));
                }
                return Err(e);
            },
        }
        i = i + 1;
    }
    assert(orig.subrange(0, n as int) =~= orig);
    Ok(reader.finish())
}

/// A document entry whose key disagrees with the document's computed ID on
/// their shared prefix is refused with a hash mismatch; one whose key is a
/// prefix of the computed ID (the empty key and the full ID included) is
/// accepted.
pub proof fn lemma_prefix_integrity(st: ReadState, key: Seq<char>, l: Vec<(String, Tree)>)
    requires
        key != meta_key(),
        key != order_key(),
        keys_unique(l@),
    ensures
        !prefix_agree(document_id(l@), key) ==> step(st, key, Tree::Mapping(l)) == Err::<
            ReadState,
            Fault,
        >(Fault::HashMismatch),
        key.len() <= document_id(l@).len() && document_id(l@).subrange(0, key.len() as int)
            == key ==> step(st, key, Tree::Mapping(l)) is Ok,
{
    let id = document_id(l@);
    if key.len() <= id.len() && id.subrange(0, key.len() as int) == key {
        assert(key.subrange(0, key.len() as int) =~= key);
        assert(prefix_agree(id, key));
    }
}

/// The order that the last `_order` entry of `m` gives, if there is one.
pub open spec fn last_given_order(m: Seq<(String, Tree)>) -> Option<Seq<Seq<char>>>
    decreases m.len(),
{
    if m.len() == 0 {
        None
    } else if m.last().0@ == order_key() {
        text_list(m.last().1)
    } else {
        last_given_order(m.drop_last())
    }
}

proof fn lemma_given_order(m: Seq<(String, Tree)>, path: Seq<char>)
    requires
        read_fold(m, path) is Ok,
    ensures
        read_fold(m, path) matches Ok(st) && st.given_order == last_given_order(m),
    decreases m.len(),
{
    if m.len() > 0 {
        lemma_given_order(m.drop_last(), path);
    }
}

/// After a successful read, the document order is exactly the one that the
/// last `_order` entry lists, wherever it stands among the documents.
pub proof fn lemma_order_from_order_entry(m: Seq<(String, Tree)>, path: Seq<char>)
    requires
        read_fold(m, path) is Ok,
        last_given_order(m) is Some,
    ensures
        finished(read_fold(m, path)) matches Ok(c) && last_given_order(m) == Some(c.order),
{
    lemma_given_order(m, path);
}

} // verus!
