use vstd::prelude::*;

use crate::document::{document_id, keys_unique, Document};
use crate::error::CorpusError;
use crate::layer::{str_equal, LayerType};
use crate::tree::Tree;

verus! {

/// Declares one layer's shape and the layer it is positioned on.
#[derive(Debug)]
pub struct LayerDesc {
    pub name: String,
    pub layer_type: LayerType,
    pub on: String,
    pub data: Option<String>,
    pub link_types: Option<Vec<String>>,
    pub target: Option<String>,
    pub default: Option<Vec<String>>,
}

pub struct LayerDescView {
    pub name: Seq<char>,
    pub layer_type: LayerType,
    pub on: Seq<char>,
    pub data: Option<Seq<char>>,
    pub link_types: Option<Seq<Seq<char>>>,
    pub target: Option<Seq<char>>,
    pub default: Option<Seq<Seq<char>>>,
}

pub open spec fn strings_view(v: Seq<String>) -> Seq<Seq<char>> {
    v.map_values(|s: String| s@)
}

pub open spec fn opt_string_view(o: Option<String>) -> Option<Seq<char>> {
    match o {
        Some(s) => Some(s@),
        None => None,
    }
}

pub open spec fn opt_strings_view(o: Option<Vec<String>>) -> Option<Seq<Seq<char>>> {
    match o {
        Some(v) => Some(strings_view(v@)),
        None => None,
    }
}

impl View for LayerDesc {
    type V = LayerDescView;

    open spec fn view(&self) -> LayerDescView {
        LayerDescView {
            name: self.name@,
            layer_type: self.layer_type,
            on: self.on@,
            data: opt_string_view(self.data),
            link_types: opt_strings_view(self.link_types),
            target: opt_string_view(self.target),
            default: opt_strings_view(self.default),
        }
    }
}

/// The aggregate root: layer table, document order and documents.
#[derive(Debug)]
pub struct Corpus {
    pub meta: Vec<LayerDesc>,
    pub order: Vec<String>,
    pub documents: Vec<(String, Document)>,
    pub path: String,
}

pub struct CorpusView {
    pub meta: Seq<LayerDescView>,
    pub order: Seq<Seq<char>>,
    pub documents: Seq<(Seq<char>, Seq<(String, Tree)>)>,
    pub path: Seq<char>,
}

impl View for Corpus {
    type V = CorpusView;

    open spec fn view(&self) -> CorpusView {
        CorpusView {
            meta: self.meta@.map_values(|d: LayerDesc| d@),
            order: strings_view(self.order@),
            documents: self.documents@.map_values(
                |e: (String, Document)| (e.0@, e.1.layers@),
            ),
            path: self.path@,
        }
    }
}

/// Whether the layer table holds a layer named `n`.
pub open spec fn has_layer(meta: Seq<LayerDescView>, n: Seq<char>) -> bool {
    exists|i: int| 0 <= i < meta.len() && (#[trigger] meta[i]).name == n
}

/// No two layers of the table share a name.
pub open spec fn names_unique(meta: Seq<LayerDescView>) -> bool {
    forall|i: int, j: int|
        0 <= i < j < meta.len() ==> (#[trigger] meta[i]).name != (#[trigger] meta[j]).name
}

/// Once a layer is registered, later additions never remove it: any later
/// `add_layer` under the same name is refused.
pub proof fn lemma_registered_name_stays(
    meta: Seq<LayerDescView>,
    d: LayerDescView,
    later: Seq<LayerDescView>,
)
    ensures
        has_layer(meta.push(d) + later, d.name),
{
    let t = meta.push(d) + later;
    assert(t[meta.len() as int] == d);
}

/// Whether `a` and `b` agree on their first `min(|a|, |b|)` characters.
pub open spec fn prefix_agree(a: Seq<char>, b: Seq<char>) -> bool {
    let m = if a.len() < b.len() {
        a.len()
    } else {
        b.len()
    };
    a.subrange(0, m as int) == b.subrange(0, m as int)
}

/// Whether `a` and `b` agree on their shared prefix.
pub fn shares_prefix(a: &str, b: &str) -> (r: bool)
    ensures
        r == prefix_agree(a@, b@),
{
    let n = a.unicode_len();
    let k = b.unicode_len();
    let m = if n < k {
        n
    } else {
        k
    };
    let mut i: usize = 0;
    while i < m
        invariant
            n == a@.len(),
            k == b@.len(),
            m == if n < k {
                n
            } else {
                k
            },
            i <= m,
            a@.subrange(0, i as int) == b@.subrange(0, i as int),
        decreases m - i,
    {
        if a.get_char(i) != b.get_char(i) {
            assert(a@.subrange(0, m as int)[i as int] != b@.subrange(0, m as int)[i as int]);
            return false;
        }
        assert(a@.subrange(0, i + 1) == a@.subrange(0, i as int).push(a@[i as int]));
        assert(b@.subrange(0, i + 1) == b@.subrange(0, i as int).push(b@[i as int]));
        i = i + 1;
    }
    true
}

/// A copy of `s`.
fn copy_string(s: &String) -> (r: String)
    ensures
        r@ == s@,
{
    String::from_str(s.as_str())
}

impl Corpus {
    /// An empty corpus bound to `path`.
    pub fn new(path: String) -> (r: Corpus)
        ensures
            r@.meta.len() == 0,
            r@.order.len() == 0,
            r@.documents.len() == 0,
            r@.path == path@,
    {
        Corpus { meta: Vec::new(), order: Vec::new(), documents: Vec::new(), path }
    }

    /// Whether a layer named `name` is registered.
    pub fn has_layer(&self, name: &str) -> (r: bool)
        ensures
            r == has_layer(self@.meta, name@),
    {
        let mut i: usize = 0;
        while i < self.meta.len()
            invariant
                i <= self.meta@.len(),
                forall|j: int| 0 <= j < i ==> (#[trigger] self@.meta[j]).name != name@,
            decreases self.meta@.len() - i,
        {
            if str_equal(self.meta[i].name.as_str(), name) {
                assert(self@.meta[i as int].name == name@);
                return true;
            }
            i = i + 1;
        }
        false
    }

    /// Registers a layer. A name that is already registered is refused and
    /// the table is left as it was.
    pub fn add_layer(
        &mut self,
        name: String,
        layer_type: LayerType,
        on: String,
        data: Option<String>,
        link_types: Option<Vec<String>>,
        target: Option<String>,
        default: Option<Vec<String>>,
    ) -> (r: Result<(), CorpusError>)
        ensures
            has_layer(old(self)@.meta, name@) ==> (r matches Err(CorpusError::DuplicateLayer(n))
                && n@ == name@ && final(self)@ == old(self)@),
            !has_layer(old(self)@.meta, name@) ==> (r is Ok && final(self)@ == (CorpusView {
                meta: old(self)@.meta.push(
                    LayerDescView {
                        name: name@,
                        layer_type,
                        on: on@,
                        data: opt_string_view(data),
                        link_types: opt_strings_view(link_types),
                        target: opt_string_view(target),
                        default: opt_strings_view(default),
                    },
                ),
                ..old(self)@
            })),
    {
        if self.has_layer(name.as_str()) {
            return Err(CorpusError::DuplicateLayer(name));
        }
        let desc = LayerDesc { name, layer_type, on, data, link_types, target, default };
        self.meta.push(desc);
        assert(self@.meta =~= old(self)@.meta.push(desc@));
        Ok(())
    }

    /// Adds a document and appends its content ID to the order, which
    /// keeps repeats: the same content added twice is listed twice.
    pub fn add_document(&mut self, doc: Document) -> (r: String)
        requires
            keys_unique(doc.layers@),
        ensures
            r@ == document_id(doc.layers@),
            final(self)@ == (CorpusView {
                order: old(self)@.order.push(r@),
                documents: old(self)@.documents.push((r@, doc.layers@)),
                ..old(self)@
            }),
    {
        let id = doc.content_id();
        self.order.push(copy_string(&id));
        let ghost layers = doc.layers@;
        self.documents.push((copy_string(&id), doc));
        assert(self@.order =~= old(self)@.order.push(id@));
        assert(self@.documents =~= old(self)@.documents.push((id@, layers)));
        assert(self@.meta =~= old(self)@.meta);
        id
    }
}

} // verus!
