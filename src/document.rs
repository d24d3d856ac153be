use vstd::prelude::*;

use crate::tree::Tree;
use vstd::utf8::encode_utf8;

verus! {

/// What `sha2::Sha256` yields on a byte string.
pub uninterp spec fn sha256_of(b: Seq<u8>) -> Seq<u8>;

/// What the standard, padded base64 engine of `base64` yields on a byte string.
pub uninterp spec fn base64_of(b: Seq<u8>) -> Seq<char>;

/// Relies on `sha2::Sha256::digest`: a 32-byte digest that depends on the
/// input bytes alone.
#[verifier::external_body]
fn sha256(b: &[u8]) -> (r: Vec<u8>)
    ensures
        r@ == sha256_of(b@),
        r@.len() == 32,
{
    <sha2::Sha256 as sha2::Digest>::digest(b).to_vec()
}

/// The six-bit value that a character of the standard base64 alphabet
/// stands for; -1 for any other character.
pub open spec fn base64_value(c: char) -> int {
    let n = c as int;
    if 65 <= n <= 90 {
        n - 65
    } else if 97 <= n <= 122 {
        n - 71
    } else if 48 <= n <= 57 {
        n + 4
    } else if n == 43 {
        62
    } else if n == 47 {
        63
    } else {
        -1
    }
}

pub open spec fn byte_or_zero(b: Seq<u8>, i: int) -> int {
    if i < b.len() {
        b[i] as int
    } else {
        0
    }
}

/// Group `g` of `r` encodes bytes `3g .. 3g + 3` of `b`: four six-bit digits
/// of the 24-bit value, with `=` in place of the digits past the input.
pub open spec fn base64_group(b: Seq<u8>, r: Seq<char>, g: int) -> bool {
    let x = byte_or_zero(b, 3 * g) * 65536 + byte_or_zero(b, 3 * g + 1) * 256 + byte_or_zero(
        b,
        3 * g + 2,
    );
    let present = b.len() - 3 * g;
    base64_value(r[4 * g]) == x / 262144 % 64 && base64_value(r[4 * g + 1]) == x / 4096 % 64 && (
    if present >= 2 {
        base64_value(r[4 * g + 2]) == x / 64 % 64
    } else {
        r[4 * g + 2] == '='
    }) && (if present >= 3 {
        base64_value(r[4 * g + 3]) == x % 64
    } else {
        r[4 * g + 3] == '='
    })
}

/// Whether `r` is the standard, padded base64 text of `b`.
pub open spec fn is_base64_of(b: Seq<u8>, r: Seq<char>) -> bool {
    &&& r.len() == 4 * ((b.len() + 2) / 3)
    &&& forall|g: int| 0 <= g < r.len() / 4 ==> #[trigger] base64_group(b, r, g)
}

/// Relies on `base64::Engine::encode` with the standard engine: the padded
/// encoding of the standard alphabet, which depends on the input bytes alone.
#[verifier::external_body]
fn base64(b: &[u8]) -> (r: String)
    ensures
        r@ == base64_of(b@),
        is_base64_of(b@, r@),
{
    base64::Engine::encode(&base64::engine::general_purpose::STANDARD, b)
}

/// Strict lexicographic order of strings, by code point.
pub open spec fn key_lt(a: Seq<char>, b: Seq<char>) -> bool
    decreases a.len(),
{
    if b.len() == 0 {
        false
    } else if a.len() == 0 {
        true
    } else if a[0] != b[0] {
        (a[0] as int) < (b[0] as int)
    } else {
        key_lt(a.drop_first(), b.drop_first())
    }
}

pub proof fn lemma_key_lt_irreflexive(a: Seq<char>)
    ensures
        !key_lt(a, a),
    decreases a.len(),
{
    if a.len() > 0 {
        lemma_key_lt_irreflexive(a.drop_first());
    }
}

pub proof fn lemma_key_lt_transitive(a: Seq<char>, b: Seq<char>, c: Seq<char>)
    requires
        key_lt(a, b),
        key_lt(b, c),
    ensures
        key_lt(a, c),
    decreases a.len(),
{
    if a.len() > 0 && a[0] == b[0] && b[0] == c[0] {
        lemma_key_lt_transitive(a.drop_first(), b.drop_first(), c.drop_first());
    }
}

pub proof fn lemma_key_lt_total(a: Seq<char>, b: Seq<char>)
    requires
        a != b,
    ensures
        key_lt(a, b) || key_lt(b, a),
    decreases a.len(),
{
    if a.len() > 0 && b.len() > 0 && a[0] == b[0] {
        if a.drop_first() == b.drop_first() {
            assert(a =~= seq![a[0]] + a.drop_first());
            assert(b =~= seq![b[0]] + b.drop_first());
        }
        lemma_key_lt_total(a.drop_first(), b.drop_first());
    } else if a.len() == 0 && b.len() == 0 {
        assert(a =~= b);
    } else if a.len() > 0 && b.len() > 0 {
        assert((a[0] as int) != (b[0] as int));
    }
}

pub proof fn lemma_key_lt_asymmetric(a: Seq<char>, b: Seq<char>)
    requires
        key_lt(a, b),
    ensures
        !key_lt(b, a),
{
    if key_lt(b, a) {
        lemma_key_lt_transitive(a, b, a);
        lemma_key_lt_irreflexive(a);
    }
}

/// Whether `a` comes strictly before `b`, by code point.
pub fn key_less(a: &str, b: &str) -> (r: bool)
    ensures
        r == key_lt(a@, b@),
{
    let n = a.unicode_len();
    let m = b.unicode_len();
    let mut i: usize = 0;
    assert(a@.skip(0) =~= a@);
    assert(b@.skip(0) =~= b@);
    while i < n && i < m
        invariant
            n == a@.len(),
            m == b@.len(),
            i <= n,
            i <= m,
            key_lt(a@, b@) == key_lt(a@.skip(i as int), b@.skip(i as int)),
        decreases n - i,
    {
        let x = a.get_char(i);
        let y = b.get_char(i);
        if x != y {
            return (x as u32) < (y as u32);
        }
        assert(a@.skip(i as int).drop_first() =~= a@.skip(i + 1));
        assert(b@.skip(i as int).drop_first() =~= b@.skip(i + 1));
        i = i + 1;
    }
    i < m
}

/// A text layer of a document: its name and its text.
pub type TextEntry = (Seq<char>, Seq<char>);

/// Strictly increasing by layer name.
pub open spec fn sorted_by_key(s: Seq<TextEntry>) -> bool {
    forall|i: int, j: int| 0 <= i < j < s.len() ==> key_lt(#[trigger] s[i].0, #[trigger] s[j].0)
}

pub proof fn lemma_sorted_unique(s1: Seq<TextEntry>, s2: Seq<TextEntry>)
    requires
        sorted_by_key(s1),
        sorted_by_key(s2),
        s1.to_set() == s2.to_set(),
    ensures
        s1 == s2,
    decreases s1.len(),
{
    if s1.len() == 0 {
        if s2.len() > 0 {
            assert(s2.to_set().contains(s2[0]));
        }
        assert(s1 =~= s2);
    } else {
        assert(s1.to_set().contains(s1[0]));
        assert(s2.len() > 0);
        assert(s2.to_set().contains(s2[0]));
        if s1[0] != s2[0] {
            let j = choose|j: int| 0 <= j < s2.len() && s2[j] == s1[0];
            let i = choose|i: int| 0 <= i < s1.len() && s1[i] == s2[0];
            assert(key_lt(s2[0].0, s2[j].0));
            assert(key_lt(s1[0].0, s1[i].0));
            lemma_key_lt_asymmetric(s1[0].0, s2[0].0);
        }
        let t1 = s1.drop_first();
        let t2 = s2.drop_first();
        assert forall|x: TextEntry| t1.to_set().contains(x) == t2.to_set().contains(x) by {
            if t1.contains(x) {
                let k = choose|k: int| 0 <= k < t1.len() && t1[k] == x;
                assert(s1[k + 1] == x);
                assert(key_lt(s1[0].0, s1[k + 1].0));
                lemma_key_lt_irreflexive(x.0);
                assert(s2.to_set().contains(x));
                let m = choose|m: int| 0 <= m < s2.len() && s2[m] == x;
                assert(m != 0);
                assert(t2[m - 1] == x);
            }
            if t2.contains(x) {
                let k = choose|k: int| 0 <= k < t2.len() && t2[k] == x;
                assert(s2[k + 1] == x);
                assert(key_lt(s2[0].0, s2[k + 1].0));
                lemma_key_lt_irreflexive(x.0);
                assert(s1.to_set().contains(x));
                let m = choose|m: int| 0 <= m < s1.len() && s1[m] == x;
                assert(m != 0);
                assert(t1[m - 1] == x);
            }
        }
        assert(t1.to_set() =~= t2.to_set());
        lemma_sorted_unique(t1, t2);
        assert(s1 =~= seq![s1[0]] + t1);
        assert(s2 =~= seq![s2[0]] + t2);
    }
}

proof fn lemma_insert_sorted(s: Seq<TextEntry>, p: int, e: TextEntry)
    requires
        sorted_by_key(s),
        0 <= p <= s.len(),
        forall|q: int| 0 <= q < p ==> key_lt(#[trigger] s[q].0, e.0),
        p < s.len() ==> key_lt(e.0, s[p].0),
    ensures
        sorted_by_key(s.insert(p, e)),
{
    let t = s.insert(p, e);
    s.insert_ensures(p, e);
    assert forall|i: int, j: int| 0 <= i < j < t.len() implies key_lt(#[trigger] t[i].0, #[trigger] t[j].0) by {
        if i < p {
            if j == p {
            } else if j > p {
                assert(t[j] == s[j - 1]);
                assert(key_lt(s[i].0, s[j - 1].0));
            }
        } else if i == p {
            assert(t[j] == s[j - 1]);
            if j - 1 > p {
                assert(key_lt(s[p].0, s[j - 1].0));
                lemma_key_lt_transitive(e.0, s[p].0, s[j - 1].0);
            }
        } else {
            assert(t[i] == s[i - 1]);
            assert(t[j] == s[j - 1]);
            assert(key_lt(s[i - 1].0, s[j - 1].0));
        }
    }
}

proof fn lemma_insert_to_set<A>(s: Seq<A>, p: int, e: A)
    requires
        0 <= p <= s.len(),
    ensures
        s.insert(p, e).to_set() == s.to_set().insert(e),
{
    let t = s.insert(p, e);
    s.insert_ensures(p, e);
    assert forall|x: A| t.to_set().contains(x) == s.to_set().insert(e).contains(x) by {
        if t.contains(x) {
            let k = choose|k: int| 0 <= k < t.len() && t[k] == x;
            if k < p {
                assert(s[k] == x);
            } else if k > p {
                assert(s[k - 1] == x);
            }
        }
        if s.contains(x) {
            let k = choose|k: int| 0 <= k < s.len() && s[k] == x;
            if k < p {
                assert(t[k] == x);
            } else {
                assert(t[k + 1] == x);
            }
        }
        if x == e {
            assert(t[p] == e);
        }
    }
    assert(t.to_set() =~= s.to_set().insert(e));
}

/// One document: the content of each layer it has, by layer name.
#[derive(Debug)]
pub struct Document {
    pub layers: Vec<(String, Tree)>,
}

/// No layer name occurs twice.
pub open spec fn keys_unique(l: Seq<(String, Tree)>) -> bool {
    forall|i: int, j: int| 0 <= i < j < l.len() ==> (#[trigger] l[i]).0@ != (#[trigger] l[j]).0@
}

/// Whether layer entry `e` is a text layer with name and text `p`.
pub open spec fn is_text_entry(e: (String, Tree), p: TextEntry) -> bool {
    e.0@ == p.0 && (e.1 matches Tree::Text(t) && t@ == p.1)
}

/// The text layers of a document, as (name, text) pairs.
pub open spec fn text_layers(l: Seq<(String, Tree)>) -> Set<TextEntry> {
    Set::new(|p: TextEntry| exists|i: int| 0 <= i < l.len() && is_text_entry(#[trigger] l[i], p))
}

/// The text layers of a document in increasing order of name.
pub open spec fn canonical_text(l: Seq<(String, Tree)>) -> Seq<TextEntry> {
    choose|s: Seq<TextEntry>| sorted_by_key(s) && s.to_set() == text_layers(l)
}

/// The bytes that are hashed: for each entry, its name and its text in
/// UTF-8, each followed by a zero byte.
pub open spec fn entries_bytes(s: Seq<TextEntry>) -> Seq<u8>
    decreases s.len(),
{
    if s.len() == 0 {
        seq![]
    } else {
        entries_bytes(s.drop_last()) + encode_utf8(s.last().0) + seq![0u8] + encode_utf8(
            s.last().1,
        ) + seq![0u8]
    }
}

/// The content-derived ID of a document: the base64 text of the SHA-256
/// digest of its text layers in canonical order.
pub open spec fn document_id(l: Seq<(String, Tree)>) -> Seq<char> {
    base64_of(sha256_of(entries_bytes(canonical_text(l))))
}

pub open spec fn entry_views(s: Seq<(&str, &str)>) -> Seq<TextEntry> {
    s.map_values(|e: (&str, &str)| (e.0@, e.1@))
}

/// The text layers of `layers`, sorted by name.
fn sorted_text_layers(layers: &Vec<(String, Tree)>) -> (r: Vec<(&str, &str)>)
    requires
        keys_unique(layers@),
    ensures
        sorted_by_key(entry_views(r@)),
        entry_views(r@).to_set() == text_layers(layers@),
{
    let mut out: Vec<(&str, &str)> = Vec::new();
    let mut i: usize = 0;
    assert(entry_views(out@).to_set() =~= text_layers(layers@.subrange(0, 0)));
    while i < layers.len()
        invariant
            i <= layers@.len(),
            keys_unique(layers@),
            sorted_by_key(entry_views(out@)),
            entry_views(out@).to_set() == text_layers(layers@.subrange(0, i as int)),
        decreases layers@.len() - i,
    {
        let ghost before = layers@.subrange(0, i as int);
        let ghost after = layers@.subrange(0, i + 1);
        let (ref name, ref value) = layers[i];
        match value {
            Tree::Text(text) => {
                let key = name.as_str();
                let ghost e: TextEntry = (key@, text@);
                let ghost v = entry_views(out@);
                proof {
                    assert forall|q: int| 0 <= q < v.len() implies #[trigger] v[q].0 != key@ by {
                        assert(v.to_set().contains(v[q]));
                        let j = choose|j: int| 0 <= j < before.len() && is_text_entry(#[trigger] before[j], v[q]);
                        assert(layers@[j] == before[j]);
                    }
                }
                let mut p: usize = 0;
                while p < out.len() && !key_less(key, out[p].0)
                    invariant
                        p <= out@.len(),
                        v == entry_views(out@),
                        forall|q: int| 0 <= q < v.len() ==> #[trigger] v[q].0 != key@,
                        forall|q: int| 0 <= q < p ==> key_lt(#[trigger] v[q].0, key@),
                    decreases out@.len() - p,
                {
                    proof {
                        lemma_key_lt_total(v[p as int].0, key@);
                    }
                    p = p + 1;
                }
                proof {
                    lemma_insert_sorted(v, p as int, e);
                    lemma_insert_to_set(v, p as int, e);
                }
                out.insert(p, (key, text.as_str()));
                proof {
                    assert(entry_views(out@) =~= v.insert(p as int, e));
                    assert forall|x: TextEntry| text_layers(after).contains(x) == text_layers(before).insert(e).contains(x) by {
                        if text_layers(after).contains(x) {
                            let j = choose|j: int| 0 <= j < after.len() && is_text_entry(#[trigger] after[j], x);
                            if j < i {
                                assert(before[j] == after[j]);
                            }
                        }
                        if text_layers(before).contains(x) {
                            let j = choose|j: int| 0 <= j < before.len() && is_text_entry(#[trigger] before[j], x);
                            assert(before[j] == after[j]);
                        }
                        if x == e {
                            assert(is_text_entry(after[i as int], x));
                        }
                    }
                    assert(text_layers(after) =~= text_layers(before).insert(e));
                }
            },
            _ => {
                proof {
                    assert forall|x: TextEntry| text_layers(after).contains(x) == text_layers(before).contains(x) by {
                        if text_layers(after).contains(x) {
                            let j = choose|j: int| 0 <= j < after.len() && is_text_entry(#[trigger] after[j], x);
                            if j < i {
                                assert(before[j] == after[j]);
                            }
                        }
                        if text_layers(before).contains(x) {
                            let j = choose|j: int| 0 <= j < before.len() && is_text_entry(#[trigger] before[j], x);
                            assert(before[j] == after[j]);
                        }
                    }
                    assert(text_layers(after) =~= text_layers(before));
                }
            },
        }
        i = i + 1;
    }
    assert(layers@.subrange(0, layers@.len() as int) =~= layers@);
    out
}

/// Appends the UTF-8 bytes of `s` to `out`.
fn push_utf8(out: &mut Vec<u8>, s: &str)
    ensures
        final(out)@ == old(out)@ + encode_utf8(s@),
{
    let b = s.as_bytes();
    let mut i: usize = 0;
    while i < b.len()
        invariant
            b@ == encode_utf8(s@),
            i <= b@.len(),
            out@ == old(out)@ + b@.subrange(0, i as int),
        decreases b@.len() - i,
    {
        out.push(b[i]);
        assert(b@.subrange(0, i + 1) == b@.subrange(0, i as int).push(b@[i as int]));
        i = i + 1;
    }
    assert(b@.subrange(0, b@.len() as int) =~= b@);
}

/// The bytes of sorted text entries, in the form that is hashed.
fn text_bytes(entries: &Vec<(&str, &str)>) -> (r: Vec<u8>)
    ensures
        r@ == entries_bytes(entry_views(entries@)),
{
    let mut out: Vec<u8> = Vec::new();
    let mut i: usize = 0;
    while i < entries.len()
        invariant
            i <= entries@.len(),
            out@ == entries_bytes(entry_views(entries@).subrange(0, i as int)),
        decreases entries@.len() - i,
    {
        let (name, text) = entries[i];
        push_utf8(&mut out, name);
        out.push(0u8);
        push_utf8(&mut out, text);
        out.push(0u8);
        proof {
            let v = entry_views(entries@);
            assert(v.subrange(0, i + 1).drop_last() =~= v.subrange(0, i as int));
            assert(out@ =~= entries_bytes(v.subrange(0, i + 1)));
        }
        i = i + 1;
    }
    assert(entry_views(entries@).subrange(0, entries@.len() as int) =~= entry_views(entries@));
    out
}

/// Whether no layer name occurs twice in `l`.
pub fn has_unique_keys(l: &Vec<(String, Tree)>) -> (r: bool)
    ensures
        r == keys_unique(l@),
{
    let mut j: usize = 0;
    while j < l.len()
        invariant
            j <= l@.len(),
            forall|a: int, b: int| 0 <= a < b < j ==> (#[trigger] l@[a]).0@ != (#[trigger] l@[b]).0@,
        decreases l@.len() - j,
    {
        let mut i: usize = 0;
        while i < j
            invariant
                i <= j < l@.len(),
                forall|a: int| 0 <= a < i ==> (#[trigger] l@[a]).0@ != l@[j as int].0@,
            decreases j - i,
        {
            if crate::layer::str_equal(l[i].0.as_str(), l[j].0.as_str()) {
                return false;
            }
            i = i + 1;
        }
        j = j + 1;
    }
    true
}

impl Document {
    /// A document with no layers.
    pub fn new() -> (r: Document)
        ensures
            r.layers@.len() == 0,
    {
        Document { layers: Vec::new() }
    }

    /// The content-derived ID of this document. Only text layers enter it,
    /// in order of name, so the order of the layers does not matter.
    pub fn content_id(&self) -> (r: String)
        requires
            keys_unique(self.layers@),
        ensures
            r@ == document_id(self.layers@),
    {
        let sorted = sorted_text_layers(&self.layers);
        proof {
            let s = canonical_text(self.layers@);
            assert(sorted_by_key(s) && s.to_set() == text_layers(self.layers@));
            lemma_sorted_unique(s, entry_views(sorted@));
        }
        let bytes = text_bytes(&sorted);
        let digest = sha256(bytes.as_slice());
        base64(digest.as_slice())
    }
}

/// The content ID depends on a document's layers, not on their order: two
/// documents whose layers are a permutation of each other have the same ID.
pub proof fn lemma_id_ignores_layer_order(a: Seq<(String, Tree)>, b: Seq<(String, Tree)>)
    requires
        a.to_multiset() == b.to_multiset(),
    ensures
        document_id(a) == document_id(b),
{
    a.to_multiset_ensures();
    b.to_multiset_ensures();
    assert forall|x: TextEntry| text_layers(a).contains(x) == text_layers(b).contains(x) by {
        if text_layers(a).contains(x) {
            let i = choose|i: int| 0 <= i < a.len() && is_text_entry(#[trigger] a[i], x);
            assert(a.contains(a[i]));
            assert(b.to_multiset().count(a[i]) > 0);
            let j = choose|j: int| 0 <= j < b.len() && b[j] == a[i];
            assert(is_text_entry(b[j], x));
        }
        if text_layers(b).contains(x) {
            let i = choose|i: int| 0 <= i < b.len() && is_text_entry(#[trigger] b[i], x);
            assert(b.contains(b[i]));
            assert(a.to_multiset().count(b[i]) > 0);
            let j = choose|j: int| 0 <= j < a.len() && a[j] == b[i];
            assert(is_text_entry(a[j], x));
        }
    }
    assert(text_layers(a) =~= text_layers(b));
}

} // verus!
