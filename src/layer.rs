use vstd::prelude::*;

use crate::error::CorpusError;

verus! {

/// The closed vocabulary of layer kinds.
#[derive(Debug, Clone, Copy, PartialEq, Eq, Structural)]
pub enum LayerType {
    /// Base textual content.
    Characters,
    /// A sequence of discrete tokens over a base layer.
    Sequence,
    /// A partition of a base layer into contiguous regions.
    Div,
    /// A single annotated point attached to a base layer.
    Element,
    /// A range (start, end) over a base layer.
    Span,
}

/// The wire token of each layer type.
pub open spec fn token_of(t: LayerType) -> Seq<char> {
    match t {
        LayerType::Characters => seq!['c', 'h', 'a', 'r', 'a', 'c', 't', 'e', 'r', 's'],
        LayerType::Sequence => seq!['s', 'e', 'q'],
        LayerType::Div => seq!['d', 'i', 'v'],
        LayerType::Element => seq!['e', 'l', 'e', 'm', 'e', 'n', 't'],
        LayerType::Span => seq!['s', 'p', 'a', 'n'],
    }
}

/// The layer type whose token is `s`, if any.
pub open spec fn layer_type_of(s: Seq<char>) -> Option<LayerType> {
    if s == token_of(LayerType::Characters) {
        Some(LayerType::Characters)
    } else if s == token_of(LayerType::Sequence) {
        Some(LayerType::Sequence)
    } else if s == token_of(LayerType::Div) {
        Some(LayerType::Div)
    } else if s == token_of(LayerType::Element) {
        Some(LayerType::Element)
    } else if s == token_of(LayerType::Span) {
        Some(LayerType::Span)
    } else {
        None
    }
}

proof fn lemma_token_literals()
    ensures
        "characters"@ == token_of(LayerType::Characters),
        "seq"@ == token_of(LayerType::Sequence),
        "div"@ == token_of(LayerType::Div),
        "element"@ == token_of(LayerType::Element),
        "span"@ == token_of(LayerType::Span),
{
    reveal_strlit("characters");
    reveal_strlit("seq");
    reveal_strlit("div");
    reveal_strlit("element");
    reveal_strlit("span");
    assert("characters"@ =~= token_of(LayerType::Characters));
    assert("seq"@ =~= token_of(LayerType::Sequence));
    assert("div"@ =~= token_of(LayerType::Div));
    assert("element"@ =~= token_of(LayerType::Element));
    assert("span"@ =~= token_of(LayerType::Span));
}

/// Every layer type's token parses back to that layer type, and no other
/// string does: the tokens are distinct.
pub proof fn lemma_layer_type_round_trip(t: LayerType)
    ensures
        layer_type_of(token_of(t)) == Some(t),
        forall|u: LayerType| token_of(u) == token_of(t) ==> u == t,
{
    assert(token_of(LayerType::Sequence)[0] != token_of(LayerType::Div)[0]);
    assert(token_of(LayerType::Sequence)[1] != token_of(LayerType::Span)[1]);
}

/// Whether two strings hold the same characters.
pub fn str_equal(a: &str, b: &str) -> (r: bool)
    ensures
        r == (a@ == b@),
{
    let n = a.unicode_len();
    if n != b.unicode_len() {
        return false;
    }
    let mut i: usize = 0;
    while i < n
        invariant
            n == a@.len(),
            n == b@.len(),
            i <= n,
            a@.subrange(0, i as int) == b@.subrange(0, i as int),
        decreases n - i,
    {
        if a.get_char(i) != b.get_char(i) {
            return false;
        }
        assert(a@.subrange(0, i + 1) == a@.subrange(0, i as int).push(a@[i as int]));
        assert(b@.subrange(0, i + 1) == b@.subrange(0, i as int).push(b@[i as int]));
        i = i + 1;
    }
    assert(a@ == a@.subrange(0, n as int));
    assert(b@ == b@.subrange(0, n as int));
    true
}

impl LayerType {
    /// Parses a wire token.
    pub fn parse(s: &str) -> (r: Result<LayerType, CorpusError>)
        ensures
            layer_type_of(s@) matches Some(t) ==> r == Ok::<LayerType, CorpusError>(t),
            layer_type_of(s@) is None ==> (r matches Err(CorpusError::UnknownLayerType(u))
                && u@ == s@),
    {
        proof {
            lemma_token_literals();
        }
        if str_equal(s, "characters") {
            Ok(LayerType::Characters)
        } else if str_equal(s, "seq") {
            Ok(LayerType::Sequence)
        } else if str_equal(s, "div") {
            Ok(LayerType::Div)
        } else if str_equal(s, "element") {
            Ok(LayerType::Element)
        } else if str_equal(s, "span") {
            Ok(LayerType::Span)
        } else {
            Err(CorpusError::UnknownLayerType(String::from_str(s)))
        }
    }

    /// The wire token of this layer type.
    pub fn token(&self) -> (r: &'static str)
        ensures
            r@ == token_of(*self),
    {
        proof {
            lemma_token_literals();
        }
        match self {
            LayerType::Characters => "characters",
            LayerType::Sequence => "seq",
            LayerType::Div => "div",
            LayerType::Element => "element",
            LayerType::Span => "span",
        }
    }
}

} // verus!
