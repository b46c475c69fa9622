//! RDF/XML parsing and serialization backed by Oxigraph's `oxrdfxml` and
//! `oxrdf`.
//!
//! ICDD-specific typed views are layered above this module. Raw triples are
//! exposed so extension graphs keep unknown RDF semantics (datatypes, language
//! tags, blank nodes) through a parse/serialize cycle.

use vstd::prelude::*;

pub use oxrdf::{BlankNode, Literal, NamedNode, NamedOrBlankNode, Term, Triple};
use oxrdfxml::{RdfXmlParser, RdfXmlSerializer, SliceRdfXmlParser, WriterRdfXmlSerializer};

use vstd::seq_lib::{to_multiset_build, to_multiset_insert, to_multiset_remove};

use crate::error::IcddError;
use crate::federation::{lemma_injective_onto, takes_value};
use crate::text::{
    lemma_seq_lt_asymmetric, lemma_seq_lt_irreflexive, lemma_seq_lt_total, lemma_seq_lt_transitive,
    owned, seq_lt, str_less,
};

verus! {

/// Maximum number of triples accepted in one RDF graph.
pub const MAX_RDF_TRIPLES: usize = 1_000_000;

#[verifier::external_type_specification]
#[verifier::external_body]
pub struct ExTriple(oxrdf::Triple);

#[verifier::external_type_specification]
#[verifier::external_body]
pub struct ExNamedNode(oxrdf::NamedNode);

#[verifier::external_type_specification]
#[verifier::external_body]
pub struct ExLiteral(oxrdf::Literal);

#[verifier::external_type_specification]
#[verifier::external_body]
pub struct ExSliceRdfXmlParser<'a>(oxrdfxml::SliceRdfXmlParser<'a>);

#[verifier::external_type_specification]
#[verifier::external_body]
pub struct ExRdfXmlSyntaxError(oxrdfxml::RdfXmlSyntaxError);

#[verifier::external_type_specification]
#[verifier::external_body]
pub struct ExRdfXmlSerializer(oxrdfxml::RdfXmlSerializer);

/// The subject of a triple: a named node's IRI or a blank node's label.
pub enum SubjectParts {
    Named(String),
    Blank(String),
}

/// The object of a triple: a named node's IRI, a blank node's label, the
/// lexical form of a literal, or a kind of term the graph views do not use.
pub enum ObjectParts {
    Named(String),
    Blank(String),
    Literal(String),
    Other,
}

/// The view of a [`SubjectParts`].
pub enum SubjectPartsView {
    Named(Seq<char>),
    Blank(Seq<char>),
}

/// The view of an [`ObjectParts`].
pub enum ObjectPartsView {
    Named(Seq<char>),
    Blank(Seq<char>),
    Literal(Seq<char>),
    Other,
}

/// The parts of a triple as plain values: subject, predicate IRI, object.
pub type TriplePartsView = (SubjectPartsView, Seq<char>, ObjectPartsView);

impl DeepView for SubjectParts {
    type V = SubjectPartsView;

    open spec fn deep_view(&self) -> SubjectPartsView {
        match self {
            SubjectParts::Named(s) => SubjectPartsView::Named(s@),
            SubjectParts::Blank(s) => SubjectPartsView::Blank(s@),
        }
    }
}

impl DeepView for ObjectParts {
    type V = ObjectPartsView;

    open spec fn deep_view(&self) -> ObjectPartsView {
        match self {
            ObjectParts::Named(s) => ObjectPartsView::Named(s@),
            ObjectParts::Blank(s) => ObjectPartsView::Blank(s@),
            ObjectParts::Literal(s) => ObjectPartsView::Literal(s@),
            ObjectParts::Other => ObjectPartsView::Other,
        }
    }
}

/// The parts of `triple` (its subject, predicate IRI and object, a literal
/// by its lexical form), as [`triple_parts`] hands them out.
pub uninterp spec fn triple_view(triple: Triple) -> TriplePartsView;

/// The document a parser reads.
pub uninterp spec fn parser_input(parser: SliceRdfXmlParser) -> Seq<u8>;

/// The parts of the triples a parser has yielded so far, in order.
pub uninterp spec fn parts_yielded(parser: SliceRdfXmlParser) -> Seq<TriplePartsView>;

/// `parts` are, in order, the parts of all the triples `RdfXmlParser` yields
/// for the RDF/XML document `bytes` without a syntax error, under one choice
/// of the labels it invents for unlabelled blank nodes.
pub uninterp spec fn rdf_xml_reading(bytes: Seq<u8>, parts: Seq<TriplePartsView>) -> bool;

/// How `RdfXmlParser` reads the RDF/XML document `bytes`: the number of
/// triples it yields before it ends or yields its first syntax error, and
/// whether it yields a syntax error there. The parser reads the document in
/// order, so both depend on the bytes alone (the labels it invents for
/// unlabelled blank nodes do not enter into it).
pub uninterp spec fn rdf_xml_outcome(bytes: Seq<u8>) -> (nat, bool);

/// How many triples the parser yields for the document before it ends
/// (`Some`), or `None` when it yields a syntax error first.
pub open spec fn rdf_xml_triple_count(bytes: Seq<u8>) -> Option<nat> {
    if rdf_xml_outcome(bytes).1 {
        None
    } else {
        Some(rdf_xml_outcome(bytes).0)
    }
}

/// What is still ahead of a parser that has not yet yielded a syntax error:
/// the number of triples before it ends or yields one, and whether it then
/// yields one.
pub uninterp spec fn parser_ahead(parser: SliceRdfXmlParser) -> (nat, bool);

/// Whether the parser has yielded a syntax error.
pub uninterp spec fn parser_failed(parser: SliceRdfXmlParser) -> bool;

/// A parser over the RDF/XML document in `bytes`
/// (`RdfXmlParser::new().for_slice(bytes)`), with the whole document ahead.
#[verifier::external_body]
pub(crate) fn rdf_xml_parser(bytes: &[u8]) -> (p: SliceRdfXmlParser<'_>)
    ensures
        parser_ahead(p) == rdf_xml_outcome(bytes@),
        !parser_failed(p),
        parser_input(p) == bytes@,
        parts_yielded(p) == Seq::<TriplePartsView>::empty(),
{
    RdfXmlParser::new().for_slice(bytes)
}

/// The next item of the parser (`Iterator::next`), with a syntax error
/// rendered as its message. Until the parser has yielded a syntax error: the
/// next triple while triples are ahead, then the error where one follows,
/// else the end. A triple joins those yielded; at the end, the triples
/// yielded are a reading of the document. Which reading (the labels of
/// unlabelled blank nodes are fresh random ones) is not stated, and nothing
/// is stated of a parser that has yielded an error (it may go on).
#[verifier::external_body]
pub(crate) fn next_triple(parser: &mut SliceRdfXmlParser<'_>) -> (r: Option<Result<Triple, String>>)
    ensures
        !parser_failed(*old(parser)) ==> match parser_ahead(*old(parser)) {
            (n, errs) => if n == 0 {
                if errs {
                    r matches Some(Err(_)) && parser_failed(*final(parser))
                } else {
                    r is None
                }
            } else {
                r matches Some(Ok(_)) && parser_ahead(*final(parser)) == ((n - 1) as nat, errs)
                    && !parser_failed(*final(parser))
            },
        },
        parser_input(*final(parser)) == parser_input(*old(parser)),
        r matches Some(Ok(t)) ==> parts_yielded(*final(parser)) == parts_yielded(*old(parser)).push(
            triple_view(t),
        ),
        !parser_failed(*old(parser)) && r is None ==> rdf_xml_reading(
            parser_input(*old(parser)),
            parts_yielded(*old(parser)),
        ),
{
    match parser.next() {
        None => None,
        Some(Ok(triple)) => Some(Ok(triple)),
        Some(Err(error)) => Some(Err(error.to_string())),
    }
}

/// The parts of a triple: subject, predicate IRI and object (the fields of
/// `oxrdf::Triple`, with a literal reduced to its lexical form).
#[verifier::external_body]
pub(crate) fn triple_parts(triple: Triple) -> (r: (SubjectParts, String, ObjectParts))
    ensures
        (r.0.deep_view(), r.1@, r.2.deep_view()) == triple_view(triple),
{
    let subject = match triple.subject {
        NamedOrBlankNode::NamedNode(node) => SubjectParts::Named(node.into_string()),
        NamedOrBlankNode::BlankNode(node) => SubjectParts::Blank(node.into_string()),
    };
    let object = match triple.object {
        Term::NamedNode(node) => ObjectParts::Named(node.into_string()),
        Term::BlankNode(node) => ObjectParts::Blank(node.into_string()),
        Term::Literal(literal) => ObjectParts::Literal(literal.value().to_string()),
        #[allow(unreachable_patterns)]
        _ => ObjectParts::Other,
    };
    (subject, triple.predicate.into_string(), object)
}

/// Parse a complete RDF/XML document without discarding unknown triples,
/// literal datatypes, language tags, or blank nodes: every triple the parser
/// yields, in order. A syntax error is reported as [`IcddError::Rdf`].
pub fn parse_rdf_xml(bytes: &[u8]) -> (r: Result<Vec<Triple>, IcddError>)
    ensures
        match rdf_xml_triple_count(bytes@) {
            Some(n) => n <= usize::MAX ==> (r matches Ok(v) && v.len() == n),
            None => r matches Err(e) && e is Rdf,
        },
        r matches Ok(v) ==> rdf_xml_triple_count(bytes@) == Some(v.len() as nat),
        r matches Ok(v) ==> rdf_xml_reading(bytes@, v@.map_values(|t: Triple| triple_view(t))),
        r matches Err(e) ==> e is Rdf,
{
    let ghost outcome = rdf_xml_outcome(bytes@);
    let mut parser = rdf_xml_parser(bytes);
    let mut triples: Vec<Triple> = Vec::new();
    let ghost mut done: Seq<TriplePartsView> = Seq::empty();
    loop
        invariant_except_break
            !parser_failed(parser),
            triples.len() <= outcome.0,
            parser_ahead(parser) == ((outcome.0 - triples.len()) as nat, outcome.1),
            parser_input(parser) == bytes@,
            parts_yielded(parser) == triples@.map_values(|t: Triple| triple_view(t)),
        invariant
            outcome == rdf_xml_outcome(bytes@),
        ensures
            !outcome.1 && triples.len() == outcome.0,
            rdf_xml_reading(bytes@, done),
            done == triples@.map_values(|t: Triple| triple_view(t)),
        decreases usize::MAX - triples.len(),
    {
        let ghost before = parts_yielded(parser);
        match next_triple(&mut parser) {
            None => {
                proof {
                    done = before;
                }
                break ;
            },
            Some(Ok(triple)) => {
                if triples.len() == usize::MAX {
                    // A vector of triples cannot grow this long; the parser
                    // would have run out of memory first.
                    return Err(IcddError::Rdf(owned("too many RDF triples")));
                }
                let ghost tv = triple_view(triple);
                triples.push(triple);
                assert(triples@.map_values(|t: Triple| triple_view(t)) =~= before.push(tv));
            },
            Some(Err(message)) => {
                return Err(IcddError::Rdf(message));
            },
        }
    }
    Ok(triples)
}

// ---------------------------------------------------------------------------
// Serialization
/// The settings of an [`RdfXmlOptions`]: the document base IRI and the
/// namespace prefixes, in the order registered.
pub struct RdfXmlOptionsView {
    pub base_iri: Option<Seq<char>>,
    pub prefixes: Seq<(Seq<char>, Seq<char>)>,
}

/// Deterministic RDF/XML serialization settings.
#[derive(Debug, Clone)]
pub struct RdfXmlOptions {
    base_iri: Option<String>,
    prefixes: Vec<(String, String)>,
}

impl View for RdfXmlOptions {
    type V = RdfXmlOptionsView;

    closed spec fn view(&self) -> RdfXmlOptionsView {
        RdfXmlOptionsView { base_iri: self.base_iri.deep_view(), prefixes: self.prefixes.deep_view() }
    }
}

impl Default for RdfXmlOptions {
    /// Empty options with no base IRI or custom prefixes.
    fn default() -> (r: RdfXmlOptions)
        ensures
            r@.base_iri is None,
            r@.prefixes.len() == 0,
    {
        RdfXmlOptions::new()
    }
}

impl RdfXmlOptions {
    /// Empty options with no base IRI or custom prefixes.
    pub fn new() -> (r: RdfXmlOptions)
        ensures
            r@.base_iri is None,
            r@.prefixes.len() == 0,
    {
        RdfXmlOptions { base_iri: None, prefixes: Vec::new() }
    }

    /// Set the document base IRI.
    pub fn with_base_iri(self, iri: &str) -> (r: RdfXmlOptions)
        ensures
            r@.base_iri == Some(iri@),
            r@.prefixes == self@.prefixes,
    {
        RdfXmlOptions { base_iri: Some(owned(iri)), prefixes: self.prefixes }
    }

    /// Register a readable namespace prefix.
    pub fn with_prefix(self, prefix: &str, iri: &str) -> (r: RdfXmlOptions)
        ensures
            r@.base_iri == self@.base_iri,
            r@.prefixes == self@.prefixes.push((prefix@, iri@)),
    {
        let mut prefixes = self.prefixes;
        let ghost before = prefixes.deep_view();
        prefixes.push((owned(prefix), owned(iri)));
        assert(prefixes.deep_view() =~= before.push((prefix@, iri@)));
        RdfXmlOptions { base_iri: self.base_iri, prefixes }
    }

    /// A copy of the options.
    pub fn duplicate(&self) -> (r: RdfXmlOptions)
        ensures
            r@ == self@,
    {
        let mut prefixes: Vec<(String, String)> = Vec::new();
        let mut i: usize = 0;
        while i < self.prefixes.len()
            invariant
                i <= self.prefixes.len(),
                prefixes.deep_view() == self.prefixes.deep_view().take(i as int),
            decreases self.prefixes.len() - i,
        {
            let ghost before = prefixes.deep_view();
            let p = &self.prefixes[i];
            let entry = (p.0.clone(), p.1.clone());
            assert(entry.deep_view() == p.deep_view());
            prefixes.push(entry);
            assert(prefixes.deep_view() =~= before.push(p.deep_view()));
            assert(self.prefixes.deep_view().take(i + 1) =~= self.prefixes.deep_view().take(i as int).push(p.deep_view()));
            i = i + 1;
        }
        assert(prefixes.deep_view() =~= self.prefixes.deep_view());
        let base_iri = match &self.base_iri {
            Some(b) => Some(b.clone()),
            None => None,
        };
        RdfXmlOptions { base_iri, prefixes }
    }
}

/// The positions `order` list every key once, in ascending key order, equal
/// keys in their input order.
pub open spec fn stably_sorted(keys: Seq<Seq<char>>, order: Seq<usize>) -> bool {
    &&& order.len() == keys.len()
    &&& forall|a: int| 0 <= a < order.len() ==> #[trigger] order[a] < keys.len()
    &&& forall|a: int, b: int| 0 <= a < b < order.len() ==> order[a] != order[b]
    &&& forall|a: int, b: int|
        0 <= a < b < order.len() ==> !seq_lt(keys[order[b] as int], keys[order[a] as int])
    &&& forall|a: int, b: int|
        0 <= a < b < order.len() && keys[order[a] as int] == keys[order[b] as int] ==> order[a]
            < order[b]
}

/// The keys in the order `order` lists their positions.
pub open spec fn keys_in_order(keys: Seq<Seq<char>>, order: Seq<usize>) -> Seq<Seq<char>> {
    order.map_values(|i: usize| keys[i as int])
}

/// `order` sorts `keys`: it lists every position once, stably in ascending
/// key order, so that the keys it lists are the keys given.
pub open spec fn sorts_by_key(keys: Seq<Seq<char>>, order: Seq<usize>) -> bool {
    stably_sorted(keys, order) && keys_in_order(keys, order).to_multiset() == keys.to_multiset()
}

/// The positions of `keys` in ascending key order, equal keys in their
/// input order (a stable sort by key).
pub fn serialization_order(keys: &Vec<String>) -> (order: Vec<usize>)
    ensures
        sorts_by_key(keys.deep_view(), order@),
{
    let ghost kv = keys.deep_view();
    let mut order: Vec<usize> = Vec::new();
    let mut i: usize = 0;
    assert(keys_in_order(kv, order@) =~= kv.take(0));
    while i < keys.len()
        invariant
            i <= keys.len(),
            kv == keys.deep_view(),
            order.len() == i,
            forall|a: int| 0 <= a < order.len() ==> #[trigger] order@[a] < i,
            forall|a: int, b: int| 0 <= a < b < order.len() ==> order@[a] != order@[b],
            forall|a: int, b: int|
                0 <= a < b < order.len() ==> !seq_lt(kv[order@[b] as int], kv[order@[a] as int]),
            forall|a: int, b: int|
                0 <= a < b < order.len() && kv[order@[a] as int] == kv[order@[b] as int]
                    ==> order@[a] < order@[b],
            keys_in_order(kv, order@).to_multiset() == kv.take(i as int).to_multiset(),
        decreases keys.len() - i,
    {
        // position after every entry whose key does not come after key i
        let mut p: usize = order.len();
        while p > 0 && str_less(keys[i].as_str(), keys[order[p - 1]].as_str())
            invariant
                p <= order.len(),
                order.len() == i,
                i < keys.len(),
                kv == keys.deep_view(),
                forall|a: int| 0 <= a < order.len() ==> #[trigger] order@[a] < i,
                forall|a: int| p <= a < order.len() ==> seq_lt(kv[i as int], #[trigger] kv[order@[a] as int]),
            decreases p,
        {
            p = p - 1;
        }
        let ghost old_order = order@;
        proof {
            if p > 0 {
                assert(!seq_lt(kv[i as int], kv[old_order[p - 1] as int]));
            }
        }
        order.insert(p, i);
        assert(order@ == old_order.insert(p as int, i));
        proof {
            assert(keys_in_order(kv, order@) =~= keys_in_order(kv, old_order).insert(p as int, kv[i as int]));
            to_multiset_insert(keys_in_order(kv, old_order), p as int, kv[i as int]);
            assert(kv.take(i + 1) =~= kv.take(i as int).push(kv[i as int]));
            to_multiset_build(kv.take(i as int), kv[i as int]);
        }
        assert forall|a: int, b: int| 0 <= a < b < order.len() implies !seq_lt(
            kv[order@[b] as int],
            kv[order@[a] as int],
        ) by {
            if a < p && b < p {
                assert(order@[a] == old_order[a] && order@[b] == old_order[b]);
            } else if a < p && b == p {
                // key of old_order[a] <= key of old_order[p - 1] <= key i
                assert(order@[a] == old_order[a]);
                if a < p - 1 {
                    assert(!seq_lt(kv[old_order[p - 1] as int], kv[old_order[a] as int]));
                    if seq_lt(kv[i as int], kv[old_order[a] as int]) {
                        lemma_seq_lt_total(kv[i as int], kv[old_order[p - 1] as int]);
                        if kv[i as int] != kv[old_order[p - 1] as int] {
                            lemma_seq_lt_transitive(kv[old_order[p - 1] as int], kv[i as int], kv[old_order[a] as int]);
                        }
                    }
                }
            } else if a < p && b > p {
                assert(order@[a] == old_order[a] && order@[b] == old_order[b - 1]);
            } else if a == p {
                assert(order@[b] == old_order[b - 1]);
                lemma_seq_lt_asymmetric(kv[i as int], kv[old_order[b - 1] as int]);
            } else {
                assert(order@[a] == old_order[a - 1] && order@[b] == old_order[b - 1]);
            }
        }
        assert forall|a: int, b: int|
            0 <= a < b < order.len() && kv[order@[a] as int] == kv[order@[b] as int] implies order@[a]
                < order@[b] by {
            if a < p && b < p {
                assert(order@[a] == old_order[a] && order@[b] == old_order[b]);
            } else if a < p && b == p {
                assert(order@[a] == old_order[a]);
            } else if a < p && b > p {
                assert(order@[a] == old_order[a] && order@[b] == old_order[b - 1]);
            } else if a == p {
                assert(order@[b] == old_order[b - 1]);
                assert(seq_lt(kv[i as int], kv[old_order[b - 1] as int]));
                lemma_seq_lt_irreflexive(kv[i as int]);
            } else {
                assert(order@[a] == old_order[a - 1] && order@[b] == old_order[b - 1]);
            }
        }
        assert forall|a: int, b: int| 0 <= a < b < order.len() implies order@[a] != order@[b] by {
            if a < p && b < p {
                assert(order@[a] == old_order[a] && order@[b] == old_order[b]);
            } else if a < p && b == p {
                assert(order@[a] == old_order[a]);
            } else if a < p && b > p {
                assert(order@[a] == old_order[a] && order@[b] == old_order[b - 1]);
            } else if a == p {
                assert(order@[b] == old_order[b - 1]);
            } else {
                assert(order@[a] == old_order[a - 1] && order@[b] == old_order[b - 1]);
            }
        }
        assert forall|a: int| 0 <= a < order.len() implies #[trigger] order@[a] < i + 1 by {
            if a < p {
                assert(order@[a] == old_order[a]);
            } else if a > p {
                assert(order@[a] == old_order[a - 1]);
            }
        }
        i = i + 1;
    }
    assert(kv.take(i as int) =~= kv);
    order
}

/// The keys never decrease from one position to the next.
pub open spec fn nondecreasing(s: Seq<Seq<char>>) -> bool {
    forall|a: int, b: int| 0 <= a < b < s.len() ==> !seq_lt(s[b], s[a])
}

/// Two nondecreasing key sequences holding the same keys are equal.
proof fn lemma_sorted_unique(s1: Seq<Seq<char>>, s2: Seq<Seq<char>>)
    requires
        nondecreasing(s1),
        nondecreasing(s2),
        s1.to_multiset() == s2.to_multiset(),
    ensures
        s1 == s2,
    decreases s1.len(),
{
    s1.to_multiset_ensures();
    s2.to_multiset_ensures();
    if s1.len() == 0 {
        assert(s1 =~= s2);
    } else {
        let a = s1[0];
        let b = s2[0];
        assert(s1.to_multiset().count(a) > 0) by {
            assert(s1.contains(a));
        }
        assert(s2.contains(a));
        let i = choose|i: int| 0 <= i < s2.len() && s2[i] == a;
        assert(s1.to_multiset().count(b) > 0) by {
            assert(s2.contains(b));
        }
        assert(s1.contains(b));
        let j = choose|j: int| 0 <= j < s1.len() && s1[j] == b;
        if i > 0 {
            assert(!seq_lt(a, b));
        }
        if j > 0 {
            assert(!seq_lt(b, a));
        }
        if a != b {
            lemma_seq_lt_total(a, b);
        }
        assert(a == b);
        let r1 = s1.remove(0);
        let r2 = s2.remove(0);
        to_multiset_remove(s1, 0);
        to_multiset_remove(s2, 0);
        assert forall|x: int, y: int| 0 <= x < y < r1.len() implies !seq_lt(r1[y], r1[x]) by {
            assert(r1[x] == s1[x + 1] && r1[y] == s1[y + 1]);
        }
        assert forall|x: int, y: int| 0 <= x < y < r2.len() implies !seq_lt(r2[y], r2[x]) by {
            assert(r2[x] == s2[x + 1] && r2[y] == s2[y + 1]);
        }
        lemma_sorted_unique(r1, r2);
        assert(s1 =~= s2) by {
            assert forall|x: int| 0 <= x < s1.len() implies s1[x] == s2[x] by {
                if x > 0 {
                    assert(s1[x] == r1[x - 1] && s2[x] == r2[x - 1]);
                }
            }
        }
    }
}

/// Serialization order does not depend on the order of the input: two key
/// lists holding the same keys, in any order, are sorted into the same
/// sequence of keys, so the triples they stand for are written in the same
/// order.
pub proof fn lemma_serialization_order_canonical(k1: Seq<Seq<char>>, o1: Seq<usize>, k2: Seq<Seq<char>>, o2: Seq<usize>)
    requires
        sorts_by_key(k1, o1),
        sorts_by_key(k2, o2),
        k1.to_multiset() == k2.to_multiset(),
    ensures
        keys_in_order(k1, o1) == keys_in_order(k2, o2),
{
    let s1 = keys_in_order(k1, o1);
    let s2 = keys_in_order(k2, o2);
    assert forall|a: int, b: int| 0 <= a < b < s1.len() implies !seq_lt(s1[b], s1[a]) by {
        assert(s1[a] == k1[o1[a] as int] && s1[b] == k1[o1[b] as int]);
    }
    assert forall|a: int, b: int| 0 <= a < b < s2.len() implies !seq_lt(s2[b], s2[a]) by {
        assert(s2[a] == k2[o2[a] as int] && s2[b] == k2[o2[b] as int]);
    }
    lemma_sorted_unique(s1, s2);
}

/// Position `x` comes before position `y` in a stable sort by `keys`: its
/// key is smaller, or the keys are equal and `x` is the earlier position.
pub open spec fn sorts_before(keys: Seq<Seq<char>>, x: int, y: int) -> bool {
    seq_lt(keys[x], keys[y]) || (keys[x] == keys[y] && x < y)
}

/// The positions listed, in order, each come before the next in a stable
/// sort by `keys`.
pub open spec fn listed_in_sort_order(keys: Seq<Seq<char>>, o: Seq<usize>) -> bool {
    forall|a: int, b: int| 0 <= a < b < o.len() ==> sorts_before(keys, o[a] as int, o[b] as int)
}

/// A stable sort lists each position before every later one.
proof fn lemma_stably_sorted_ordered(keys: Seq<Seq<char>>, o: Seq<usize>)
    requires
        stably_sorted(keys, o),
    ensures
        listed_in_sort_order(keys, o),
{
    assert forall|a: int, b: int| 0 <= a < b < o.len() implies sorts_before(keys, o[a] as int, o[b] as int) by {
        let x = keys[o[a] as int];
        let y = keys[o[b] as int];
        if x != y {
            lemma_seq_lt_total(x, y);
        }
    }
}

/// Two lists of the same positions, each in stable sort order, are equal.
proof fn lemma_sort_order_unique(keys: Seq<Seq<char>>, o1: Seq<usize>, o2: Seq<usize>)
    requires
        listed_in_sort_order(keys, o1),
        listed_in_sort_order(keys, o2),
        o1.to_set() == o2.to_set(),
        o1.len() == o2.len(),
    ensures
        o1 == o2,
    decreases o1.len(),
{
    if o1.len() > 0 {
        let m1 = o1[0];
        let m2 = o2[0];
        assert(o1.to_set().contains(m1));
        assert(o2.to_set().contains(m1));
        assert(o1.to_set().contains(m2));
        if m1 != m2 {
            let b1 = choose|b: int| 0 <= b < o1.len() && o1[b] == m2;
            let b2 = choose|b: int| 0 <= b < o2.len() && o2[b] == m1;
            assert(b1 > 0 && b2 > 0);
            assert(sorts_before(keys, m1 as int, m2 as int));
            assert(sorts_before(keys, m2 as int, m1 as int));
            if keys[m1 as int] == keys[m2 as int] {
                lemma_seq_lt_irreflexive(keys[m1 as int]);
            } else {
                lemma_seq_lt_asymmetric(keys[m1 as int], keys[m2 as int]);
            }
        }
        let r1 = o1.drop_first();
        let r2 = o2.drop_first();
        assert forall|a: int, b: int| 0 <= a < b < r1.len() implies sorts_before(keys, r1[a] as int, r1[b] as int) by {
            assert(r1[a] == o1[a + 1] && r1[b] == o1[b + 1]);
        }
        assert forall|a: int, b: int| 0 <= a < b < r2.len() implies sorts_before(keys, r2[a] as int, r2[b] as int) by {
            assert(r2[a] == o2[a + 1] && r2[b] == o2[b + 1]);
        }
        assert(r1.to_set() =~= r2.to_set()) by {
            assert forall|x: usize| r1.to_set().contains(x) implies r2.to_set().contains(x) by {
                let i = choose|i: int| 0 <= i < r1.len() && r1[i] == x;
                assert(o1[i + 1] == x);
                assert(o2.to_set().contains(x));
                let j = choose|j: int| 0 <= j < o2.len() && o2[j] == x;
                if j == 0 {
                    assert(sorts_before(keys, m1 as int, x as int));
                    lemma_sorts_before_irreflexive(keys, x as int);
                }
                assert(r2[j - 1] == x);
            }
            assert forall|x: usize| r2.to_set().contains(x) implies r1.to_set().contains(x) by {
                let i = choose|i: int| 0 <= i < r2.len() && r2[i] == x;
                assert(o2[i + 1] == x);
                assert(o1.to_set().contains(x));
                let j = choose|j: int| 0 <= j < o1.len() && o1[j] == x;
                if j == 0 {
                    assert(sorts_before(keys, m2 as int, x as int));
                    lemma_sorts_before_irreflexive(keys, x as int);
                }
                assert(r1[j - 1] == x);
            }
        }
        lemma_sort_order_unique(keys, r1, r2);
        assert(o1 =~= o2) by {
            assert forall|a: int| 0 <= a < o1.len() implies o1[a] == o2[a] by {
                if a > 0 {
                    assert(o1[a] == r1[a - 1] && o2[a] == r2[a - 1]);
                }
            }
        }
    }
}

/// No position comes before itself.
proof fn lemma_sorts_before_irreflexive(keys: Seq<Seq<char>>, x: int)
    ensures
        !sorts_before(keys, x, x),
{
    lemma_seq_lt_irreflexive(keys[x]);
}

/// The N-Triples texts of the triples, by which they are ordered.
pub open spec fn text_keys(triples: Seq<Triple>) -> Seq<Seq<char>> {
    triples.map_values(|t: Triple| ntriples_text(t))
}

/// The triples in the order they are serialized: stably sorted by their
/// N-Triples text.
pub open spec fn serialization_sequence(triples: Seq<Triple>) -> Seq<Triple> {
    let o = choose|o: Seq<usize>| stably_sorted(text_keys(triples), o);
    o.map_values(|i: usize| triples[i as int])
}

/// The stable sort of the keys is the one order [`serialization_sequence`]
/// takes.
proof fn lemma_serialization_sequence(triples: Seq<Triple>, o: Seq<usize>)
    requires
        stably_sorted(text_keys(triples), o),
    ensures
        serialization_sequence(triples) == o.map_values(|i: usize| triples[i as int]),
{
    let keys = text_keys(triples);
    let c = choose|c: Seq<usize>| stably_sorted(keys, c);
    lemma_stably_sorted_ordered(keys, o);
    lemma_stably_sorted_ordered(keys, c);
    assert(o.to_set() =~= c.to_set()) by {
        lemma_permutation_set(keys, o);
        lemma_permutation_set(keys, c);
    }
    lemma_sort_order_unique(keys, o, c);
}

/// A stable sort lists exactly the positions of the keys.
proof fn lemma_permutation_set(keys: Seq<Seq<char>>, o: Seq<usize>)
    requires
        stably_sorted(keys, o),
    ensures
        forall|x: usize| o.to_set().contains(x) <==> x < keys.len(),
{
    let n = o.len() as int;
    let f = |a: int| o[a] as int;
    assert forall|a: int, b: int| 0 <= a < n && 0 <= b < n && #[trigger] f(a) == #[trigger] f(b) implies a == b by {
        if a < b {
            assert(o[a] != o[b]);
        } else if b < a {
            assert(o[b] != o[a]);
        }
    }
    lemma_injective_onto(n, f);
    assert forall|x: usize| o.to_set().contains(x) <==> x < keys.len() by {
        if x < keys.len() {
            assert(takes_value(f, n, x as int));
            let a = choose|a: int| 0 <= a < n && #[trigger] f(a) == x as int;
            assert(o[a] == x);
        }
        if o.to_set().contains(x) {
            let a = choose|a: int| 0 <= a < o.len() && o[a] == x;
        }
    }
}

/// The positions `0..n`, in order.
pub open spec fn positions(n: nat) -> Seq<usize> {
    Seq::new(n, |i: int| i as usize)
}

/// Comes before or is: the order in which a stable sort by `keys` lists
/// positions.
pub open spec fn sort_leq(keys: Seq<Seq<char>>) -> spec_fn(usize, usize) -> bool {
    |x: usize, y: usize| x == y || sorts_before(keys, x as int, y as int)
}

/// The stable sort order is a total order on positions.
proof fn lemma_sort_leq_total(keys: Seq<Seq<char>>)
    ensures
        vstd::relations::total_ordering(sort_leq(keys)),
{
    let r = sort_leq(keys);
    assert forall|x: usize, y: usize| #[trigger] r(x, y) && #[trigger] r(y, x) implies x == y by {
        if x != y {
            if keys[x as int] == keys[y as int] {
                lemma_seq_lt_irreflexive(keys[x as int]);
            } else {
                lemma_seq_lt_asymmetric(keys[x as int], keys[y as int]);
            }
        }
    }
    assert forall|x: usize, y: usize, z: usize| #[trigger] r(x, y) && #[trigger] r(y, z) implies r(x, z) by {
        if x != y && y != z {
            let (a, b, c) = (keys[x as int], keys[y as int], keys[z as int]);
            if a == b && b == c {
            } else if a == b {
                assert(seq_lt(b, c));
            } else if b == c {
                assert(seq_lt(a, b));
            } else {
                lemma_seq_lt_transitive(a, b, c);
            }
            if x == z {
                if a == b {
                    lemma_seq_lt_irreflexive(a);
                } else {
                    lemma_seq_lt_asymmetric(a, b);
                }
            }
        }
    }
    assert forall|x: usize, y: usize| #[trigger] r(x, y) || r(y, x) by {
        if keys[x as int] != keys[y as int] {
            lemma_seq_lt_total(keys[x as int], keys[y as int]);
        }
    }
}

/// Every list of keys has a stable sort, which lists the positions.
pub proof fn lemma_stable_sort_exists(keys: Seq<Seq<char>>)
    requires
        keys.len() <= usize::MAX,
    ensures
        exists|o: Seq<usize>| stably_sorted(keys, o) && o.to_multiset() == positions(keys.len()).to_multiset(),
{
    let n = keys.len();
    let p = positions(n);
    let leq = sort_leq(keys);
    lemma_sort_leq_total(keys);
    p.lemma_sort_by_ensures(leq);
    let o = p.sort_by(leq);
    assert forall|i: int, j: int| 0 <= i < p.len() && 0 <= j < p.len() && i != j implies p[i] != p[j] by {
        assert(p[i] as int == i && p[j] as int == j);
    }
    assert(p.no_duplicates());
    p.lemma_multiset_has_no_duplicates();
    o.lemma_multiset_has_no_duplicates_conv();
    p.to_multiset_ensures();
    o.to_multiset_ensures();
    assert forall|a: int| 0 <= a < o.len() implies #[trigger] o[a] < keys.len() by {
        assert(o.contains(o[a]));
        assert(p.contains(o[a]));
    }
    assert forall|a: int, b: int| 0 <= a < b < o.len() implies sorts_before(keys, o[a] as int, o[b] as int) by {
        assert(leq(o[a], o[b]));
    }
    assert forall|a: int, b: int| 0 <= a < b < o.len() implies !seq_lt(keys[o[b] as int], keys[o[a] as int]) by {
        assert(sorts_before(keys, o[a] as int, o[b] as int));
        if seq_lt(keys[o[b] as int], keys[o[a] as int]) {
            if keys[o[a] as int] == keys[o[b] as int] {
                lemma_seq_lt_irreflexive(keys[o[a] as int]);
            } else {
                lemma_seq_lt_asymmetric(keys[o[a] as int], keys[o[b] as int]);
            }
        }
    }
    assert forall|a: int, b: int| 0 <= a < b < o.len() && keys[o[a] as int] == keys[o[b] as int] implies o[a] < o[b] by {
        assert(sorts_before(keys, o[a] as int, o[b] as int));
        lemma_seq_lt_irreflexive(keys[o[a] as int]);
    }
    assert(stably_sorted(keys, o));
}

/// Mapping two sequences that hold the same items gives two sequences that
/// hold the same items.
pub proof fn lemma_map_same_items<A, B>(s1: Seq<A>, s2: Seq<A>, f: spec_fn(A) -> B)
    requires
        s1.to_multiset() == s2.to_multiset(),
    ensures
        s1.map_values(f).to_multiset() == s2.map_values(f).to_multiset(),
    decreases s1.len(),
{
    s1.to_multiset_ensures();
    s2.to_multiset_ensures();
    if s1.len() == 0 {
        assert(s2.len() == 0);
        assert(s1.map_values(f) =~= s2.map_values(f));
    } else {
        let x = s1.last();
        assert(s1.to_multiset().count(x) > 0) by {
            assert(s1.contains(x));
        }
        assert(s2.contains(x));
        let j = choose|j: int| 0 <= j < s2.len() && s2[j] == x;
        to_multiset_remove(s2, j);
        to_multiset_build(s1.drop_last(), x);
        assert(s1.drop_last().push(x) =~= s1);
        assert(s1.drop_last().to_multiset() =~= s2.remove(j).to_multiset());
        lemma_map_same_items(s1.drop_last(), s2.remove(j), f);
        let m1 = s1.map_values(f);
        let m2 = s2.map_values(f);
        assert(s1.drop_last().map_values(f) =~= m1.drop_last());
        assert(s2.remove(j).map_values(f) =~= m2.remove(j));
        to_multiset_remove(m2, j);
        to_multiset_build(m1.drop_last(), f(x));
        assert(m1.drop_last().push(f(x)) =~= m1);
        m2.to_multiset_ensures();
        assert(m2.contains(f(x))) by {
            assert(m2[j] == f(x));
        }
        assert(m2.to_multiset().count(f(x)) > 0);
        broadcast use vstd::multiset::group_multiset_axioms;
        assert(m1.to_multiset() =~= m2.to_multiset());
    }
}

/// Serialization does not depend on the order in which the triples are
/// given: triples holding the same items, of which no two different ones
/// share an N-Triples text, are serialized in the same sequence, and so as
/// the same document.
pub proof fn lemma_serialization_order_independent(t1: Seq<Triple>, t2: Seq<Triple>)
    requires
        t1.to_multiset() == t2.to_multiset(),
        t1.len() <= usize::MAX,
        forall|i: int, j: int|
            0 <= i < t1.len() && 0 <= j < t1.len() && ntriples_text(#[trigger] t1[i]) == ntriples_text(
                #[trigger] t1[j],
            ) ==> t1[i] == t1[j],
    ensures
        serialization_sequence(t1) == serialization_sequence(t2),
        forall|options: RdfXmlOptionsView|
            #[trigger] rdf_xml_document(options, serialization_sequence(t1)) == rdf_xml_document(
                options,
                serialization_sequence(t2),
            ),
{
    let k1 = text_keys(t1);
    let k2 = text_keys(t2);
    t1.to_multiset_ensures();
    t2.to_multiset_ensures();
    assert(t2.len() == t1.len());
    lemma_map_same_items(t1, t2, |t: Triple| ntriples_text(t));
    lemma_stable_sort_exists(k1);
    lemma_stable_sort_exists(k2);
    let o1 = choose|o: Seq<usize>| stably_sorted(k1, o) && o.to_multiset() == positions(k1.len()).to_multiset();
    let o2 = choose|o: Seq<usize>| stably_sorted(k2, o) && o.to_multiset() == positions(k2.len()).to_multiset();
    let g1 = |i: usize| k1[i as int];
    let g2 = |i: usize| k2[i as int];
    lemma_map_same_items(o1, positions(k1.len()), g1);
    lemma_map_same_items(o2, positions(k2.len()), g2);
    assert forall|i: int| 0 <= i < k1.len() implies #[trigger] positions(k1.len()).map_values(g1)[i] == k1[i] by {
        assert(positions(k1.len())[i] as int == i);
    }
    assert forall|i: int| 0 <= i < k2.len() implies #[trigger] positions(k2.len()).map_values(g2)[i] == k2[i] by {
        assert(positions(k2.len())[i] as int == i);
    }
    assert(positions(k1.len()).map_values(g1) =~= k1);
    assert(positions(k2.len()).map_values(g2) =~= k2);
    assert(keys_in_order(k1, o1) =~= o1.map_values(g1));
    assert(keys_in_order(k2, o2) =~= o2.map_values(g2));
    lemma_serialization_order_canonical(k1, o1, k2, o2);
    lemma_serialization_sequence(t1, o1);
    lemma_serialization_sequence(t2, o2);
    let s1 = serialization_sequence(t1);
    let s2 = serialization_sequence(t2);
    assert forall|a: int| 0 <= a < s1.len() implies s1[a] == s2[a] by {
        assert(keys_in_order(k1, o1)[a] == keys_in_order(k2, o2)[a]);
        let x = t1[o1[a] as int];
        let y = t2[o2[a] as int];
        assert(t2.contains(y));
        assert(t2.to_multiset().count(y) > 0);
        assert(t1.to_multiset().count(y) > 0);
        assert(t1.contains(y));
        let j = choose|j: int| 0 <= j < t1.len() && t1[j] == y;
        assert(ntriples_text(t1[o1[a] as int]) == ntriples_text(t1[j]));
    }
    assert(s1 =~= s2);
}

/// Whether `iri` is an absolute IRI that `oxiri::Iri::parse` accepts.
pub uninterp spec fn iri_parses(iri: Seq<char>) -> bool;

/// The prefix name that `oxrdfxml` keeps for itself and silently skips.
pub const RESERVED_PREFIX: &'static str = "oxprefix";

/// Whether the serializer accepts the options: the base IRI, where there is
/// one, parses, and so does the IRI of every prefix other than the reserved one.
pub open spec fn options_accepted(options: RdfXmlOptionsView) -> bool {
    &&& options.base_iri matches Some(base) ==> iri_parses(base)
    &&& forall|k: int|
        0 <= k < options.prefixes.len() ==> options.prefixes[k].0 == RESERVED_PREFIX@ || iri_parses(
            #[trigger] options.prefixes[k].1,
        )
}

/// An RDF/XML serializer writing into a byte vector
/// (`oxrdfxml::WriterRdfXmlSerializer<Vec<u8>>`), known by its settings and
/// the triples written into it; the serializer itself is a private field.
#[verifier::external_body]
pub struct RdfXmlWriter {
    inner: WriterRdfXmlSerializer<Vec<u8>>,
}

/// The settings a serializer configuration was given, in order: its base
/// IRI and the namespace prefixes registered (the reserved one included,
/// which the configuration skips).
pub uninterp spec fn serializer_settings(config: RdfXmlSerializer) -> RdfXmlOptionsView;

/// The settings of the configuration a serializer was made from.
pub uninterp spec fn writer_settings(writer: RdfXmlWriter) -> RdfXmlOptionsView;

/// The triples a serializer has written, in order.
pub uninterp spec fn writer_triples(writer: RdfXmlWriter) -> Seq<Triple>;

/// Whether writing a triple into the serializer has failed; after a failure
/// nothing is stated of what it holds.
pub uninterp spec fn writer_failed(writer: RdfXmlWriter) -> bool;

/// The RDF/XML document `oxrdfxml` writes, from a configuration with the
/// settings `options`, for the triples `triples` serialized in this order.
/// The serializer keeps its prefixes in a `BTreeMap` and groups consecutive
/// triples of one subject, so the bytes depend on these arguments alone.
pub uninterp spec fn rdf_xml_document(options: RdfXmlOptionsView, triples: Seq<Triple>) -> Seq<u8>;

/// The N-Triples text of a triple, as its `Display` implementation writes it.
pub uninterp spec fn ntriples_text(triple: Triple) -> Seq<char>;

/// A serializer configuration with no base IRI and no prefixes
/// (`RdfXmlSerializer::new`).
#[verifier::external_body]
fn serializer_config() -> (r: RdfXmlSerializer)
    ensures
        serializer_settings(r) == (RdfXmlOptionsView {
            base_iri: None,
            prefixes: Seq::<(Seq<char>, Seq<char>)>::empty(),
        }),
{
    RdfXmlSerializer::new()
}

/// The configuration with `iri` as base IRI (`RdfXmlSerializer::with_base_iri`),
/// which fails exactly when `iri` does not parse as an IRI.
#[verifier::external_body]
fn config_with_base_iri(config: RdfXmlSerializer, iri: &str) -> (r: Result<RdfXmlSerializer, String>)
    ensures
        r is Ok <==> iri_parses(iri@),
        r matches Ok(c) ==> serializer_settings(c) == (RdfXmlOptionsView {
            base_iri: Some(iri@),
            prefixes: serializer_settings(config).prefixes,
        }),
{
    config.with_base_iri(iri).map_err(|error| error.to_string())
}

/// The configuration with one more namespace prefix
/// (`RdfXmlSerializer::with_prefix`). The reserved prefix name is skipped and
/// never fails; any other fails exactly when `iri` does not parse.
#[verifier::external_body]
fn config_with_prefix(config: RdfXmlSerializer, prefix: &str, iri: &str) -> (r: Result<RdfXmlSerializer, String>)
    ensures
        prefix@ == RESERVED_PREFIX@ ==> r is Ok,
        prefix@ != RESERVED_PREFIX@ ==> (r is Ok <==> iri_parses(iri@)),
        r matches Ok(c) ==> serializer_settings(c) == (RdfXmlOptionsView {
            base_iri: serializer_settings(config).base_iri,
            prefixes: serializer_settings(config).prefixes.push((prefix@, iri@)),
        }),
{
    config.with_prefix(prefix, iri).map_err(|error| error.to_string())
}

/// A serializer that writes into a fresh byte vector
/// (`RdfXmlSerializer::for_writer(Vec::new())`), with no triple written.
#[verifier::external_body]
fn rdf_xml_writer(config: RdfXmlSerializer) -> (w: RdfXmlWriter)
    ensures
        writer_settings(w) == serializer_settings(config),
        writer_triples(w) == Seq::<Triple>::empty(),
        !writer_failed(w),
{
    RdfXmlWriter { inner: config.for_writer(Vec::new()) }
}

/// The N-Triples text of a triple (its `Display` form), the key by which
/// triples are ordered before serialization.
#[verifier::external_body]
fn triple_text(triple: &Triple) -> (r: String)
    ensures
        r@ == ntriples_text(*triple),
{
    triple.to_string()
}

/// The RDF/XML syntax terms that `oxrdfxml` refuses as predicates.
pub open spec fn reserved_syntax_term(p: Seq<char>) -> bool {
    ||| p == "http://www.w3.org/1999/02/22-rdf-syntax-ns#Description"@
    ||| p == "http://www.w3.org/1999/02/22-rdf-syntax-ns#li"@
    ||| p == "http://www.w3.org/1999/02/22-rdf-syntax-ns#RDF"@
    ||| p == "http://www.w3.org/1999/02/22-rdf-syntax-ns#ID"@
    ||| p == "http://www.w3.org/1999/02/22-rdf-syntax-ns#about"@
    ||| p == "http://www.w3.org/1999/02/22-rdf-syntax-ns#parseType"@
    ||| p == "http://www.w3.org/1999/02/22-rdf-syntax-ns#resource"@
    ||| p == "http://www.w3.org/1999/02/22-rdf-syntax-ns#nodeID"@
    ||| p == "http://www.w3.org/1999/02/22-rdf-syntax-ns#datatype"@
}

/// Serialize one more triple (`WriterRdfXmlSerializer::serialize_triple`);
/// an error is rendered as its message. It fails exactly when the predicate
/// is a reserved RDF/XML syntax term (writing into a byte vector does not
/// fail); a triple written joins those written.
#[verifier::external_body]
fn write_triple(writer: &mut RdfXmlWriter, triple: &Triple) -> (r: Result<(), String>)
    ensures
        !writer_failed(*old(writer)) ==> (r is Ok <==> !reserved_syntax_term(triple_view(*triple).1)),
        r is Ok ==> writer_triples(*final(writer)) == writer_triples(*old(writer)).push(*triple)
            && writer_settings(*final(writer)) == writer_settings(*old(writer)) && writer_failed(*final(writer))
            == writer_failed(*old(writer)),
{
    writer.inner.serialize_triple(triple.as_ref()).map_err(|error| error.to_string())
}

/// Close the document and hand out its bytes (`WriterRdfXmlSerializer::finish`),
/// which does not fail when writing into a byte vector: the document for
/// the settings and the triples written.
#[verifier::external_body]
fn finish_rdf_xml(writer: RdfXmlWriter) -> (r: Result<Vec<u8>, String>)
    ensures
        r is Ok,
        r matches Ok(bytes) ==> (!writer_failed(writer) ==> bytes@ == rdf_xml_document(
            writer_settings(writer),
            writer_triples(writer),
        )),
{
    writer.inner.finish().map_err(|error| error.to_string())
}

/// The serializer configured with `options`: the base IRI first, then the
/// prefixes in the order registered.
fn configure(options: &RdfXmlOptions) -> (r: Result<RdfXmlSerializer, IcddError>)
    ensures
        r is Ok <==> options_accepted(options@),
        r matches Err(e) ==> e is Rdf,
        r matches Ok(c) ==> serializer_settings(c) == options@,
{
    let mut config = serializer_config();
    match &options.base_iri {
        Some(base) => {
            match config_with_base_iri(config, base.as_str()) {
                Ok(c) => {
                    config = c;
                },
                Err(message) => {
                    return Err(IcddError::Rdf(message));
                },
            }
        },
        None => {},
    }
    let ghost prefixes = options@.prefixes;
    let mut i: usize = 0;
    assert(prefixes.take(0) =~= Seq::<(Seq<char>, Seq<char>)>::empty());
    while i < options.prefixes.len()
        invariant
            i <= options.prefixes.len(),
            prefixes == options@.prefixes,
            prefixes.len() == options.prefixes.len(),
            options@.base_iri matches Some(base) ==> iri_parses(base),
            forall|k: int|
                0 <= k < i ==> prefixes[k].0 == RESERVED_PREFIX@ || iri_parses(#[trigger] prefixes[k].1),
            serializer_settings(config) == (RdfXmlOptionsView { base_iri: options@.base_iri, prefixes: prefixes.take(i as int) }),
        decreases options.prefixes.len() - i,
    {
        let entry = &options.prefixes[i];
        assert(prefixes[i as int] == (entry.0@, entry.1@));
        match config_with_prefix(config, entry.0.as_str(), entry.1.as_str()) {
            Ok(c) => {
                config = c;
            },
            Err(message) => {
                assert(!(prefixes[i as int].0 == RESERVED_PREFIX@ || iri_parses(prefixes[i as int].1)));
                return Err(IcddError::Rdf(message));
            },
        }
        assert(prefixes.take(i + 1) =~= prefixes.take(i as int).push(prefixes[i as int]));
        i = i + 1;
    }
    assert(prefixes.take(i as int) =~= prefixes);
    Ok(config)
}

/// Serialize an RDF graph with Oxigraph's RDF/XML serializer.
///
/// Input triples are written in ascending order of their N-Triples text
/// (stably), making output independent of caller insertion order. RDF
/// semantics are preserved; lexical XML layout is intentionally not a
/// round-trip contract. Options the serializer refuses (an IRI that does not
/// parse) give [`IcddError::Rdf`], as does a triple that RDF/XML cannot
/// express.
pub fn serialize_rdf_xml(triples: &[Triple], options: RdfXmlOptions) -> (r: Result<Vec<u8>, IcddError>)
    ensures
        r is Ok <==> options_accepted(options@) && forall|i: int|
            0 <= i < triples@.len() ==> !reserved_syntax_term(#[trigger] triple_view(triples@[i]).1),
        r matches Err(e) ==> e is Rdf,
        r matches Ok(bytes) ==> bytes@ == rdf_xml_document(options@, serialization_sequence(triples@)),
{
    let config = match configure(&options) {
        Ok(c) => c,
        Err(e) => {
            return Err(e);
        },
    };
    let mut keys: Vec<String> = Vec::new();
    let mut i: usize = 0;
    while i < triples.len()
        invariant
            i <= triples.len(),
            keys.len() == i,
            keys.deep_view() == text_keys(triples@).take(i as int),
        decreases triples.len() - i,
    {
        let ghost before = keys.deep_view();
        let text = triple_text(&triples[i]);
        keys.push(text);
        assert(keys.deep_view() =~= text_keys(triples@).take(i + 1));
        i = i + 1;
    }
    assert(keys.deep_view() =~= text_keys(triples@));
    let order = serialization_order(&keys);
    let mut writer = rdf_xml_writer(config);
    let mut k: usize = 0;
    while k < order.len()
        invariant
            k <= order.len(),
            stably_sorted(keys.deep_view(), order@),
            keys.len() == triples.len(),
            options_accepted(options@),
            !writer_failed(writer),
            writer_settings(writer) == options@,
            writer_triples(writer) == order@.take(k as int).map_values(|j: usize| triples@[j as int]),
            forall|a: int| 0 <= a < k ==> !reserved_syntax_term(triple_view(triples@[#[trigger] order@[a] as int]).1),
        decreases order.len() - k,
    {
        assert(order@[k as int] < keys.deep_view().len());
        let triple = &triples[order[k]];
        match write_triple(&mut writer, triple) {
            Ok(()) => {},
            Err(message) => {
                assert(reserved_syntax_term(triple_view(triples@[order@[k as int] as int]).1));
                return Err(IcddError::Rdf(message));
            },
        }
        assert(order@.take(k + 1).map_values(|j: usize| triples@[j as int]) =~= order@.take(k as int).map_values(
            |j: usize| triples@[j as int],
        ).push(triples@[order@[k as int] as int]));
        k = k + 1;
    }
    assert(order@.take(k as int) =~= order@);
    proof {
        lemma_serialization_sequence(triples@, order@);
    }
    proof {
        let n = triples@.len() as int;
        let f = |a: int| order@[a] as int;
        assert forall|a: int, b: int| 0 <= a < n && 0 <= b < n && #[trigger] f(a) == #[trigger] f(b) implies a == b by {
            if a < b {
                assert(order@[a] != order@[b]);
            } else if b < a {
                assert(order@[b] != order@[a]);
            }
        }
        assert forall|a: int| 0 <= a < n implies 0 <= #[trigger] f(a) < n by {
            assert(order@[a] < keys.deep_view().len());
        }
        lemma_injective_onto(n, f);
        assert forall|i: int| 0 <= i < n implies !reserved_syntax_term(#[trigger] triple_view(triples@[i]).1) by {
            assert(takes_value(f, n, i));
            let a = choose|a: int| 0 <= a < n && #[trigger] f(a) == i;
            assert(order@[a] as int == i);
        }
    }
    match finish_rdf_xml(writer) {
        Ok(bytes) => Ok(bytes),
        Err(message) => Err(IcddError::Rdf(message)),
    }
}

} // verus!
