//! A small subject-indexed view over an RDF graph.
//!
//! The ICDD graphs are small and star-shaped (ContainerDescription →
//! documents; Link → elements), so a full triple store is not needed: only
//! "the objects of predicate P on subject S" and "the subjects with rdf:type T".
//! Subjects are kept in ascending order, so every listing derived from the
//! graph comes out in the same order on every run.

use vstd::prelude::*;

use crate::error::{not_conformant, IcddError};
use crate::rdf::{
    triple_view, next_triple, parser_ahead, parser_failed, parser_input, parts_yielded, rdf_xml_outcome,
    rdf_xml_parser, rdf_xml_reading, rdf_xml_triple_count, triple_parts, ObjectParts, ObjectPartsView, SubjectParts, SubjectPartsView,
    TriplePartsView, MAX_RDF_TRIPLES,
};
use crate::text::{
    concat, decimal, decimal_string, lemma_seq_lt_irreflexive, lemma_seq_lt_total, lemma_seq_lt_transitive, owned, seq_lt,
    str_eq, str_less,
};
use crate::vocab::RDF_TYPE;

verus! {

/// One object value on a subject: a resource (IRI or `_:label` of a blank
/// node) or the lexical form of a literal.
#[derive(Debug)]
pub enum Obj {
    /// A resource reference: the subject id it points at.
    Resource(String),
    /// A literal value (the lexical form).
    Literal(String),
}

/// The mathematical value of an [`Obj`].
pub enum ObjView {
    Resource(Seq<char>),
    Literal(Seq<char>),
}

impl DeepView for Obj {
    type V = ObjView;

    open spec fn deep_view(&self) -> ObjView {
        match self {
            Obj::Resource(s) => ObjView::Resource(s@),
            Obj::Literal(s) => ObjView::Literal(s@),
        }
    }
}

impl View for Obj {
    type V = ObjView;

    open spec fn view(&self) -> ObjView {
        self.deep_view()
    }
}

impl Obj {
    /// The literal string, if this is a literal.
    pub fn as_literal(&self) -> (r: Option<&str>)
        ensures
            match self@ {
                ObjView::Literal(s) => r matches Some(x) && x@ == s,
                ObjView::Resource(_) => r is None,
            },
    {
        match self {
            Obj::Literal(s) => Some(s.as_str()),
            _ => None,
        }
    }

    /// The referenced subject id, if this is a resource.
    pub fn as_resource(&self) -> (r: Option<&str>)
        ensures
            match self@ {
                ObjView::Resource(s) => r matches Some(x) && x@ == s,
                ObjView::Literal(_) => r is None,
            },
    {
        match self {
            Obj::Resource(s) => Some(s.as_str()),
            _ => None,
        }
    }

    fn duplicate(&self) -> (r: Obj)
        ensures
            r@ == self@,
    {
        match self {
            Obj::Resource(s) => Obj::Resource(s.clone()),
            Obj::Literal(s) => Obj::Literal(s.clone()),
        }
    }
}

/// A `(predicate, object)` pair on a subject.
pub type PairView = (Seq<char>, ObjView);

/// A subject with all its `(predicate, object)` pairs, in the order stated.
pub type EntryView = (Seq<char>, Seq<PairView>);

/// One statement of a graph, as the graph records it.
pub struct GraphTriple {
    /// The subject id (IRI, or `_:label` for a blank node).
    pub subject: String,
    /// The predicate IRI.
    pub predicate: String,
    /// The object.
    pub object: Obj,
}

impl DeepView for GraphTriple {
    type V = (Seq<char>, PairView);

    open spec fn deep_view(&self) -> (Seq<char>, PairView) {
        (self.subject@, (self.predicate@, self.object@))
    }
}

/// The subject ids of the entries, in order.
pub open spec fn keys_of(es: Seq<EntryView>) -> Seq<Seq<char>> {
    es.map_values(|e: EntryView| e.0)
}

/// The ids are in strictly ascending order (so each occurs once).
pub open spec fn strictly_sorted(keys: Seq<Seq<char>>) -> bool {
    forall|i: int, j: int| 0 <= i < j < keys.len() ==> seq_lt(keys[i], keys[j])
}

/// The number of leading ids that come before `s`: the position where `s` is
/// found or would be inserted.
pub open spec fn lower_bound(keys: Seq<Seq<char>>, s: Seq<char>) -> int
    decreases keys.len(),
{
    if keys.len() == 0 {
        0
    } else if seq_lt(keys[0], s) {
        1 + lower_bound(keys.drop_first(), s)
    } else {
        0
    }
}

/// The entries after recording the pair `pr` on subject `s`: appended to the
/// pairs of `s`, or as a new subject at its place in the order.
pub open spec fn insert_pair(es: Seq<EntryView>, s: Seq<char>, pr: PairView) -> Seq<EntryView> {
    let k = lower_bound(keys_of(es), s);
    if k < es.len() && es[k].0 == s {
        es.update(k, (s, es[k].1.push(pr)))
    } else {
        es.insert(k, (s, seq![pr]))
    }
}

/// The graph built from statements, recorded in order.
pub open spec fn graph_of(ts: Seq<(Seq<char>, PairView)>) -> Seq<EntryView>
    decreases ts.len(),
{
    if ts.len() == 0 {
        Seq::<EntryView>::empty()
    } else {
        insert_pair(graph_of(ts.drop_last()), ts.last().0, ts.last().1)
    }
}

/// The pairs recorded on subject `s` (empty if there is no such subject).
pub open spec fn pairs_of(es: Seq<EntryView>, s: Seq<char>) -> Seq<PairView> {
    let k = lower_bound(keys_of(es), s);
    if k < es.len() && es[k].0 == s {
        es[k].1
    } else {
        Seq::<PairView>::empty()
    }
}

/// The pairs of the statements about `s`, in statement order.
pub open spec fn pairs_about(ts: Seq<(Seq<char>, PairView)>, s: Seq<char>) -> Seq<PairView>
    decreases ts.len(),
{
    if ts.len() == 0 {
        Seq::<PairView>::empty()
    } else if ts.last().0 == s {
        pairs_about(ts.drop_last(), s).push(ts.last().1)
    } else {
        pairs_about(ts.drop_last(), s)
    }
}

/// The objects of the pairs with predicate `pred`, in order.
pub open spec fn objects_with(pairs: Seq<PairView>, pred: Seq<char>) -> Seq<ObjView>
    decreases pairs.len(),
{
    if pairs.len() == 0 {
        Seq::<ObjView>::empty()
    } else if pairs.last().0 == pred {
        objects_with(pairs.drop_last(), pred).push(pairs.last().1)
    } else {
        objects_with(pairs.drop_last(), pred)
    }
}

/// The objects of `pred` on subject `s`.
pub open spec fn spec_objects(es: Seq<EntryView>, s: Seq<char>, pred: Seq<char>) -> Seq<ObjView> {
    objects_with(pairs_of(es, s), pred)
}

/// Some object is the resource `iri`.
pub open spec fn has_resource(objs: Seq<ObjView>, iri: Seq<char>) -> bool {
    exists|i: int| 0 <= i < objs.len() && objs[i] == ObjView::Resource(iri)
}

/// The pairs give the subject the `rdf:type` `iri`.
pub open spec fn typed_as(pairs: Seq<PairView>, iri: Seq<char>) -> bool {
    has_resource(objects_with(pairs, RDF_TYPE@), iri)
}

/// The subjects with `rdf:type` `iri`, in the order of the entries.
pub open spec fn subjects_typed(es: Seq<EntryView>, iri: Seq<char>) -> Seq<Seq<char>>
    decreases es.len(),
{
    if es.len() == 0 {
        Seq::<Seq<char>>::empty()
    } else if typed_as(es.last().1, iri) {
        subjects_typed(es.drop_last(), iri).push(es.last().0)
    } else {
        subjects_typed(es.drop_last(), iri)
    }
}

/// The subjects of a graph with a given type are in ascending order, and
/// are exactly the subjects whose pairs give them that type.
pub proof fn lemma_subjects_typed(es: Seq<EntryView>, iri: Seq<char>)
    requires
        strictly_sorted(keys_of(es)),
    ensures
        strictly_sorted(subjects_typed(es, iri)),
        forall|t: Seq<char>|
            #[trigger] subjects_typed(es, iri).contains(t) <==> exists|j: int|
                0 <= j < es.len() && es[j].0 == t && typed_as(es[j].1, iri),
    decreases es.len(),
{
    if es.len() > 0 {
        let init = es.drop_last();
        assert(keys_of(init) =~= keys_of(es).drop_last());
        assert forall|i: int, j: int| 0 <= i < j < keys_of(init).len() implies seq_lt(
            keys_of(init)[i],
            keys_of(init)[j],
        ) by {
            assert(keys_of(init)[i] == keys_of(es)[i]);
            assert(keys_of(init)[j] == keys_of(es)[j]);
        }
        lemma_subjects_typed(init, iri);
        let st = subjects_typed(es, iri);
        let si = subjects_typed(init, iri);
        let last = es[es.len() - 1];
        assert(es.last() == last);
        assert forall|t: Seq<char>|
            #[trigger] st.contains(t) <==> exists|j: int| 0 <= j < es.len() && es[j].0 == t && typed_as(es[j].1, iri) by {
            if st.contains(t) {
                if si.contains(t) {
                    let j = choose|j: int| 0 <= j < init.len() && init[j].0 == t && typed_as(init[j].1, iri);
                    assert(es[j] == init[j]);
                } else {
                    assert(typed_as(last.1, iri));
                    let k = choose|k: int| 0 <= k < st.len() && st[k] == t;
                    assert(st == si.push(last.0));
                    if k < si.len() {
                        assert(st[k] == si[k]);
                    }
                    assert(es[es.len() - 1].0 == t);
                }
            }
            if exists|j: int| 0 <= j < es.len() && es[j].0 == t && typed_as(es[j].1, iri) {
                let j = choose|j: int| 0 <= j < es.len() && es[j].0 == t && typed_as(es[j].1, iri);
                if j < es.len() - 1 {
                    assert(init[j] == es[j]);
                    assert(si.contains(t));
                    let k = choose|k: int| 0 <= k < si.len() && si[k] == t;
                    if typed_as(last.1, iri) {
                        assert(st[k] == si[k]);
                    }
                } else {
                    assert(st == si.push(last.0));
                    assert(st[si.len() as int] == t);
                }
            }
        }
        if typed_as(last.1, iri) {
            assert(st == si.push(last.0));
            assert forall|i: int, j: int| 0 <= i < j < st.len() implies seq_lt(st[i], st[j]) by {
                if j == si.len() {
                    assert(si.contains(st[i]));
                    let k = choose|k: int| 0 <= k < init.len() && init[k].0 == st[i] && typed_as(init[k].1, iri);
                    assert(keys_of(es)[k] == st[i]);
                    assert(keys_of(es)[es.len() - 1] == last.0);
                } else {
                    assert(st[i] == si[i] && st[j] == si[j]);
                }
            }
        }
    }
}

/// A subject is among those listed with a type exactly when its pairs give it
/// that type, in a graph whose subjects are in ascending order.
pub proof fn lemma_typed_subjects_agree(es: Seq<EntryView>, s: Seq<char>, iri: Seq<char>)
    requires
        strictly_sorted(keys_of(es)),
    ensures
        subjects_typed(es, iri).contains(s) <==> typed_as(pairs_of(es, s), iri),
{
    lemma_subjects_typed(es, iri);
    if keys_of(es).contains(s) {
        let j = choose|j: int| 0 <= j < keys_of(es).len() && keys_of(es)[j] == s;
        assert(es[j].0 == s);
        lemma_pairs_of_at(es, j);
        if subjects_typed(es, iri).contains(s) {
            let k = choose|k: int| 0 <= k < es.len() && es[k].0 == s && typed_as(es[k].1, iri);
            lemma_pairs_of_at(es, k);
        }
    } else {
        lemma_pairs_of_absent(es, s);
        let objs = objects_with(Seq::<PairView>::empty(), RDF_TYPE@);
        assert(objs.len() == 0);
        if subjects_typed(es, iri).contains(s) {
            let k = choose|k: int| 0 <= k < es.len() && es[k].0 == s && typed_as(es[k].1, iri);
            assert(keys_of(es)[k] == s);
        }
    }
}

/// The id of a subject or resource node: a named node's IRI, or `_:` and
/// a blank node's label.
pub open spec fn node_id(blank: bool, text: Seq<char>) -> Seq<char> {
    if blank {
        "_:"@ + text
    } else {
        text
    }
}

/// The statement the parts of a triple give, unless its object is a kind of
/// term the graph does not keep.
pub open spec fn statement_of_parts(p: TriplePartsView) -> Option<(Seq<char>, PairView)> {
    let subject = match p.0 {
        SubjectPartsView::Named(iri) => node_id(false, iri),
        SubjectPartsView::Blank(label) => node_id(true, label),
    };
    match p.2 {
        ObjectPartsView::Named(iri) => Some((subject, (p.1, ObjView::Resource(node_id(false, iri))))),
        ObjectPartsView::Blank(label) => Some((subject, (p.1, ObjView::Resource(node_id(true, label))))),
        ObjectPartsView::Literal(v) => Some((subject, (p.1, ObjView::Literal(v)))),
        ObjectPartsView::Other => None,
    }
}

/// The statements the parts of a run of triples give, in order.
pub open spec fn statements_of(parts: Seq<TriplePartsView>) -> Seq<(Seq<char>, PairView)>
    decreases parts.len(),
{
    if parts.len() == 0 {
        Seq::empty()
    } else {
        let init = statements_of(parts.drop_last());
        match statement_of_parts(parts.last()) {
            Some(t) => init.push(t),
            None => init,
        }
    }
}

/// There are no more statements than triples.
pub proof fn lemma_statements_of_len(parts: Seq<TriplePartsView>)
    ensures
        statements_of(parts).len() <= parts.len(),
    decreases parts.len(),
{
    if parts.len() > 0 {
        lemma_statements_of_len(parts.drop_last());
    }
}

/// `g` is the graph of one reading of the RDF/XML document `bytes`, of at
/// most [`MAX_RDF_TRIPLES`] triples.
pub open spec fn graph_read(bytes: Seq<u8>, g: Seq<EntryView>) -> bool {
    exists|parts: Seq<TriplePartsView>|
        #[trigger] rdf_xml_reading(bytes, parts) && parts.len() <= MAX_RDF_TRIPLES && g == graph_of(
            statements_of(parts),
        )
}

/// Whether the RDF/XML document `bytes` parses into a graph: it reads without
/// a syntax error, in at most [`MAX_RDF_TRIPLES`] triples.
pub open spec fn parses_within_limit(bytes: Seq<u8>) -> bool {
    rdf_xml_triple_count(bytes) matches Some(n) && n <= MAX_RDF_TRIPLES
}

/// Whether reading the RDF/XML document `bytes` into a graph stops at the
/// triple limit: the parser yields an item (a triple, or its first syntax
/// error) after [`MAX_RDF_TRIPLES`] triples.
pub open spec fn over_triple_limit(bytes: Seq<u8>) -> bool {
    if rdf_xml_outcome(bytes).1 {
        rdf_xml_outcome(bytes).0 >= MAX_RDF_TRIPLES
    } else {
        rdf_xml_outcome(bytes).0 > MAX_RDF_TRIPLES
    }
}

/// The error of a graph read from `bytes` that does not parse within the
/// limit: the triple-limit refusal where the limit is reached first, else the
/// parser's syntax error as [`IcddError::Rdf`].
pub open spec fn graph_read_error(bytes: Seq<u8>, e: IcddError) -> bool {
    if over_triple_limit(bytes) {
        e.is_not_conformant(triple_limit_detail())
    } else {
        e is Rdf
    }
}

/// The graph read from `bytes` is small enough for the statement bound the
/// graph views use.
pub proof fn lemma_graph_read_bounded(bytes: Seq<u8>, g: Seq<EntryView>)
    requires
        graph_read(bytes, g),
    ensures
        exists|ts: Seq<(Seq<char>, PairView)>| ts.len() <= MAX_RDF_TRIPLES && g == graph_of(ts),
{
    let parts = choose|parts: Seq<TriplePartsView>|
        #[trigger] rdf_xml_reading(bytes, parts) && parts.len() <= MAX_RDF_TRIPLES && g == graph_of(
            statements_of(parts),
        );
    lemma_statements_of_len(parts);
    assert(statements_of(parts).len() <= MAX_RDF_TRIPLES && g == graph_of(statements_of(parts)));
}

/// The detail text of the error for a graph over the triple limit.
pub open spec fn triple_limit_detail() -> Seq<char> {
    "RDF graph exceeds the "@ + decimal(MAX_RDF_TRIPLES as nat) + "-triple limit"@
}

/// The first literal among the objects.
pub open spec fn first_literal(objs: Seq<ObjView>) -> Option<Seq<char>>
    decreases objs.len(),
{
    if objs.len() == 0 {
        None
    } else if let ObjView::Literal(s) = objs[0] {
        Some(s)
    } else {
        first_literal(objs.drop_first())
    }
}

/// The first resource among the objects.
pub open spec fn first_resource(objs: Seq<ObjView>) -> Option<Seq<char>>
    decreases objs.len(),
{
    if objs.len() == 0 {
        None
    } else if let ObjView::Resource(s) = objs[0] {
        Some(s)
    } else {
        first_resource(objs.drop_first())
    }
}

// ---------------------------------------------------------------------------
// Lemmas on the ordered entries
pub proof fn lemma_lower_bound(keys: Seq<Seq<char>>, s: Seq<char>)
    ensures
        0 <= lower_bound(keys, s) <= keys.len(),
        forall|j: int| 0 <= j < lower_bound(keys, s) ==> seq_lt(#[trigger] keys[j], s),
        lower_bound(keys, s) < keys.len() ==> !seq_lt(keys[lower_bound(keys, s)], s),
    decreases keys.len(),
{
    if keys.len() > 0 && seq_lt(keys[0], s) {
        let rest = keys.drop_first();
        lemma_lower_bound(rest, s);
        assert forall|j: int| 0 <= j < lower_bound(keys, s) implies seq_lt(#[trigger] keys[j], s) by {
            if j > 0 {
                assert(keys[j] == rest[j - 1]);
            }
        }
    }
}

pub proof fn lemma_lower_bound_sorted(keys: Seq<Seq<char>>, s: Seq<char>)
    requires
        strictly_sorted(keys),
    ensures
        forall|j: int| lower_bound(keys, s) <= j < keys.len() ==> !seq_lt(#[trigger] keys[j], s),
{
    lemma_lower_bound(keys, s);
    let k = lower_bound(keys, s);
    assert forall|j: int| k <= j < keys.len() implies !seq_lt(#[trigger] keys[j], s) by {
        if j > k && seq_lt(keys[j], s) {
            lemma_seq_lt_transitive(keys[k], keys[j], s);
        }
    }
}

pub proof fn lemma_lower_bound_at(keys: Seq<Seq<char>>, s: Seq<char>, i: int)
    requires
        strictly_sorted(keys),
        0 <= i < keys.len(),
        keys[i] == s,
    ensures
        lower_bound(keys, s) == i,
{
    lemma_lower_bound(keys, s);
    lemma_lower_bound_sorted(keys, s);
    let k = lower_bound(keys, s);
    if i < k {
        assert(seq_lt(keys[i], s));
        lemma_seq_lt_irreflexive(s);
    }
    if i > k {
        assert(seq_lt(keys[k], keys[i]));
    }
}

/// Looking a subject up finds the entry that holds it.
pub proof fn lemma_pairs_of_at(es: Seq<EntryView>, i: int)
    requires
        strictly_sorted(keys_of(es)),
        0 <= i < es.len(),
    ensures
        pairs_of(es, es[i].0) == es[i].1,
{
    assert(keys_of(es)[i] == es[i].0);
    lemma_lower_bound_at(keys_of(es), es[i].0, i);
}

/// A subject that no entry holds has no pairs.
pub proof fn lemma_pairs_of_absent(es: Seq<EntryView>, s: Seq<char>)
    requires
        !keys_of(es).contains(s),
    ensures
        pairs_of(es, s) == Seq::<PairView>::empty(),
{
    lemma_lower_bound(keys_of(es), s);
    let k = lower_bound(keys_of(es), s);
    if k < es.len() && es[k].0 == s {
        assert(keys_of(es)[k] == s);
    }
}

/// Recording a pair keeps the order of the entries, adds the subject, and
/// appends the pair to that subject alone.
pub proof fn lemma_insert_pair(es: Seq<EntryView>, s: Seq<char>, pr: PairView)
    requires
        strictly_sorted(keys_of(es)),
    ensures
        strictly_sorted(keys_of(insert_pair(es, s, pr))),
        forall|t: Seq<char>|
            #[trigger] keys_of(insert_pair(es, s, pr)).contains(t) <==> (keys_of(es).contains(t)
                || t == s),
        forall|t: Seq<char>|
            #[trigger] pairs_of(insert_pair(es, s, pr), t) == if t == s {
                pairs_of(es, t).push(pr)
            } else {
                pairs_of(es, t)
            },
{
    let keys = keys_of(es);
    let k = lower_bound(keys, s);
    let ne = insert_pair(es, s, pr);
    let nkeys = keys_of(ne);
    lemma_lower_bound(keys, s);
    lemma_lower_bound_sorted(keys, s);
    if k < es.len() && es[k].0 == s {
        assert(ne == es.update(k, (s, es[k].1.push(pr))));
        assert(nkeys =~= keys);
        assert forall|t: Seq<char>| #[trigger] pairs_of(ne, t) == if t == s {
            pairs_of(es, t).push(pr)
        } else {
            pairs_of(es, t)
        } by {
            let kt = lower_bound(keys, t);
            lemma_lower_bound(keys, t);
            assert(lower_bound(nkeys, t) == kt);
            if t == s {
                assert(ne[k] == (s, es[k].1.push(pr)));
            } else if kt != k && kt < es.len() {
                assert(ne[kt] == es[kt]);
            }
        }
    } else {
        assert(nkeys =~= keys.insert(k, s));
        // every id from position k on comes after s
        assert forall|j: int| k <= j < keys.len() implies seq_lt(s, #[trigger] keys[j]) by {
            if keys[j] == s {
                lemma_lower_bound_at(keys, s, j);
                assert(keys[k] == es[k].0);
            }
            lemma_seq_lt_total(keys[j], s);
        }
        assert forall|i: int, j: int| 0 <= i < j < nkeys.len() implies seq_lt(
            nkeys[i],
            nkeys[j],
        ) by {
            if j < k {
            } else if j == k {
                assert(nkeys[j] == s);
            } else if i < k {
                assert(nkeys[j] == keys[j - 1]);
                lemma_seq_lt_transitive(keys[i], s, keys[j - 1]);
            } else if i == k {
                assert(nkeys[j] == keys[j - 1]);
            } else {
                assert(nkeys[i] == keys[i - 1]);
                assert(nkeys[j] == keys[j - 1]);
            }
        }
        assert forall|t: Seq<char>| #[trigger] nkeys.contains(t) <==> (keys.contains(t) || t
            == s) by {
            if keys.contains(t) {
                let i = choose|i: int| 0 <= i < keys.len() && keys[i] == t;
                if i < k {
                    assert(nkeys[i] == t);
                } else {
                    assert(nkeys[i + 1] == t);
                }
            }
            if t == s {
                assert(nkeys[k] == s);
            }
            if nkeys.contains(t) {
                let i = choose|i: int| 0 <= i < nkeys.len() && nkeys[i] == t;
                if i < k {
                    assert(keys[i] == t);
                } else if i > k {
                    assert(keys[i - 1] == t);
                }
            }
        }
        assert forall|t: Seq<char>| #[trigger] pairs_of(ne, t) == if t == s {
            pairs_of(es, t).push(pr)
        } else {
            pairs_of(es, t)
        } by {
            if t == s {
                assert(ne[k].0 == s);
                lemma_pairs_of_at(ne, k);
                if keys.contains(s) {
                    let i = choose|i: int| 0 <= i < keys.len() && keys[i] == s;
                    lemma_lower_bound_at(keys, s, i);
                }
                lemma_pairs_of_absent(es, s);
                assert(seq![pr] =~= Seq::<PairView>::empty().push(pr));
            } else if keys.contains(t) {
                let i = choose|i: int| 0 <= i < keys.len() && keys[i] == t;
                assert(es[i].0 == t);
                lemma_pairs_of_at(es, i);
                let ni = if i < k {
                    i
                } else {
                    i + 1
                };
                assert(ne[ni] == es[i]);
                lemma_pairs_of_at(ne, ni);
            } else {
                lemma_pairs_of_absent(es, t);
                assert(!nkeys.contains(t));
                lemma_pairs_of_absent(ne, t);
            }
        }
    }
}

/// The graph built from statements has its subjects in ascending order, holds
/// exactly the subjects of the statements, and records on each subject the
/// pairs of the statements about it, in statement order.
pub proof fn lemma_graph_of(ts: Seq<(Seq<char>, PairView)>)
    ensures
        strictly_sorted(keys_of(graph_of(ts))),
        forall|t: Seq<char>|
            #[trigger] keys_of(graph_of(ts)).contains(t) <==> exists|i: int|
                0 <= i < ts.len() && ts[i].0 == t,
        forall|t: Seq<char>| #[trigger] pairs_of(graph_of(ts), t) == pairs_about(ts, t),
    decreases ts.len(),
{
    if ts.len() == 0 {
        assert forall|t: Seq<char>| #[trigger] pairs_of(graph_of(ts), t) == pairs_about(ts, t) by {
            lemma_pairs_of_absent(graph_of(ts), t);
        }
    } else {
        let init = ts.drop_last();
        lemma_graph_of(init);
        lemma_insert_pair(graph_of(init), ts.last().0, ts.last().1);
        assert forall|t: Seq<char>| #[trigger] keys_of(graph_of(ts)).contains(t) <==> exists|i: int|
            0 <= i < ts.len() && ts[i].0 == t by {
            if exists|i: int| 0 <= i < ts.len() && ts[i].0 == t {
                let i = choose|i: int| 0 <= i < ts.len() && ts[i].0 == t;
                if i < ts.len() - 1 {
                    assert(init[i].0 == t);
                }
            }
            if keys_of(graph_of(init)).contains(t) {
                let i = choose|i: int| 0 <= i < init.len() && init[i].0 == t;
                assert(ts[i].0 == t);
            }
        }
    }
}

// ---------------------------------------------------------------------------
// The graph
/// Subject id → (predicate IRI → objects), with subjects in ascending order.
/// Subject and resource ids are the full IRI for named nodes and `_:label`
/// for blank nodes.
#[derive(Debug)]
pub struct RdfGraph {
    by_subject: Vec<(String, Vec<(String, Obj)>)>,
}

impl View for RdfGraph {
    type V = Seq<EntryView>;

    closed spec fn view(&self) -> Seq<EntryView> {
        self.by_subject.deep_view()
    }
}

impl RdfGraph {
    #[verifier::type_invariant]
    spec fn subjects_ascending(self) -> bool {
        strictly_sorted(keys_of(self.by_subject.deep_view()))
    }

    /// A graph with the given entries.
    fn from_entries(es: Vec<(String, Vec<(String, Obj)>)>) -> (g: RdfGraph)
        requires
            strictly_sorted(keys_of(es.deep_view())),
        ensures
            g@ == es.deep_view(),
    {
        RdfGraph { by_subject: es }
    }

    /// The graph of the given statements, recorded in order.
    pub fn from_triples(triples: &[GraphTriple]) -> (g: RdfGraph)
        ensures
            g@ == graph_of(triples.deep_view()),
    {
        let mut es: Vec<(String, Vec<(String, Obj)>)> = Vec::new();
        let mut i: usize = 0;
        let ghost ts = triples.deep_view();
        assert(es.deep_view() =~= graph_of(ts.take(0)));
        while i < triples.len()
            invariant
                i <= triples.len(),
                ts == triples.deep_view(),
                es.deep_view() == graph_of(ts.take(i as int)),
                strictly_sorted(keys_of(es.deep_view())),
            decreases triples.len() - i,
        {
            let t = &triples[i];
            assert(t.deep_view() == ts[i as int]);
            proof {
                lemma_graph_of(ts.take(i as int));
                assert(ts.take(i + 1).drop_last() =~= ts.take(i as int));
            }
            insert_entry(&mut es, t.subject.clone(), t.predicate.clone(), t.object.duplicate());
            i = i + 1;
        }
        assert(ts.take(i as int) =~= ts);
        RdfGraph::from_entries(es)
    }

    /// Parse an RDF/XML document into the subject-indexed graph. The whole
    /// document is consumed; a malformed triple aborts with
    /// [`IcddError::Rdf`], and a document of more than [`MAX_RDF_TRIPLES`]
    /// triples is refused. Blank nodes appear as `_:label`; literals keep
    /// their lexical form only.
    pub fn parse(bytes: &[u8]) -> (r: Result<RdfGraph, IcddError>)
        ensures
            r matches Ok(g) ==> graph_read(bytes@, g@),
            r matches Ok(g) ==> exists|ts: Seq<(Seq<char>, PairView)>|
                ts.len() <= MAX_RDF_TRIPLES && g@ == graph_of(ts),
            parses_within_limit(bytes@) ==> r is Ok,
            !parses_within_limit(bytes@) ==> (r matches Err(e) && graph_read_error(bytes@, e)),
    {
        let ghost outcome = rdf_xml_outcome(bytes@);
        let mut parser = rdf_xml_parser(bytes);
        let mut es: Vec<(String, Vec<(String, Obj)>)> = Vec::new();
        let mut index: usize = 0;
        let ghost mut done: Seq<TriplePartsView> = Seq::empty();
        assert(es.deep_view() =~= graph_of(statements_of(Seq::<TriplePartsView>::empty())));
        loop
            invariant_except_break
                parser_input(parser) == bytes@,
                parts_yielded(parser).len() == index,
                es.deep_view() == graph_of(statements_of(parts_yielded(parser))),
                !parser_failed(parser),
                index <= outcome.0,
                parser_ahead(parser) == ((outcome.0 - index) as nat, outcome.1),
            invariant
                outcome == rdf_xml_outcome(bytes@),
                index <= MAX_RDF_TRIPLES,
                strictly_sorted(keys_of(es.deep_view())),
            ensures
                rdf_xml_reading(bytes@, done),
                done.len() <= MAX_RDF_TRIPLES,
                es.deep_view() == graph_of(statements_of(done)),
                outcome == (done.len(), false),
            decreases MAX_RDF_TRIPLES - index,
        {
            let ghost before = parts_yielded(parser);
            let next = next_triple(&mut parser);
            if next.is_none() {
                proof {
                    done = before;
                }
                break ;
            }
            if index == MAX_RDF_TRIPLES {
                let count_text = decimal_string(MAX_RDF_TRIPLES as u64);
                let head = concat("RDF graph exceeds the ", count_text.as_str());
                let detail = concat(head.as_str(), "-triple limit");
                return Err(not_conformant(detail));
            }
            index = index + 1;
            let triple = match next.unwrap() {
                Ok(t) => t,
                Err(message) => {
                    return Err(IcddError::Rdf(message));
                },
            };
            let ghost tv = triple_view(triple);
            let (subject_parts, predicate, object_parts) = triple_parts(triple);
            assert(parts_yielded(parser).drop_last() =~= before);
            assert(parts_yielded(parser).last() == tv);
            let subject = match subject_parts {
                SubjectParts::Named(iri) => iri,
                SubjectParts::Blank(label) => concat("_:", label.as_str()),
            };
            let object = match object_parts {
                ObjectParts::Named(iri) => Obj::Resource(iri),
                ObjectParts::Blank(label) => Obj::Resource(concat("_:", label.as_str())),
                ObjectParts::Literal(value) => Obj::Literal(value),
                ObjectParts::Other => {
                    assert(statements_of(parts_yielded(parser)) == statements_of(before));
                    continue ;
                },
            };
            let ghost st = (subject@, (predicate@, object@));
            assert(statement_of_parts(tv) == Some(st));
            assert(statements_of(parts_yielded(parser)) == statements_of(before).push(st));
            assert(statements_of(before).push(st).drop_last() =~= statements_of(before));
            insert_entry(&mut es, subject, predicate, object);
        }
        proof {
            lemma_statements_of_len(done);
        }
        Ok(RdfGraph::from_entries(es))
    }

    /// The position of `subject` among the entries, if present.
    fn find_subject(&self, subject: &str) -> (r: Option<usize>)
        ensures
            match r {
                Some(i) => i < self@.len() && self@[i as int].0 == subject@ && pairs_of(self@, subject@)
                    == self@[i as int].1,
                None => pairs_of(self@, subject@) == Seq::<PairView>::empty(),
            },
    {
        proof {
            use_type_invariant(self);
        }
        let es = &self.by_subject;
        let ghost keys = keys_of(es.deep_view());
        let k = lower_bound_index(es, subject);
        if k < es.len() && str_eq(es[k].0.as_str(), subject) {
            assert(self@[k as int].0 == es@[k as int].0@);
            Some(k)
        } else {
            None
        }
    }

    /// All subjects with the exact `rdf:type` IRI `namespace` + `type_local`,
    /// in ascending order.
    pub fn subjects_of_type_ns(&self, namespace: &str, type_local: &str) -> (r: Vec<&str>)
        ensures
            r@.map_values(|s: &str| s@) == subjects_typed(self@, namespace@ + type_local@),
    {
        let expected = concat(namespace, type_local);
        let es = &self.by_subject;
        let mut r: Vec<&str> = Vec::new();
        let mut i: usize = 0;
        assert(es.deep_view().take(0) =~= Seq::<EntryView>::empty());
        while i < es.len()
            invariant
                i <= es.len(),
                es.deep_view() == self@,
                r@.map_values(|s: &str| s@) == subjects_typed(
                    es.deep_view().take(i as int),
                    expected@,
                ),
            decreases es.len() - i,
        {
            let entry = &es[i];
            let ghost prefix = es.deep_view().take(i + 1);
            assert(prefix.drop_last() =~= es.deep_view().take(i as int));
            assert(prefix.last() == entry.deep_view());
            if pairs_have_resource(&entry.1, RDF_TYPE, expected.as_str()) {
                let ghost before = r@.map_values(|s: &str| s@);
                r.push(entry.0.as_str());
                assert(r@.map_values(|s: &str| s@) =~= before.push(entry.0@));
            }
            i = i + 1;
        }
        assert(es.deep_view().take(i as int) =~= es.deep_view());
        r
    }

    /// True if `subject` has the exact `rdf:type` IRI `namespace` + `type_local`.
    pub fn has_type_ns(&self, subject: &str, namespace: &str, type_local: &str) -> (r: bool)
        ensures
            r == typed_as(pairs_of(self@, subject@), namespace@ + type_local@),
            r == subjects_typed(self@, namespace@ + type_local@).contains(subject@),
    {
        proof {
            use_type_invariant(self);
            lemma_typed_subjects_agree(self@, subject@, namespace@ + type_local@);
        }
        let expected = concat(namespace, type_local);
        match self.find_subject(subject) {
            Some(i) => {
                let entry = &self.by_subject[i];
                assert(entry.1.deep_view() == self@[i as int].1);
                pairs_have_resource(&entry.1, RDF_TYPE, expected.as_str())
            },
            None => {
                assert(objects_with(Seq::<PairView>::empty(), RDF_TYPE@) =~= Seq::<ObjView>::empty());
                false
            },
        }
    }

    /// The objects of `predicate_iri` on `subject`, in the order stated (empty
    /// if none).
    pub fn objects(&self, subject: &str, predicate_iri: &str) -> (r: Vec<&Obj>)
        ensures
            r@.map_values(|o: &Obj| o@) == spec_objects(self@, subject@, predicate_iri@),
    {
        match self.find_subject(subject) {
            Some(i) => {
                let entry = &self.by_subject[i];
                assert(entry.1.deep_view() == self@[i as int].1);
                pairs_objects(&entry.1, predicate_iri)
            },
            None => {
                assert(objects_with(Seq::<PairView>::empty(), predicate_iri@) =~= Seq::<ObjView>::empty());
                let r: Vec<&Obj> = Vec::new();
                assert(r@.map_values(|o: &Obj| o@) =~= Seq::<ObjView>::empty());
                r
            },
        }
    }

    /// Objects for the exact predicate IRI `namespace` + `pred_local`.
    pub fn objects_ns(&self, subject: &str, namespace: &str, pred_local: &str) -> (r: Vec<&Obj>)
        ensures
            r@.map_values(|o: &Obj| o@) == spec_objects(self@, subject@, namespace@ + pred_local@),
    {
        let pred = concat(namespace, pred_local);
        self.objects(subject, pred.as_str())
    }

    /// The first literal for the exact predicate IRI `namespace` + `pred_local`.
    pub fn literal_ns(&self, subject: &str, namespace: &str, pred_local: &str) -> (r: Option<String>)
        ensures
            r.deep_view() == first_literal(spec_objects(self@, subject@, namespace@ + pred_local@)),
    {
        let objs = self.objects_ns(subject, namespace, pred_local);
        let ghost views = objs@.map_values(|o: &Obj| o@);
        let mut i: usize = 0;
        assert(views.skip(0) =~= views);
        while i < objs.len()
            invariant
                i <= objs.len(),
                views == objs@.map_values(|o: &Obj| o@),
                views == spec_objects(self@, subject@, namespace@ + pred_local@),
                first_literal(views) == first_literal(views.skip(i as int)),
            decreases objs.len() - i,
        {
            assert(views.skip(i as int)[0] == objs@[i as int]@);
            if let Some(s) = objs[i].as_literal() {
                assert(views.skip(i as int)[0] == ObjView::Literal(s@));
                assert(first_literal(views.skip(i as int)) == Some(s@));
                let r = owned(s);
                assert(Some(r).deep_view() == Some(s@));
                return Some(r);
            }
            assert(views.skip(i as int).drop_first() =~= views.skip(i + 1));
            i = i + 1;
        }
        None
    }

    /// The first resource for the exact predicate IRI `namespace` + `pred_local`.
    pub fn resource_ns(&self, subject: &str, namespace: &str, pred_local: &str) -> (r: Option<String>)
        ensures
            r.deep_view() == first_resource(spec_objects(self@, subject@, namespace@ + pred_local@)),
    {
        let objs = self.objects_ns(subject, namespace, pred_local);
        let ghost views = objs@.map_values(|o: &Obj| o@);
        let mut i: usize = 0;
        assert(views.skip(0) =~= views);
        while i < objs.len()
            invariant
                i <= objs.len(),
                views == objs@.map_values(|o: &Obj| o@),
                views == spec_objects(self@, subject@, namespace@ + pred_local@),
                first_resource(views) == first_resource(views.skip(i as int)),
            decreases objs.len() - i,
        {
            assert(views.skip(i as int)[0] == objs@[i as int]@);
            if let Some(s) = objs[i].as_resource() {
                assert(views.skip(i as int)[0] == ObjView::Resource(s@));
                assert(first_resource(views.skip(i as int)) == Some(s@));
                let r = owned(s);
                assert(Some(r).deep_view() == Some(s@));
                return Some(r);
            }
            assert(views.skip(i as int).drop_first() =~= views.skip(i + 1));
            i = i + 1;
        }
        None
    }
}

/// The position of the first entry whose subject does not come before `s`.
fn lower_bound_index(es: &Vec<(String, Vec<(String, Obj)>)>, s: &str) -> (k: usize)
    ensures
        k == lower_bound(keys_of(es.deep_view()), s@),
{
    let ghost keys = keys_of(es.deep_view());
    let mut i: usize = 0;
    assert(keys.skip(0) =~= keys);
    while i < es.len() && str_less(es[i].0.as_str(), s)
        invariant
            i <= es.len(),
            keys == keys_of(es.deep_view()),
            lower_bound(keys, s@) == i + lower_bound(keys.skip(i as int), s@),
        decreases es.len() - i,
    {
        assert(keys.skip(i as int)[0] == es@[i as int].0@);
        assert(keys.skip(i as int).drop_first() =~= keys.skip(i + 1));
        i = i + 1;
    }
    if i < es.len() {
        assert(keys.skip(i as int)[0] == es@[i as int].0@);
    } else {
        assert(keys.skip(i as int).len() == 0);
    }
    i
}

/// Records the pair `(p, o)` on subject `s`.
fn insert_entry(es: &mut Vec<(String, Vec<(String, Obj)>)>, s: String, p: String, o: Obj)
    requires
        strictly_sorted(keys_of(old(es).deep_view())),
    ensures
        final(es).deep_view() == insert_pair(old(es).deep_view(), s@, (p@, o@)),
        strictly_sorted(keys_of(final(es).deep_view())),
{
    let ghost old_view = es.deep_view();
    let ghost pr: PairView = (p@, o@);
    proof {
        lemma_insert_pair(old_view, s@, pr);
        lemma_lower_bound(keys_of(old_view), s@);
    }
    let k = lower_bound_index(es, s.as_str());
    if k < es.len() && es[k].0 == s {
        let mut entry = es.remove(k);
        let ghost old_pairs = entry.1.deep_view();
        entry.1.push((p, o));
        assert(entry.1.deep_view() =~= old_pairs.push(pr));
        es.insert(k, entry);
        assert(es.deep_view() =~= old_view.update(k as int, (s@, old_view[k as int].1.push(pr))));
    } else {
        let mut pairs: Vec<(String, Obj)> = Vec::new();
        pairs.push((p, o));
        assert(pairs.deep_view() =~= seq![pr]);
        es.insert(k, (s, pairs));
        assert(es.deep_view() =~= old_view.insert(k as int, (s@, seq![pr])));
    }
}

/// Whether some pair has predicate `pred` and the resource `iri` as object.
fn pairs_have_resource(pairs: &Vec<(String, Obj)>, pred: &str, iri: &str) -> (r: bool)
    ensures
        r == has_resource(objects_with(pairs.deep_view(), pred@), iri@),
{
    let objs = pairs_objects(pairs, pred);
    let ghost views = objs@.map_values(|o: &Obj| o@);
    let mut i: usize = 0;
    while i < objs.len()
        invariant
            i <= objs.len(),
            views == objs@.map_values(|o: &Obj| o@),
            views == objects_with(pairs.deep_view(), pred@),
            forall|j: int| 0 <= j < i ==> views[j] != ObjView::Resource(iri@),
        decreases objs.len() - i,
    {
        assert(views[i as int] == objs@[i as int]@);
        if let Some(x) = objs[i].as_resource() {
            if str_eq(x, iri) {
                return true;
            }
        }
        i = i + 1;
    }
    false
}

/// The objects of the pairs with predicate `pred`, in order.
fn pairs_objects<'a>(pairs: &'a Vec<(String, Obj)>, pred: &str) -> (r: Vec<&'a Obj>)
    ensures
        r@.map_values(|o: &Obj| o@) == objects_with(pairs.deep_view(), pred@),
{
    let ghost pv = pairs.deep_view();
    let mut r: Vec<&Obj> = Vec::new();
    let mut i: usize = 0;
    assert(pv.take(0) =~= Seq::<PairView>::empty());
    while i < pairs.len()
        invariant
            i <= pairs.len(),
            pv == pairs.deep_view(),
            r@.map_values(|o: &Obj| o@) == objects_with(pv.take(i as int), pred@),
        decreases pairs.len() - i,
    {
        let pair = &pairs[i];
        assert(pv.take(i + 1).drop_last() =~= pv.take(i as int));
        assert(pv.take(i + 1).last() == pair.deep_view());
        if str_eq(pair.0.as_str(), pred) {
            let ghost before = r@.map_values(|o: &Obj| o@);
            r.push(&pair.1);
            assert(r@.map_values(|o: &Obj| o@) =~= before.push(pair.1@));
        }
        i = i + 1;
    }
    assert(pv.take(i as int) =~= pv);
    r
}

} // verus!
