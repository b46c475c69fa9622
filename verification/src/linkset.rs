//! Parse a link dataset (`Payload triples/*.rdf`, the Linkset ontology) into
//! a [`LinkSet`].
//!
//! Structure: `ls:Link` --`ls:hasLinkElement`--> `ls:LinkElement`
//! --`ls:hasDocument`--> document, and optionally --`ls:hasIdentifier`-->
//! `ls:Identifier` (string, URI or query based). Directed links split their
//! elements into `ls:hasFromLinkElement` / `ls:hasToLinkElement`, which real
//! files often assert without the `ls:hasLinkElement` super-property, so the
//! elements of a link are the union of all three.

use vstd::prelude::*;

use crate::error::IcddError;
use crate::index::{append_new, contains_id, push_new};
use crate::rdf::MAX_RDF_TRIPLES;
use crate::rdfgraph::{
    first_literal, first_resource, graph_of, graph_read, has_resource, pairs_of, parses_within_limit, spec_objects,
    subjects_typed, graph_read_error, typed_as, EntryView, Obj, ObjView, PairView, RdfGraph,
};
use crate::schema::{
    ElementIdentifier, IdentifierView, Link, LinkElement, LinkElementView, LinkSet, LinkSetView,
    LinkView,
};
use crate::text::owned;
use crate::vocab::LS;

verus! {

/// The objects of the `ls:` predicate `local` on subject `s`.
pub open spec fn ls_objects(g: Seq<EntryView>, s: Seq<char>, local: Seq<char>) -> Seq<ObjView> {
    spec_objects(g, s, LS@ + local)
}

/// Subject `s` has the `ls:` type `local`.
pub open spec fn ls_typed(g: Seq<EntryView>, s: Seq<char>, local: Seq<char>) -> bool {
    typed_as(pairs_of(g, s), LS@ + local)
}

/// The resource ids among the objects, in order.
pub open spec fn resources(objs: Seq<ObjView>) -> Seq<Seq<char>>
    decreases objs.len(),
{
    if objs.len() == 0 {
        Seq::<Seq<char>>::empty()
    } else if let ObjView::Resource(r) = objs.last() {
        resources(objs.drop_last()).push(r)
    } else {
        resources(objs.drop_last())
    }
}

/// The subjects of the `ls:` type `local`, in ascending order.
pub open spec fn ls_subjects(g: Seq<EntryView>, local: Seq<char>) -> Seq<Seq<char>> {
    subjects_typed(g, LS@ + local)
}

/// The ids of the links: the subjects of `ls:Link` and its subtypes, each
/// once, type by type.
pub open spec fn spec_link_ids(g: Seq<EntryView>) -> Seq<Seq<char>> {
    let a = append_new(Seq::<Seq<char>>::empty(), ls_subjects(g, "Link"@));
    let b = append_new(a, ls_subjects(g, "BinaryLink"@));
    let c = append_new(b, ls_subjects(g, "DirectedLink"@));
    let d = append_new(c, ls_subjects(g, "DirectedBinaryLink"@));
    let e = append_new(d, ls_subjects(g, "Directed1toNLink"@));
    append_new(e, ls_subjects(g, "Directed1ToNLink"@))
}

/// How to locate an element inside a document, from identifier node `n`.
pub open spec fn spec_identifier(g: Seq<EntryView>, n: Seq<char>) -> Option<IdentifierView> {
    if ls_typed(g, n, "StringBasedIdentifier"@) || ls_objects(g, n, "identifier"@).len() > 0 {
        Some(
            IdentifierView::String {
                value: match first_literal(ls_objects(g, n, "identifier"@)) {
                    Some(v) => v,
                    None => Seq::<char>::empty(),
                },
                field: first_literal(ls_objects(g, n, "identifierField"@)),
            },
        )
    } else if ls_typed(g, n, "URIBasedIdentifier"@) || ls_objects(g, n, "uri"@).len() > 0 {
        Some(
            IdentifierView::Uri {
                uri: match first_literal(ls_objects(g, n, "uri"@)) {
                    Some(v) => v,
                    None => Seq::<char>::empty(),
                },
            },
        )
    } else if ls_typed(g, n, "QueryBasedIdentifier"@) || ls_objects(g, n, "queryExpression"@).len()
        > 0 || ls_objects(g, n, "queryLanguage"@).len() > 0 {
        Some(
            IdentifierView::Query {
                language: first_literal(ls_objects(g, n, "queryLanguage"@)),
                expression: first_literal(ls_objects(g, n, "queryExpression"@)),
            },
        )
    } else {
        None
    }
}

/// The link element `eid`.
pub open spec fn spec_link_element(g: Seq<EntryView>, eid: Seq<char>) -> LinkElementView {
    LinkElementView {
        id: eid,
        document_id: first_resource(ls_objects(g, eid, "hasDocument"@)),
        identifier: match first_resource(ls_objects(g, eid, "hasIdentifier"@)) {
            Some(n) => spec_identifier(g, n),
            None => None,
        },
    }
}

/// The link `id`.
pub open spec fn spec_link(g: Seq<EntryView>, id: Seq<char>) -> LinkView {
    let from = resources(ls_objects(g, id, "hasFromLinkElement"@));
    let to = resources(ls_objects(g, id, "hasToLinkElement"@));
    let elems = append_new(resources(ls_objects(g, id, "hasLinkElement"@)), from + to);
    LinkView {
        id: id,
        directed: from.len() > 0 || to.len() > 0 || ls_typed(g, id, "DirectedLink"@) || ls_typed(
            g,
            id,
            "DirectedBinaryLink"@,
        ) || ls_typed(g, id, "Directed1toNLink"@) || ls_typed(g, id, "Directed1ToNLink"@),
        elements: elems.map_values(|e: Seq<char>| spec_link_element(g, e)),
        from: from,
        to: to,
    }
}

/// The direction of link `l` is read off graph `g`: its from-elements are
/// the resource objects of `ls:hasFromLinkElement` on the link's subject and
/// its to-elements those of `ls:hasToLinkElement`, in statement order.
pub open spec fn direction_from_graph(g: Seq<EntryView>, l: LinkView) -> bool {
    &&& l.from == resources(spec_objects(g, l.id, LS@ + "hasFromLinkElement"@))
    &&& l.to == resources(spec_objects(g, l.id, LS@ + "hasToLinkElement"@))
}

/// Every link of `ls` takes its direction and its elements from graph `g`.
pub open spec fn directions_from_graph(g: Seq<EntryView>, ls: LinkSetView) -> bool {
    forall|k: int|
        0 <= k < ls.links.len() ==> direction_from_graph(g, #[trigger] ls.links[k]) && elements_from_graph(
            g,
            ls.links[k],
        )
}

/// An id is among the resources of the objects exactly when one of the
/// objects is that resource.
pub proof fn lemma_resources_contains(objs: Seq<ObjView>, r: Seq<char>)
    ensures
        resources(objs).contains(r) <==> has_resource(objs, r),
    decreases objs.len(),
{
    if objs.len() > 0 {
        let init = objs.drop_last();
        lemma_resources_contains(init, r);
        assert(has_resource(objs, r) <==> has_resource(init, r) || objs.last() == ObjView::Resource(r)) by {
            if has_resource(init, r) {
                let i = choose|i: int| 0 <= i < init.len() && init[i] == ObjView::Resource(r);
                assert(objs[i] == init[i]);
            }
            if objs.last() == ObjView::Resource(r) {
                assert(objs[objs.len() - 1] == ObjView::Resource(r));
            }
            if has_resource(objs, r) {
                let i = choose|i: int| 0 <= i < objs.len() && objs[i] == ObjView::Resource(r);
                if i < init.len() {
                    assert(init[i] == objs[i]);
                }
            }
        }
        let ri = resources(init);
        if let ObjView::Resource(x) = objs.last() {
            assert(resources(objs) == ri.push(x));
            assert(ri.push(x).contains(r) <==> ri.contains(r) || x == r) by {
                if ri.contains(r) {
                    let j = choose|j: int| 0 <= j < ri.len() && ri[j] == r;
                    assert(ri.push(x)[j] == r);
                }
                if x == r {
                    assert(ri.push(x)[ri.len() as int] == r);
                }
                if ri.push(x).contains(r) {
                    let j = choose|j: int| 0 <= j < ri.len() + 1 && ri.push(x)[j] == r;
                    if j < ri.len() {
                        assert(ri[j] == r);
                    }
                }
            }
        } else {
            assert(resources(objs) == ri);
        }
    }
}

/// Adding ids to `acc` gives a sequence holding exactly the ids of `acc`
/// and of `xs`.
pub proof fn lemma_append_new_contains(acc: Seq<Seq<char>>, xs: Seq<Seq<char>>, x: Seq<char>)
    ensures
        append_new(acc, xs).contains(x) <==> acc.contains(x) || xs.contains(x),
    decreases xs.len(),
{
    if xs.len() > 0 {
        let init = xs.drop_last();
        let y = xs.last();
        lemma_append_new_contains(acc, init, x);
        let ai = append_new(acc, init);
        assert(xs.contains(x) <==> init.contains(x) || y == x) by {
            if init.contains(x) {
                let i = choose|i: int| 0 <= i < init.len() && init[i] == x;
                assert(xs[i] == x);
            }
            if y == x {
                assert(xs[xs.len() - 1] == x);
            }
            if xs.contains(x) {
                let i = choose|i: int| 0 <= i < xs.len() && xs[i] == x;
                if i < init.len() {
                    assert(init[i] == x);
                }
            }
        }
        if !ai.contains(y) {
            assert(ai.push(y).contains(x) <==> ai.contains(x) || y == x) by {
                if ai.contains(x) {
                    let j = choose|j: int| 0 <= j < ai.len() && ai[j] == x;
                    assert(ai.push(y)[j] == x);
                }
                if y == x {
                    assert(ai.push(y)[ai.len() as int] == x);
                }
                if ai.push(y).contains(x) {
                    let j = choose|j: int| 0 <= j < ai.len() + 1 && ai.push(y)[j] == x;
                    if j < ai.len() {
                        assert(ai[j] == x);
                    }
                }
            }
        }
    }
}

/// The identifier `idv` read from identifier node `n` of graph `g` carries
/// the node's literals: a string identifier the first `ls:identifier`
/// literal (when there is one) and the first `ls:identifierField` literal, a
/// URI identifier the first `ls:uri` literal (when there is one), a query
/// identifier the first `ls:queryLanguage` and `ls:queryExpression`
/// literals.
pub open spec fn identifier_from_graph(g: Seq<EntryView>, n: Seq<char>, idv: Option<IdentifierView>) -> bool {
    &&& idv matches Some(IdentifierView::String { value, field }) ==> {
        &&& field == first_literal(spec_objects(g, n, LS@ + "identifierField"@))
        &&& first_literal(spec_objects(g, n, LS@ + "identifier"@)) matches Some(v) ==> value == v
    }
    &&& idv matches Some(IdentifierView::Uri { uri }) ==> (first_literal(spec_objects(g, n, LS@ + "uri"@)) matches Some(
        v,
    ) ==> uri == v)
    &&& idv matches Some(IdentifierView::Query { language, expression }) ==> {
        &&& language == first_literal(spec_objects(g, n, LS@ + "queryLanguage"@))
        &&& expression == first_literal(spec_objects(g, n, LS@ + "queryExpression"@))
    }
}

/// The ids of the elements of link `l`, in order.
pub open spec fn element_ids(l: LinkView) -> Seq<Seq<char>> {
    l.elements.map_values(|e: LinkElementView| e.id)
}

/// The elements of link `l` are read off graph `g`: an id is an element of
/// the link exactly when the graph states it as an object of
/// `ls:hasLinkElement`, `ls:hasFromLinkElement` or `ls:hasToLinkElement` of
/// the link's subject, each element's document is the first resource of its
/// `ls:hasDocument` and its identifier is read from the first resource of its
/// `ls:hasIdentifier` (see [`identifier_from_graph`]), and the link is directed exactly when it has a from- or
/// to-element or one of the directed link types.
pub open spec fn elements_from_graph(g: Seq<EntryView>, l: LinkView) -> bool {
    &&& forall|e: Seq<char>|
        #[trigger] element_ids(l).contains(e) <==> has_resource(
            spec_objects(g, l.id, LS@ + "hasLinkElement"@),
            e,
        ) || has_resource(spec_objects(g, l.id, LS@ + "hasFromLinkElement"@), e) || has_resource(
            spec_objects(g, l.id, LS@ + "hasToLinkElement"@),
            e,
        )
    &&& forall|j: int|
        0 <= j < l.elements.len() ==> {
            &&& (#[trigger] l.elements[j]).document_id == first_resource(
                spec_objects(g, l.elements[j].id, LS@ + "hasDocument"@),
            )
            &&& match first_resource(spec_objects(g, l.elements[j].id, LS@ + "hasIdentifier"@)) {
                None => l.elements[j].identifier is None,
                Some(n) => identifier_from_graph(g, n, l.elements[j].identifier),
            }
        }
    &&& (l.directed <==> (l.from.len() > 0 || l.to.len() > 0 || typed_as(
        pairs_of(g, l.id),
        LS@ + "DirectedLink"@,
    ) || typed_as(pairs_of(g, l.id), LS@ + "DirectedBinaryLink"@) || typed_as(
        pairs_of(g, l.id),
        LS@ + "Directed1toNLink"@,
    ) || typed_as(pairs_of(g, l.id), LS@ + "Directed1ToNLink"@)))
}

/// The link `id` of graph `g` has the elements the graph states for it (see
/// [`elements_from_graph`]).
pub proof fn lemma_link_elements(g: Seq<EntryView>, id: Seq<char>)
    ensures
        elements_from_graph(g, spec_link(g, id)),
        spec_link(g, id).id == id,
{
    let l = spec_link(g, id);
    let le = resources(ls_objects(g, id, "hasLinkElement"@));
    let from = resources(ls_objects(g, id, "hasFromLinkElement"@));
    let to = resources(ls_objects(g, id, "hasToLinkElement"@));
    let elems = append_new(le, from + to);
    assert(element_ids(l) =~= elems);
    assert forall|e: Seq<char>| #[trigger] element_ids(l).contains(e) <==> has_resource(
        spec_objects(g, l.id, LS@ + "hasLinkElement"@),
        e,
    ) || has_resource(spec_objects(g, l.id, LS@ + "hasFromLinkElement"@), e) || has_resource(
        spec_objects(g, l.id, LS@ + "hasToLinkElement"@),
        e,
    ) by {
        lemma_append_new_contains(le, from + to, e);
        lemma_resources_contains(ls_objects(g, id, "hasLinkElement"@), e);
        lemma_resources_contains(ls_objects(g, id, "hasFromLinkElement"@), e);
        lemma_resources_contains(ls_objects(g, id, "hasToLinkElement"@), e);
        assert((from + to).contains(e) <==> from.contains(e) || to.contains(e)) by {
            if from.contains(e) {
                let i = choose|i: int| 0 <= i < from.len() && from[i] == e;
                assert((from + to)[i] == e);
            }
            if to.contains(e) {
                let i = choose|i: int| 0 <= i < to.len() && to[i] == e;
                assert((from + to)[from.len() + i] == e);
            }
            if (from + to).contains(e) {
                let i = choose|i: int| 0 <= i < (from + to).len() && (from + to)[i] == e;
                if i < from.len() {
                    assert(from[i] == e);
                } else {
                    assert(to[i - from.len()] == e);
                }
            }
        }
    }
}

/// A link read from a linkset graph points the way the graph says: each
/// link's from-elements are exactly the resources the graph gives its
/// subject through `ls:hasFromLinkElement`, and its to-elements exactly those
/// given through `ls:hasToLinkElement`, in the graph's order. An element is
/// a from-element of the link exactly when the graph states it as one, and
/// likewise for to-elements.
pub proof fn lemma_link_directions(g: Seq<EntryView>, filename: Seq<char>)
    ensures
        directions_from_graph(g, spec_linkset(g, filename)),
        forall|k: int, e: Seq<char>|
            0 <= k < spec_linkset(g, filename).links.len() ==> (#[trigger] spec_linkset(
                g,
                filename,
            ).links[k].from.contains(e) <==> has_resource(
                spec_objects(g, spec_linkset(g, filename).links[k].id, LS@ + "hasFromLinkElement"@),
                e,
            )),
        forall|k: int, e: Seq<char>|
            0 <= k < spec_linkset(g, filename).links.len() ==> (#[trigger] spec_linkset(
                g,
                filename,
            ).links[k].to.contains(e) <==> has_resource(
                spec_objects(g, spec_linkset(g, filename).links[k].id, LS@ + "hasToLinkElement"@),
                e,
            )),
{
    let ls = spec_linkset(g, filename);
    assert forall|k: int| 0 <= k < ls.links.len() implies direction_from_graph(g, #[trigger] ls.links[k])
        && elements_from_graph(g, ls.links[k]) by {
        lemma_link_elements(g, spec_link_ids(g)[k]);
    }
    assert forall|k: int, e: Seq<char>| 0 <= k < ls.links.len() implies (#[trigger] ls.links[k].from.contains(e)
        <==> has_resource(spec_objects(g, ls.links[k].id, LS@ + "hasFromLinkElement"@), e)) by {
        lemma_resources_contains(spec_objects(g, ls.links[k].id, LS@ + "hasFromLinkElement"@), e);
    }
    assert forall|k: int, e: Seq<char>| 0 <= k < ls.links.len() implies (#[trigger] ls.links[k].to.contains(e)
        <==> has_resource(spec_objects(g, ls.links[k].id, LS@ + "hasToLinkElement"@), e)) by {
        lemma_resources_contains(spec_objects(g, ls.links[k].id, LS@ + "hasToLinkElement"@), e);
    }
}

/// The link dataset that graph `g` describes, recorded under `filename`.
pub open spec fn spec_linkset(g: Seq<EntryView>, filename: Seq<char>) -> LinkSetView {
    LinkSetView {
        filename: filename,
        links: spec_link_ids(g).map_values(|id: Seq<char>| spec_link(g, id)),
    }
}

/// The resource ids among the objects, in order.
fn resource_ids(objs: &Vec<&Obj>) -> (r: Vec<String>)
    ensures
        r.deep_view() == resources(objs@.map_values(|o: &Obj| o@)),
{
    let ghost ov = objs@.map_values(|o: &Obj| o@);
    let mut r: Vec<String> = Vec::new();
    let mut i: usize = 0;
    assert(ov.take(0) =~= Seq::<ObjView>::empty());
    assert(r.deep_view() =~= Seq::<Seq<char>>::empty());
    while i < objs.len()
        invariant
            i <= objs.len(),
            ov == objs@.map_values(|o: &Obj| o@),
            r.deep_view() == resources(ov.take(i as int)),
        decreases objs.len() - i,
    {
        assert(ov.take(i + 1).drop_last() =~= ov.take(i as int));
        assert(ov.take(i + 1).last() == objs@[i as int]@);
        if let Some(x) = objs[i].as_resource() {
            let ghost before = r.deep_view();
            r.push(owned(x));
            assert(r.deep_view() =~= before.push(x@));
        }
        i = i + 1;
    }
    assert(ov.take(i as int) =~= ov);
    r
}

/// Adding two runs of ids one after the other adds their concatenation.
pub proof fn lemma_append_new_concat(acc: Seq<Seq<char>>, xs: Seq<Seq<char>>, ys: Seq<Seq<char>>)
    ensures
        append_new(append_new(acc, xs), ys) == append_new(acc, xs + ys),
    decreases ys.len(),
{
    if ys.len() == 0 {
        assert(xs + ys =~= xs);
    } else {
        lemma_append_new_concat(acc, xs, ys.drop_last());
        assert((xs + ys).drop_last() =~= xs + ys.drop_last());
        assert((xs + ys).last() == ys.last());
    }
}

/// Appends the ids of `xs` that are not yet in `ids` (see [`append_new`]).
fn append_ids(ids: &mut Vec<String>, xs: &Vec<String>)
    ensures
        final(ids).deep_view() == append_new(old(ids).deep_view(), xs.deep_view()),
{
    let ghost acc = ids.deep_view();
    let ghost xv = xs.deep_view();
    let mut i: usize = 0;
    assert(xv.take(0) =~= Seq::<Seq<char>>::empty());
    while i < xs.len()
        invariant
            i <= xs.len(),
            xv == xs.deep_view(),
            ids.deep_view() == append_new(acc, xv.take(i as int)),
        decreases xs.len() - i,
    {
        assert(xv.take(i + 1).drop_last() =~= xv.take(i as int));
        assert(xv.take(i + 1).last() == xs@[i as int]@);
        if !contains_id(ids, xs[i].as_str()) {
            let ghost before = ids.deep_view();
            ids.push(xs[i].clone());
            assert(ids.deep_view() =~= before.push(xs@[i as int]@));
        }
        i = i + 1;
    }
    assert(xv.take(i as int) =~= xv);
}

/// Whether subject `subject` has any object for the `ls:` predicate `pred_local`.
fn has_ls(g: &RdfGraph, subject: &str, pred_local: &str) -> (r: bool)
    ensures
        r == (ls_objects(g@, subject@, pred_local@).len() > 0),
{
    let objs = g.objects_ns(subject, LS, pred_local);
    objs.len() > 0
}

/// How to locate an element inside a document, from identifier node `id_node`.
fn parse_identifier(g: &RdfGraph, id_node: &str) -> (r: Option<ElementIdentifier>)
    ensures
        r.deep_view() == spec_identifier(g@, id_node@),
{
    if g.has_type_ns(id_node, LS, "StringBasedIdentifier") || has_ls(g, id_node, "identifier") {
        let value = match g.literal_ns(id_node, LS, "identifier") {
            Some(v) => v,
            None => String::new(),
        };
        return Some(
            ElementIdentifier::String {
                value,
                field: g.literal_ns(id_node, LS, "identifierField"),
            },
        );
    }
    if g.has_type_ns(id_node, LS, "URIBasedIdentifier") || has_ls(g, id_node, "uri") {
        let uri = match g.literal_ns(id_node, LS, "uri") {
            Some(v) => v,
            None => String::new(),
        };
        return Some(ElementIdentifier::Uri { uri });
    }
    if g.has_type_ns(id_node, LS, "QueryBasedIdentifier") || has_ls(g, id_node, "queryExpression")
        || has_ls(g, id_node, "queryLanguage") {
        return Some(
            ElementIdentifier::Query {
                language: g.literal_ns(id_node, LS, "queryLanguage"),
                expression: g.literal_ns(id_node, LS, "queryExpression"),
            },
        );
    }
    None
}

/// The link element `eid`.
fn parse_link_element(g: &RdfGraph, eid: &str) -> (r: LinkElement)
    ensures
        r.deep_view() == spec_link_element(g@, eid@),
{
    let document_id = g.resource_ns(eid, LS, "hasDocument");
    let identifier = match g.resource_ns(eid, LS, "hasIdentifier") {
        Some(id_node) => parse_identifier(g, id_node.as_str()),
        None => None,
    };
    LinkElement { id: owned(eid), document_id, identifier }
}

/// Appends the subjects of the `ls:` type `local` not yet in `ids`.
fn push_links_of_type(ids: &mut Vec<String>, g: &RdfGraph, local: &str)
    ensures
        final(ids).deep_view() == append_new(old(ids).deep_view(), ls_subjects(g@, local@)),
{
    let subjects = g.subjects_of_type_ns(LS, local);
    push_new(ids, &subjects);
}

/// The link `link_id`.
fn parse_link(g: &RdfGraph, link_id: &str) -> (r: Link)
    ensures
        r.deep_view() == spec_link(g@, link_id@),
        r.deep_view().id == link_id@,
        direction_from_graph(g@, r.deep_view()),
        elements_from_graph(g@, r.deep_view()),
{
    proof {
        lemma_link_elements(g@, link_id@);
    }
    let from = resource_ids(&g.objects_ns(link_id, LS, "hasFromLinkElement"));
    let to = resource_ids(&g.objects_ns(link_id, LS, "hasToLinkElement"));
    let mut elem_ids = resource_ids(&g.objects_ns(link_id, LS, "hasLinkElement"));
    let ghost start = elem_ids.deep_view();
    append_ids(&mut elem_ids, &from);
    append_ids(&mut elem_ids, &to);
    proof {
        lemma_append_new_concat(start, from.deep_view(), to.deep_view());
    }
    let directed = from.len() > 0 || to.len() > 0 || g.has_type_ns(link_id, LS, "DirectedLink")
        || g.has_type_ns(link_id, LS, "DirectedBinaryLink") || g.has_type_ns(
        link_id,
        LS,
        "Directed1toNLink",
    ) || g.has_type_ns(link_id, LS, "Directed1ToNLink");
    let ghost eids = elem_ids.deep_view();
    let mut elements: Vec<LinkElement> = Vec::new();
    let mut i: usize = 0;
    while i < elem_ids.len()
        invariant
            i <= elem_ids.len(),
            eids == elem_ids.deep_view(),
            elements.deep_view() == eids.take(i as int).map_values(
                |e: Seq<char>| spec_link_element(g@, e),
            ),
        decreases elem_ids.len() - i,
    {
        let element = parse_link_element(g, elem_ids[i].as_str());
        let ghost before = elements.deep_view();
        assert(eids[i as int] == elem_ids@[i as int]@);
        elements.push(element);
        assert(elements.deep_view() =~= before.push(element.deep_view()));
        assert(eids.take(i + 1) =~= eids.take(i as int).push(eids[i as int]));
        i = i + 1;
    }
    assert(eids.take(i as int) =~= eids);
    Link { id: owned(link_id), directed, elements, from, to }
}

/// The link dataset that graph `g` describes, recorded under `filename`.
pub fn linkset_from_graph(filename: &str, g: &RdfGraph) -> (r: LinkSet)
    ensures
        r.deep_view() == spec_linkset(g@, filename@),
        directions_from_graph(g@, r.deep_view()),
{
    proof {
        lemma_link_directions(g@, filename@);
    }
    let mut link_ids: Vec<String> = Vec::new();
    assert(link_ids.deep_view() =~= Seq::<Seq<char>>::empty());
    push_links_of_type(&mut link_ids, g, "Link");
    push_links_of_type(&mut link_ids, g, "BinaryLink");
    push_links_of_type(&mut link_ids, g, "DirectedLink");
    push_links_of_type(&mut link_ids, g, "DirectedBinaryLink");
    push_links_of_type(&mut link_ids, g, "Directed1toNLink");
    push_links_of_type(&mut link_ids, g, "Directed1ToNLink");
    let ghost ids = link_ids.deep_view();
    assert(ids == spec_link_ids(g@));
    let mut links: Vec<Link> = Vec::new();
    let mut i: usize = 0;
    while i < link_ids.len()
        invariant
            i <= link_ids.len(),
            ids == link_ids.deep_view(),
            links.deep_view() == ids.take(i as int).map_values(|id: Seq<char>| spec_link(g@, id)),
        decreases link_ids.len() - i,
    {
        let link = parse_link(g, link_ids[i].as_str());
        let ghost before = links.deep_view();
        assert(ids[i as int] == link_ids@[i as int]@);
        links.push(link);
        assert(links.deep_view() =~= before.push(link.deep_view()));
        assert(ids.take(i + 1) =~= ids.take(i as int).push(ids[i as int]));
        i = i + 1;
    }
    assert(ids.take(i as int) =~= ids);
    LinkSet { filename: owned(filename), links }
}

/// Parse one link dataset file; `filename` is recorded on the result.
pub fn parse_linkset(filename: &str, bytes: &[u8]) -> (r: Result<LinkSet, IcddError>)
    ensures
        parses_within_limit(bytes@) ==> r is Ok,
        !parses_within_limit(bytes@) ==> (r matches Err(e) && graph_read_error(bytes@, e)),
        r matches Ok(l) ==> exists|g: Seq<EntryView>|
            #[trigger] graph_read(bytes@, g) && l.deep_view() == spec_linkset(g, filename@)
                && directions_from_graph(g, l.deep_view()),
        r matches Ok(l) ==> exists|ts: Seq<(Seq<char>, PairView)>|
            ts.len() <= MAX_RDF_TRIPLES && l.deep_view() == spec_linkset(graph_of(ts), filename@),
        r matches Err(e) ==> e is Rdf || e is NotConformant,
{
    let g = RdfGraph::parse(bytes)?;
    proof {
        lemma_link_directions(g@, filename@);
    }
    Ok(linkset_from_graph(filename, &g))
}

} // verus!
