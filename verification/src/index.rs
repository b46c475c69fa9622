//! Parse `Index.rdf` (the Container ontology) into [`ContainerIndex`].
//!
//! The index is a star graph rooted at a single `ct:ContainerDescription`.
//! Documents are `ct:InternalDocument` / `ct:ExternalDocument` /
//! `ct:FolderDocument` individuals, optionally also `ct:SecuredDocument` /
//! `ct:EncryptedDocument` (the mix-ins are folded into flags). Every term is
//! matched in the exact Container namespace.

use vstd::prelude::*;

use crate::error::{not_conformant, IcddError};
use crate::rdf::MAX_RDF_TRIPLES;
use crate::rdfgraph::{
    first_literal, graph_of, graph_read, pairs_of, parses_within_limit, spec_objects, subjects_typed,
    graph_read_error, typed_as, EntryView, PairView, RdfGraph,
};
use crate::schema::{
    Checksum, ChecksumView, ContainerDescription, ContainerIndex, DescriptionView, Document,
    DocumentKind, DocumentKindView, DocumentView, IndexView, LinksetRef, LinksetRefView,
};
use crate::text::{owned, str_eq};
use crate::vocab::CT;

verus! {

/// The first literal of the `ct:` predicate `local` on subject `s`.
pub open spec fn ct_literal(g: Seq<EntryView>, s: Seq<char>, local: Seq<char>) -> Option<Seq<char>> {
    first_literal(spec_objects(g, s, CT@ + local))
}

/// Subject `s` has the `ct:` type `local`.
pub open spec fn ct_typed(g: Seq<EntryView>, s: Seq<char>, local: Seq<char>) -> bool {
    typed_as(pairs_of(g, s), CT@ + local)
}

/// The subjects of the `ct:` type `local`, in ascending order.
pub open spec fn ct_subjects(g: Seq<EntryView>, local: Seq<char>) -> Seq<Seq<char>> {
    subjects_typed(g, CT@ + local)
}

/// `acc` followed by the ids of `xs` that are not yet present, each once, in
/// the order of their first occurrence.
pub open spec fn append_new(acc: Seq<Seq<char>>, xs: Seq<Seq<char>>) -> Seq<Seq<char>>
    decreases xs.len(),
{
    if xs.len() == 0 {
        acc
    } else {
        let init = append_new(acc, xs.drop_last());
        if init.contains(xs.last()) {
            init
        } else {
            init.push(xs.last())
        }
    }
}

/// A literal stating a true `xsd:boolean` (`true` or `1`).
pub open spec fn spec_flag_true(v: Option<Seq<char>>) -> bool {
    v == Some("true"@) || v == Some("1"@)
}

/// The class and location of document `id`: internal by `ct:filename`, else
/// external by `ct:url`, else a folder by `ct:foldername`; a
/// `ct:FolderDocument` without a folder name is a folder named `""`, any other
/// document without a location an internal document named `""`.
pub open spec fn spec_document_kind(g: Seq<EntryView>, id: Seq<char>) -> DocumentKindView {
    if let Some(f) = ct_literal(g, id, "filename"@) {
        DocumentKindView::Internal { filename: f }
    } else if let Some(u) = ct_literal(g, id, "url"@) {
        DocumentKindView::External { url: u }
    } else if let Some(f) = ct_literal(g, id, "foldername"@) {
        DocumentKindView::Folder { foldername: f }
    } else if ct_typed(g, id, "FolderDocument"@) {
        DocumentKindView::Folder { foldername: Seq::<char>::empty() }
    } else {
        DocumentKindView::Internal { filename: Seq::<char>::empty() }
    }
}

/// The document `id` as the index describes it.
pub open spec fn spec_document(g: Seq<EntryView>, id: Seq<char>) -> DocumentView {
    DocumentView {
        id: id,
        kind: spec_document_kind(g, id),
        name: ct_literal(g, id, "name"@),
        description: ct_literal(g, id, "description"@),
        filetype: ct_literal(g, id, "filetype"@),
        format: ct_literal(g, id, "format"@),
        checksum: match (ct_literal(g, id, "checksum"@), ct_literal(g, id, "checksumAlgorithm"@)) {
            (Some(value), Some(algorithm)) => Some(ChecksumView { algorithm, value }),
            _ => None,
        },
        encrypted: ct_typed(g, id, "EncryptedDocument"@),
        requested: spec_flag_true(ct_literal(g, id, "requested"@)),
    }
}

/// The checksum of document `d` is read off graph `g`: it is present exactly
/// when the document's subject has both a `ct:checksum` and a
/// `ct:checksumAlgorithm` literal, and then its value is the first
/// `ct:checksum` literal and its algorithm the first `ct:checksumAlgorithm`
/// literal.
pub open spec fn checksum_from_graph(g: Seq<EntryView>, d: DocumentView) -> bool {
    let value = first_literal(spec_objects(g, d.id, CT@ + "checksum"@));
    let algorithm = first_literal(spec_objects(g, d.id, CT@ + "checksumAlgorithm"@));
    &&& (d.checksum is Some <==> value is Some && algorithm is Some)
    &&& d.checksum matches Some(c) ==> value == Some(c.value) && algorithm == Some(c.algorithm)
}

/// The `ct:requested` flag of document `d` is read off graph `g`: it is set
/// exactly when the first `ct:requested` literal of its subject is `true`
/// or `1`.
pub open spec fn requested_from_graph(g: Seq<EntryView>, d: DocumentView) -> bool {
    d.requested <==> (first_literal(spec_objects(g, d.id, CT@ + "requested"@)) == Some("true"@)
        || first_literal(spec_objects(g, d.id, CT@ + "requested"@)) == Some("1"@))
}

/// The first literal of the predicate `iri` on subject `s` of graph `g`.
pub open spec fn literal_of(g: Seq<EntryView>, s: Seq<char>, iri: Seq<char>) -> Option<Seq<char>> {
    first_literal(spec_objects(g, s, iri))
}

/// The descriptive fields of document `d` are read off graph `g`: each is the
/// first literal of its `ct:` predicate on the document's subject, the
/// document is encrypted exactly when its subject has the type
/// `ct:EncryptedDocument`, and a `ct:filename` makes it internal under that
/// name, else a `ct:url` external at that address, else a `ct:foldername` a
/// folder of that name.
pub open spec fn fields_from_graph(g: Seq<EntryView>, d: DocumentView) -> bool {
    &&& d.name == literal_of(g, d.id, CT@ + "name"@)
    &&& d.description == literal_of(g, d.id, CT@ + "description"@)
    &&& d.filetype == literal_of(g, d.id, CT@ + "filetype"@)
    &&& d.format == literal_of(g, d.id, CT@ + "format"@)
    &&& (d.encrypted <==> typed_as(pairs_of(g, d.id), CT@ + "EncryptedDocument"@))
    &&& literal_of(g, d.id, CT@ + "filename"@) matches Some(f) ==> d.kind == DocumentKindView::Internal {
        filename: f,
    }
    &&& literal_of(g, d.id, CT@ + "filename"@) is None ==> (literal_of(g, d.id, CT@ + "url"@) matches Some(u)
        ==> d.kind == DocumentKindView::External { url: u })
    &&& literal_of(g, d.id, CT@ + "filename"@) is None && literal_of(g, d.id, CT@ + "url"@) is None ==> (
    literal_of(g, d.id, CT@ + "foldername"@) matches Some(f) ==> d.kind == DocumentKindView::Folder {
        foldername: f,
    })
}

/// The description and the linkset references of index `iv` are read off
/// graph `g`: the description is the first `ct:ContainerDescription`
/// subject with the first literals of its `ct:conformanceIndicator`,
/// `ct:description` and `ct:creationDate`, and each linkset reference is a
/// `ct:Linkset` subject, in order, with the first literals of its
/// `ct:filename` and `ct:name`.
pub open spec fn description_from_graph(g: Seq<EntryView>, iv: IndexView) -> bool {
    let cd = iv.description.id;
    &&& ct_subjects(g, "ContainerDescription"@).len() > 0
    &&& cd == ct_subjects(g, "ContainerDescription"@)[0]
    &&& iv.description.conformance_indicator == literal_of(g, cd, CT@ + "conformanceIndicator"@)
    &&& iv.description.description == literal_of(g, cd, CT@ + "description"@)
    &&& iv.description.creation_date == literal_of(g, cd, CT@ + "creationDate"@)
    &&& iv.linkset_files.len() == ct_subjects(g, "Linkset"@).len()
    &&& forall|k: int|
        0 <= k < iv.linkset_files.len() ==> {
            &&& (#[trigger] iv.linkset_files[k]).id == ct_subjects(g, "Linkset"@)[k]
            &&& iv.linkset_files[k].filename == literal_of(g, iv.linkset_files[k].id, CT@ + "filename"@)
            &&& iv.linkset_files[k].name == literal_of(g, iv.linkset_files[k].id, CT@ + "name"@)
        }
}

/// Index `iv` is read off graph `g` field by field: its description and
/// linkset references as [`description_from_graph`] says, and each document's
/// checksum, `ct:requested` flag and other fields as
/// [`checksum_from_graph`], [`requested_from_graph`] and
/// [`fields_from_graph`] say.
pub open spec fn index_read_from_graph(g: Seq<EntryView>, iv: IndexView) -> bool {
    &&& description_from_graph(g, iv)
    &&& forall|k: int|
        0 <= k < iv.documents.len() ==> {
            &&& checksum_from_graph(g, #[trigger] iv.documents[k])
            &&& requested_from_graph(g, iv.documents[k])
            &&& fields_from_graph(g, iv.documents[k])
        }
}

/// Every document of an index read from graph `g` carries what the graph
/// states for its subject: a checksum whose value is the document's first
/// `ct:checksum` literal and whose algorithm is its first
/// `ct:checksumAlgorithm` literal, present exactly when both are; the
/// `ct:requested` flag set exactly when the first `ct:requested` literal is
/// `true` or `1`; and its name, description, file type, format, encryption
/// and location as [`fields_from_graph`] reads them. The description and the
/// linkset references are read as [`description_from_graph`] says.
pub proof fn lemma_documents_from_graph(g: Seq<EntryView>)
    requires
        spec_index(g) is Ok,
    ensures
        forall|k: int|
            0 <= k < spec_index(g)->Ok_0.documents.len() ==> {
                &&& checksum_from_graph(g, #[trigger] spec_index(g)->Ok_0.documents[k])
                &&& requested_from_graph(g, spec_index(g)->Ok_0.documents[k])
                &&& fields_from_graph(g, spec_index(g)->Ok_0.documents[k])
                &&& spec_index(g)->Ok_0.documents[k].id == spec_document_ids(g)[k]
            },
        spec_index(g)->Ok_0.documents.len() == spec_document_ids(g).len(),
        description_from_graph(g, spec_index(g)->Ok_0),
        index_read_from_graph(g, spec_index(g)->Ok_0),
{
}

/// The ids of the documents: the internal, then the external, then the folder
/// documents, each id once.
pub open spec fn spec_document_ids(g: Seq<EntryView>) -> Seq<Seq<char>> {
    append_new(
        append_new(
            append_new(Seq::<Seq<char>>::empty(), ct_subjects(g, "InternalDocument"@)),
            ct_subjects(g, "ExternalDocument"@),
        ),
        ct_subjects(g, "FolderDocument"@),
    )
}

/// The linkset reference `id` as the index describes it.
pub open spec fn spec_linkset_ref(g: Seq<EntryView>, id: Seq<char>) -> LinksetRefView {
    LinksetRefView {
        id: id,
        filename: ct_literal(g, id, "filename"@),
        name: ct_literal(g, id, "name"@),
    }
}

/// The container index that graph `g` describes, or the detail of the error
/// when it has no `ct:ContainerDescription`.
pub open spec fn spec_index(g: Seq<EntryView>) -> Result<IndexView, Seq<char>> {
    let cds = ct_subjects(g, "ContainerDescription"@);
    if cds.len() == 0 {
        Err("Index.rdf has no ct:ContainerDescription"@)
    } else {
        let cd = cds[0];
        Ok(
            IndexView {
                description: DescriptionView {
                    id: cd,
                    conformance_indicator: ct_literal(g, cd, "conformanceIndicator"@),
                    description: ct_literal(g, cd, "description"@),
                    creation_date: ct_literal(g, cd, "creationDate"@),
                },
                documents: spec_document_ids(g).map_values(|id: Seq<char>| spec_document(g, id)),
                linkset_files: ct_subjects(g, "Linkset"@).map_values(
                    |id: Seq<char>| spec_linkset_ref(g, id),
                ),
            },
        )
    }
}

/// Whether `x` is among `ids`.
pub(crate) fn contains_id(ids: &Vec<String>, x: &str) -> (r: bool)
    ensures
        r == ids.deep_view().contains(x@),
{
    let mut i: usize = 0;
    while i < ids.len()
        invariant
            i <= ids.len(),
            forall|k: int| 0 <= k < i ==> ids.deep_view()[k] != x@,
        decreases ids.len() - i,
    {
        if str_eq(ids[i].as_str(), x) {
            assert(ids.deep_view()[i as int] == x@);
            return true;
        }
        i = i + 1;
    }
    false
}

/// Appends the ids of `xs` that are not yet in `ids` (see [`append_new`]).
pub(crate) fn push_new(ids: &mut Vec<String>, xs: &Vec<&str>)
    ensures
        final(ids).deep_view() == append_new(old(ids).deep_view(), xs@.map_values(|s: &str| s@)),
{
    let ghost acc = ids.deep_view();
    let ghost xv = xs@.map_values(|s: &str| s@);
    let mut i: usize = 0;
    assert(xv.take(0) =~= Seq::<Seq<char>>::empty());
    while i < xs.len()
        invariant
            i <= xs.len(),
            xv == xs@.map_values(|s: &str| s@),
            ids.deep_view() == append_new(acc, xv.take(i as int)),
        decreases xs.len() - i,
    {
        assert(xv.take(i + 1).drop_last() =~= xv.take(i as int));
        assert(xv.take(i + 1).last() == xs@[i as int]@);
        if !contains_id(ids, xs[i]) {
            let ghost before = ids.deep_view();
            ids.push(owned(xs[i]));
            assert(ids.deep_view() =~= before.push(xs@[i as int]@));
        }
        i = i + 1;
    }
    assert(xv.take(i as int) =~= xv);
}

/// The document `id` as graph `g` describes it.
fn parse_document(g: &RdfGraph, id: &str) -> (d: Document)
    ensures
        d.deep_view() == spec_document(g@, id@),
        d.deep_view().id == id@,
        checksum_from_graph(g@, d.deep_view()),
        requested_from_graph(g@, d.deep_view()),
        fields_from_graph(g@, d.deep_view()),
{
    let kind = if let Some(filename) = g.literal_ns(id, CT, "filename") {
        DocumentKind::Internal { filename }
    } else if let Some(url) = g.literal_ns(id, CT, "url") {
        DocumentKind::External { url }
    } else if let Some(foldername) = g.literal_ns(id, CT, "foldername") {
        DocumentKind::Folder { foldername }
    } else if g.has_type_ns(id, CT, "FolderDocument") {
        let foldername = String::new();
        DocumentKind::Folder { foldername }
    } else {
        let filename = String::new();
        DocumentKind::Internal { filename }
    };
    let checksum = match (g.literal_ns(id, CT, "checksum"), g.literal_ns(id, CT, "checksumAlgorithm")) {
        (Some(value), Some(algorithm)) => Some(Checksum { algorithm, value }),
        _ => None,
    };
    let requested = match g.literal_ns(id, CT, "requested") {
        Some(v) => str_eq(v.as_str(), "true") || str_eq(v.as_str(), "1"),
        None => false,
    };
    Document {
        id: owned(id),
        kind,
        name: g.literal_ns(id, CT, "name"),
        description: g.literal_ns(id, CT, "description"),
        filetype: g.literal_ns(id, CT, "filetype"),
        format: g.literal_ns(id, CT, "format"),
        checksum,
        encrypted: g.has_type_ns(id, CT, "EncryptedDocument"),
        requested,
    }
}

/// The container index that graph `g` describes (see [`spec_index`]).
pub fn index_from_graph(g: &RdfGraph) -> (r: Result<ContainerIndex, IcddError>)
    ensures
        match spec_index(g@) {
            Ok(v) => r matches Ok(i) && i.deep_view() == v,
            Err(d) => r matches Err(e) && e.is_not_conformant(d),
        },
        r matches Ok(i) ==> index_read_from_graph(g@, i.deep_view()),
{
    proof {
        if spec_index(g@) is Ok {
            lemma_documents_from_graph(g@);
        }
    }
    let cds = g.subjects_of_type_ns(CT, "ContainerDescription");
    if cds.len() == 0 {
        return Err(not_conformant(owned("Index.rdf has no ct:ContainerDescription")));
    }
    let cd_id = cds[0];
    assert(cd_id@ == ct_subjects(g@, "ContainerDescription"@)[0]);
    let description = ContainerDescription {
        id: owned(cd_id),
        conformance_indicator: g.literal_ns(cd_id, CT, "conformanceIndicator"),
        description: g.literal_ns(cd_id, CT, "description"),
        creation_date: g.literal_ns(cd_id, CT, "creationDate"),
    };
    let mut doc_ids: Vec<String> = Vec::new();
    assert(doc_ids.deep_view() =~= Seq::<Seq<char>>::empty());
    let internal = g.subjects_of_type_ns(CT, "InternalDocument");
    push_new(&mut doc_ids, &internal);
    let external = g.subjects_of_type_ns(CT, "ExternalDocument");
    push_new(&mut doc_ids, &external);
    let folder = g.subjects_of_type_ns(CT, "FolderDocument");
    push_new(&mut doc_ids, &folder);
    assert(doc_ids.deep_view() =~= spec_document_ids(g@));
    let ghost ids = doc_ids.deep_view();
    let mut documents: Vec<Document> = Vec::new();
    let mut i: usize = 0;
    while i < doc_ids.len()
        invariant
            i <= doc_ids.len(),
            ids == doc_ids.deep_view(),
            documents.deep_view() == ids.take(i as int).map_values(
                |id: Seq<char>| spec_document(g@, id),
            ),
        decreases doc_ids.len() - i,
    {
        let d = parse_document(g, doc_ids[i].as_str());
        let ghost before = documents.deep_view();
        assert(ids[i as int] == doc_ids@[i as int]@);
        documents.push(d);
        assert(documents.deep_view() =~= before.push(d.deep_view()));
        assert(ids.take(i + 1) =~= ids.take(i as int).push(ids[i as int]));
        assert(documents.deep_view() =~= ids.take(i + 1).map_values(
            |id: Seq<char>| spec_document(g@, id),
        ));
        i = i + 1;
    }
    assert(ids.take(i as int) =~= ids);
    let linksets = g.subjects_of_type_ns(CT, "Linkset");
    let ghost lids = linksets@.map_values(|s: &str| s@);
    let mut linkset_files: Vec<LinksetRef> = Vec::new();
    let mut j: usize = 0;
    while j < linksets.len()
        invariant
            j <= linksets.len(),
            lids == linksets@.map_values(|s: &str| s@),
            linkset_files.deep_view() == lids.take(j as int).map_values(
                |id: Seq<char>| spec_linkset_ref(g@, id),
            ),
        decreases linksets.len() - j,
    {
        let id = linksets[j];
        let r = LinksetRef {
            id: owned(id),
            filename: g.literal_ns(id, CT, "filename"),
            name: g.literal_ns(id, CT, "name"),
        };
        let ghost before = linkset_files.deep_view();
        assert(lids[j as int] == id@);
        assert(r.deep_view() == spec_linkset_ref(g@, id@));
        linkset_files.push(r);
        assert(linkset_files.deep_view() =~= before.push(r.deep_view()));
        assert(lids.take(j + 1) =~= lids.take(j as int).push(lids[j as int]));
        assert(linkset_files.deep_view() =~= lids.take(j + 1).map_values(
            |id: Seq<char>| spec_linkset_ref(g@, id),
        ));
        j = j + 1;
    }
    assert(lids.take(j as int) =~= lids);
    let index = ContainerIndex { description, documents, linkset_files };
    assert(index.deep_view().documents =~= spec_document_ids(g@).map_values(
        |id: Seq<char>| spec_document(g@, id),
    ));
    Ok(index)
}

/// Parse an `Index.rdf` document into the neutral container index.
pub fn parse_index(bytes: &[u8]) -> (r: Result<ContainerIndex, IcddError>)
    ensures
        parses_within_limit(bytes@) ==> exists|g: Seq<EntryView>|
            #[trigger] graph_read(bytes@, g) && match spec_index(g) {
                Ok(v) => r matches Ok(i) && i.deep_view() == v,
                Err(d) => r matches Err(e) && e.is_not_conformant(d),
            },
        !parses_within_limit(bytes@) ==> (r matches Err(e) && graph_read_error(bytes@, e)),
        r matches Ok(i) ==> exists|g: Seq<EntryView>|
            #[trigger] graph_read(bytes@, g) && spec_index(g) == Ok::<IndexView, Seq<char>>(i.deep_view())
                && index_read_from_graph(g, i.deep_view()),
        r matches Ok(i) ==> exists|ts: Seq<(Seq<char>, PairView)>|
            ts.len() <= MAX_RDF_TRIPLES && spec_index(graph_of(ts)) == Ok::<IndexView, Seq<char>>(
                i.deep_view(),
            ),
        r matches Err(e) ==> e is Rdf || e is NotConformant,
{
    let g = RdfGraph::parse(bytes)?;
    index_from_graph(&g)
}

} // verus!
