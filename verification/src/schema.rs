//! The neutral in-memory model of an ICDD container: its manifest, documents,
//! and linksets. No RDF terms leak up (they are resolved while parsing the
//! index and the linksets), and payload documents stay opaque.

use vstd::prelude::*;

use crate::text::{
    chars_contain, chars_end_with, chars_eq, chars_of, chars_occur_at, chars_ascii_lower, seq_ascii_lower,
    seq_contains, seq_ends_with, seq_starts_with,
};

verus! {

/// A parsed ISO 21597-1 container index: its manifest, documents, and
/// linkset references.
#[derive(Debug, Clone)]
pub struct ContainerIndex {
    /// The single `ct:ContainerDescription` manifest.
    pub description: ContainerDescription,
    /// Every `ct:*Document` individual.
    pub documents: Vec<Document>,
    /// Every `ct:Linkset` reference.
    pub linkset_files: Vec<LinksetRef>,
}

/// The `ct:ContainerDescription` manifest object.
#[derive(Debug, Clone)]
pub struct ContainerDescription {
    /// The RDF node id.
    pub id: String,
    /// `ct:conformanceIndicator`; must equal `"ICDD-Part1-Container"`.
    pub conformance_indicator: Option<String>,
    /// `ct:description`.
    pub description: Option<String>,
    /// `ct:creationDate` (xsd:dateTime, kept as the raw string).
    pub creation_date: Option<String>,
}

/// A `ct:Linkset` reference (the file, not its parsed content).
#[derive(Debug, Clone)]
pub struct LinksetRef {
    /// RDF node id.
    pub id: String,
    /// `ct:filename`: path under `Payload triples/`.
    pub filename: Option<String>,
    /// `ct:name`.
    pub name: Option<String>,
}

/// A `ct:*Document` individual (Internal / External / Folder), with the
/// Secured/Encrypted mix-ins folded into flags.
#[derive(Debug, Clone)]
pub struct Document {
    /// RDF node id; link elements reference it via `ls:hasDocument`.
    pub id: String,
    /// Which concrete document class this is.
    pub kind: DocumentKind,
    /// `ct:name`.
    pub name: Option<String>,
    /// `ct:description`.
    pub description: Option<String>,
    /// `ct:filetype`, e.g. `"ifc"`, `"pdf"`.
    pub filetype: Option<String>,
    /// `ct:format`: IANA media type.
    pub format: Option<String>,
    /// `(algorithm, value)` if this is a `ct:SecuredDocument`.
    pub checksum: Option<Checksum>,
    /// True if this is (also) a `ct:EncryptedDocument`.
    pub encrypted: bool,
    /// `ct:requested`: a slot for a not-yet-delivered document.
    pub requested: bool,
}

/// The concrete document class and its location.
#[derive(Debug, Clone)]
pub enum DocumentKind {
    /// `ct:InternalDocument`: a file inside the container.
    Internal {
        /// `ct:filename`: path under `Payload documents/`, `/`-separated.
        filename: String,
    },
    /// `ct:ExternalDocument`: a document outside the container.
    External {
        /// `ct:url` (anyURI).
        url: String,
    },
    /// `ct:FolderDocument`: a multi-file document in one folder.
    Folder {
        /// `ct:foldername`: path under `Payload documents/`.
        foldername: String,
    },
}

/// A `ct:SecuredDocument` checksum.
#[derive(Debug, Clone)]
pub struct Checksum {
    /// `ct:checksumAlgorithm`.
    pub algorithm: String,
    /// `ct:checksum`.
    pub value: String,
}

/// A parsed link dataset (one `Payload triples/*.rdf` file).
#[derive(Debug, Clone)]
pub struct LinkSet {
    /// The linkset filename (relative to `Payload triples/`).
    pub filename: String,
    /// The `ls:Link` individuals it defines.
    pub links: Vec<Link>,
}

/// An `ls:Link`: a set of link elements relating documents or elements.
#[derive(Debug, Clone)]
pub struct Link {
    /// RDF node id.
    pub id: String,
    /// Whether the link is directed (has from/to elements) or a plain set.
    pub directed: bool,
    /// All link elements.
    pub elements: Vec<LinkElement>,
    /// Node ids that are `ls:hasFromLinkElement`.
    pub from: Vec<String>,
    /// Node ids that are `ls:hasToLinkElement`.
    pub to: Vec<String>,
}

/// An `ls:LinkElement`: a reference to a document, with an optional
/// identifier into it.
#[derive(Debug, Clone)]
pub struct LinkElement {
    /// RDF node id.
    pub id: String,
    /// `ls:hasDocument`: the referenced [`Document::id`].
    pub document_id: Option<String>,
    /// `ls:hasIdentifier`: how to locate an element within that document.
    pub identifier: Option<ElementIdentifier>,
}

/// An `ls:Identifier` (string, URI or query based).
#[derive(Debug, Clone)]
pub enum ElementIdentifier {
    /// `ls:StringBasedIdentifier`, e.g. an IFC GUID.
    String {
        /// `ls:identifier`.
        value: String,
        /// `ls:identifierField`.
        field: Option<String>,
    },
    /// `ls:URIBasedIdentifier`.
    Uri {
        /// `ls:uri`.
        uri: String,
    },
    /// `ls:QueryBasedIdentifier`.
    Query {
        /// `ls:queryLanguage`.
        language: Option<String>,
        /// `ls:queryExpression`.
        expression: Option<String>,
    },
}

// ---------------------------------------------------------------------------
// Mathematical values of the model
pub struct DescriptionView {
    pub id: Seq<char>,
    pub conformance_indicator: Option<Seq<char>>,
    pub description: Option<Seq<char>>,
    pub creation_date: Option<Seq<char>>,
}

pub struct LinksetRefView {
    pub id: Seq<char>,
    pub filename: Option<Seq<char>>,
    pub name: Option<Seq<char>>,
}

pub enum DocumentKindView {
    Internal { filename: Seq<char> },
    External { url: Seq<char> },
    Folder { foldername: Seq<char> },
}

pub struct ChecksumView {
    pub algorithm: Seq<char>,
    pub value: Seq<char>,
}

pub struct DocumentView {
    pub id: Seq<char>,
    pub kind: DocumentKindView,
    pub name: Option<Seq<char>>,
    pub description: Option<Seq<char>>,
    pub filetype: Option<Seq<char>>,
    pub format: Option<Seq<char>>,
    pub checksum: Option<ChecksumView>,
    pub encrypted: bool,
    pub requested: bool,
}

pub struct IndexView {
    pub description: DescriptionView,
    pub documents: Seq<DocumentView>,
    pub linkset_files: Seq<LinksetRefView>,
}

pub enum IdentifierView {
    String { value: Seq<char>, field: Option<Seq<char>> },
    Uri { uri: Seq<char> },
    Query { language: Option<Seq<char>>, expression: Option<Seq<char>> },
}

pub struct LinkElementView {
    pub id: Seq<char>,
    pub document_id: Option<Seq<char>>,
    pub identifier: Option<IdentifierView>,
}

pub struct LinkView {
    pub id: Seq<char>,
    pub directed: bool,
    pub elements: Seq<LinkElementView>,
    pub from: Seq<Seq<char>>,
    pub to: Seq<Seq<char>>,
}

pub struct LinkSetView {
    pub filename: Seq<char>,
    pub links: Seq<LinkView>,
}

impl DeepView for ContainerDescription {
    type V = DescriptionView;

    open spec fn deep_view(&self) -> DescriptionView {
        DescriptionView {
            id: self.id@,
            conformance_indicator: self.conformance_indicator.deep_view(),
            description: self.description.deep_view(),
            creation_date: self.creation_date.deep_view(),
        }
    }
}

impl DeepView for LinksetRef {
    type V = LinksetRefView;

    open spec fn deep_view(&self) -> LinksetRefView {
        LinksetRefView {
            id: self.id@,
            filename: self.filename.deep_view(),
            name: self.name.deep_view(),
        }
    }
}

impl DeepView for DocumentKind {
    type V = DocumentKindView;

    open spec fn deep_view(&self) -> DocumentKindView {
        match self {
            DocumentKind::Internal { filename } => DocumentKindView::Internal {
                filename: filename@,
            },
            DocumentKind::External { url } => DocumentKindView::External { url: url@ },
            DocumentKind::Folder { foldername } => DocumentKindView::Folder {
                foldername: foldername@,
            },
        }
    }
}

impl DeepView for Checksum {
    type V = ChecksumView;

    open spec fn deep_view(&self) -> ChecksumView {
        ChecksumView { algorithm: self.algorithm@, value: self.value@ }
    }
}

impl DeepView for Document {
    type V = DocumentView;

    open spec fn deep_view(&self) -> DocumentView {
        DocumentView {
            id: self.id@,
            kind: self.kind.deep_view(),
            name: self.name.deep_view(),
            description: self.description.deep_view(),
            filetype: self.filetype.deep_view(),
            format: self.format.deep_view(),
            checksum: self.checksum.deep_view(),
            encrypted: self.encrypted,
            requested: self.requested,
        }
    }
}

impl DeepView for ContainerIndex {
    type V = IndexView;

    open spec fn deep_view(&self) -> IndexView {
        IndexView {
            description: self.description.deep_view(),
            documents: self.documents.deep_view(),
            linkset_files: self.linkset_files.deep_view(),
        }
    }
}

impl DeepView for ElementIdentifier {
    type V = IdentifierView;

    open spec fn deep_view(&self) -> IdentifierView {
        match self {
            ElementIdentifier::String { value, field } => IdentifierView::String {
                value: value@,
                field: field.deep_view(),
            },
            ElementIdentifier::Uri { uri } => IdentifierView::Uri { uri: uri@ },
            ElementIdentifier::Query { language, expression } => IdentifierView::Query {
                language: language.deep_view(),
                expression: expression.deep_view(),
            },
        }
    }
}

impl DeepView for LinkElement {
    type V = LinkElementView;

    open spec fn deep_view(&self) -> LinkElementView {
        LinkElementView {
            id: self.id@,
            document_id: self.document_id.deep_view(),
            identifier: self.identifier.deep_view(),
        }
    }
}

impl DeepView for Link {
    type V = LinkView;

    open spec fn deep_view(&self) -> LinkView {
        LinkView {
            id: self.id@,
            directed: self.directed,
            elements: self.elements.deep_view(),
            from: self.from.deep_view(),
            to: self.to.deep_view(),
        }
    }
}

impl DeepView for LinkSet {
    type V = LinkSetView;

    open spec fn deep_view(&self) -> LinkSetView {
        LinkSetView { filename: self.filename@, links: self.links.deep_view() }
    }
}

/// The in-container path of an internal document.
pub open spec fn spec_internal_path(d: DocumentView) -> Option<Seq<char>> {
    match d.kind {
        DocumentKindView::Internal { filename } => Some(filename),
        _ => None,
    }
}

/// A document is an IFC payload: its file type (ASCII case-insensitively) is
/// `ifc` or starts with `ifc-` or `ifc `, or its media type mentions `ifc`, or
/// it is internal with a file name ending in `.ifc`.
pub open spec fn spec_is_ifc(d: DocumentView) -> bool {
    let ft = seq_ascii_lower(
        match d.filetype {
            Some(f) => f,
            None => Seq::<char>::empty(),
        },
    );
    ||| ft == "ifc"@
    ||| seq_starts_with(ft, "ifc-"@)
    ||| seq_starts_with(ft, "ifc "@)
    ||| (d.format matches Some(f) && seq_contains(seq_ascii_lower(f), "ifc"@))
    ||| (spec_internal_path(d) matches Some(p) && seq_ends_with(seq_ascii_lower(p), ".ifc"@))
}

impl Document {
    /// True if this document is an IFC payload (by filetype, media type, or
    /// filename extension).
    pub fn is_ifc(&self) -> (r: bool)
        ensures
            r == spec_is_ifc(self.deep_view()),
    {
        let ft = match &self.filetype {
            Some(f) => chars_of(f.as_str()),
            None => Vec::new(),
        };
        let ft = chars_ascii_lower(ft.as_slice());
        let ifc = chars_of("ifc");
        let ifc_dash = chars_of("ifc-");
        let ifc_space = chars_of("ifc ");
        if chars_eq(ft.as_slice(), ifc.as_slice()) {
            return true;
        }
        if chars_occur_at(ft.as_slice(), ifc_dash.as_slice(), 0) {
            return true;
        }
        if chars_occur_at(ft.as_slice(), ifc_space.as_slice(), 0) {
            return true;
        }
        if let Some(fmt) = &self.format {
            let lower = chars_ascii_lower(chars_of(fmt.as_str()).as_slice());
            if chars_contain(lower.as_slice(), ifc.as_slice()) {
                return true;
            }
        }
        match self.internal_path() {
            Some(p) => {
                let lower = chars_ascii_lower(chars_of(p).as_slice());
                let ext = chars_of(".ifc");
                chars_end_with(lower.as_slice(), ext.as_slice())
            },
            None => false,
        }
    }

    /// The in-container path (under `Payload documents/`) for an internal
    /// document; `None` for external and folder documents.
    pub fn internal_path(&self) -> (r: Option<&str>)
        ensures
            r.deep_view() == spec_internal_path(self.deep_view()),
    {
        match &self.kind {
            DocumentKind::Internal { filename } => Some(filename.as_str()),
            _ => None,
        }
    }
}

/// A copy of an optional text.
fn copy_text(s: &Option<String>) -> (r: Option<String>)
    ensures
        r.deep_view() == s.deep_view(),
{
    match s {
        Some(t) => Some(t.clone()),
        None => None,
    }
}

impl DocumentKind {
    /// A copy of the document kind.
    pub fn duplicate(&self) -> (r: DocumentKind)
        ensures
            r.deep_view() == self.deep_view(),
    {
        match self {
            DocumentKind::Internal { filename } => DocumentKind::Internal { filename: filename.clone() },
            DocumentKind::External { url } => DocumentKind::External { url: url.clone() },
            DocumentKind::Folder { foldername } => DocumentKind::Folder { foldername: foldername.clone() },
        }
    }
}

impl Document {
    /// A copy of the document.
    pub fn duplicate(&self) -> (r: Document)
        ensures
            r.deep_view() == self.deep_view(),
    {
        let checksum = match &self.checksum {
            Some(c) => Some(Checksum { algorithm: c.algorithm.clone(), value: c.value.clone() }),
            None => None,
        };
        Document {
            id: self.id.clone(),
            kind: self.kind.duplicate(),
            name: copy_text(&self.name),
            description: copy_text(&self.description),
            filetype: copy_text(&self.filetype),
            format: copy_text(&self.format),
            checksum,
            encrypted: self.encrypted,
            requested: self.requested,
        }
    }
}

} // verus!
