//! ISO 21597 Information Container for linked Document Delivery (ICDD).
#![allow(unused_imports)]

use vstd::prelude::*;

pub mod container;
pub mod error;
pub mod federation;
pub mod index;
pub mod layout;
pub mod linkset;
pub mod rdf;
pub mod rdfgraph;
pub mod read;
pub mod schema;
pub mod text;
pub mod transform;
pub mod vocab;
pub mod writer;

pub use error::IcddError;
pub use federation::{
    parse_poing_federation_icdd, write_poing_federation_icdd, FederationIcddPayload,
    PoingFederationManifest, PoingFederationMember,
};
pub use rdf::{parse_rdf_xml, serialize_rdf_xml, RdfXmlOptions};
pub use read::IcddContainer;
pub use schema::{
    Checksum, ContainerDescription, ContainerIndex, Document, DocumentKind, ElementIdentifier, Link,
    LinkElement, LinkSet, LinksetRef,
};
pub use writer::IcddArchiveBuilder;

verus! {

/// Conventional path of the container index inside an ICDD archive.
pub const INDEX_PATH: &'static str = "Index.rdf";

/// Conventional directory holding ontology resources.
pub const ONTOLOGY_RESOURCES_DIR: &'static str = "Ontology resources";

/// Conventional directory holding payload documents.
pub const PAYLOAD_DOCUMENTS_DIR: &'static str = "Payload documents";

/// Conventional directory holding linkset RDF graphs.
pub const PAYLOAD_TRIPLES_DIR: &'static str = "Payload triples";

} // verus!
