# openbim-icdd

ISO 21597 Information Container for linked Document Delivery (ICDD): ZIP
containers that carry payload documents unchanged while RDF describes the
container and links elements across documents.

The library in `src/` is written in Verus. Every function there carries a
contract over mathematical models (sequences of characters and bytes, the
entries of the archive, the statements of an RDF graph), and Verus proves the
code against it. The ZIP, RDF/XML and UUID work itself is done by the `zip`,
`oxrdfxml`, `oxrdf` and `uuid` crates, reached through small trusted wrappers
whose contracts state what those crates document.

## Layout

- `src/container.rs` — archive-path rules and the validated view over the
  entries of an archive held in memory.
- `src/rdf.rs`, `src/rdfgraph.rs` — RDF/XML parsing and deterministic
  serialization, and the subject-indexed graph the typed views read.
- `src/index.rs`, `src/linkset.rs`, `src/schema.rs`, `src/vocab.rs` — the
  container index and linksets decoded from their graphs.
- `src/read.rs` — `IcddContainer`: open, read payloads, report conformance.
- `src/writer.rs` — `IcddArchiveBuilder`: deterministic archive construction.
- `src/federation.rs` — the Poing federation extension.
- `src/transform.rs` — the exact check of a member transform on the IEEE-754
  bit patterns of its entries, with arbitrary-precision integers.
- `src/text.rs`, `src/error.rs` — character-sequence helpers and the error type.
- `app/` — filesystem access, serde views of the model, the error's
  `Display`, and the parsing and printing of the floating-point member
  transforms of the federation extension.

## Proved properties

Besides the contract of each function, the library proves, among others:

- the archive the builder finishes is read back by the ZIP reader with the
  names, sizes and contents written (`container::reads_written`, stated by
  `IcddArchiveBuilder::finish`); its names pass the reader's path rules with
  `Index.rdf` as the one root index (`layout::lemma_built_names_accepted`),
  and it opens as a container, with every linkset it reads parsing, whenever
  the readings of its index describe a container with accepted file names
  (`layout::lemma_built_archive_opens`);
- of an archive that opens, a payload written by the builder reads back byte
  for byte (`writer::lemma_payload_round_trip`), and so do the index and the
  linkset files (`writer::lemma_index_round_trip`,
  `writer::lemma_linkset_round_trip`);
- the archive does not depend on the order of the add calls
  (`writer::lemma_add_order_irrelevant`, `writer::lemma_payload_order_irrelevant`);
- a parsed graph is a reading of its bytes, and a graph's typed subjects
  agree with its type test (`rdfgraph::lemma_typed_subjects_agree`);
- the writer accepts exactly the paths the reader accepts
  (`writer::lemma_normalize_accepts_declared_paths`);
- RDF serialization order does not depend on the order of the input triples
  (`rdf::lemma_serialization_order_canonical`), and triples given in any
  order, no two different ones sharing an N-Triples text, are serialized as
  the same document (`rdf::lemma_serialization_order_independent`);
- the federation graph the writer builds reads back as the manifest, in the
  sense in which the parser reads one (`federation::lemma_federation_graph_reads_back`,
  built on `federation::lemma_member_round_trip` and
  `federation::lemma_federation_fields_round_trip`), what the parser reads
  from a graph is determined by the graph
  (`federation::lemma_read_from_graph_unique`), and the federation's
  `Index.rdf` describes the container, the metadata document and each member
  document (`federation::lemma_index_description_round_trip`,
  `federation::lemma_member_document_round_trip`);
- every member of a successfully parsed federation names exactly one
  available document of the index (`federation::lemma_sources_available`);
- a container reports no conformance issue exactly when its mandatory folders
  and conformance indicator are present (`read::lemma_conformant_iff`);
- a payload path accepted for extraction is relative and made only of named
  segments, none of them `..` (`read::lemma_safe_payload_path_contained`).
