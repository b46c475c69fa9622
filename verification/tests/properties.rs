use std::io::{Cursor, Write};

use openbim_icdd::container::{validate_declared_path, ContainerZip};
use openbim_icdd::federation::{
    blank, check_member_sources, order_members, parse_member, parse_usize, validate_bindings,
    validate_manifest, FederationIcddPayload, PoingFederationManifest, PoingFederationMember,
};
use openbim_icdd::rdf::serialization_order;
use openbim_icdd::rdfgraph::{GraphTriple, Obj, RdfGraph};
use openbim_icdd::read::safe_relative_payload_path;
use openbim_icdd::text::{decimal_string, to_ascii_lowercase};
use openbim_icdd::vocab::{ct, local_name};
use openbim_icdd::writer::normalize_relative_path;
use openbim_icdd::{
    parse_rdf_xml, serialize_rdf_xml, write_poing_federation_icdd, IcddArchiveBuilder,
    IcddContainer, IcddError, RdfXmlOptions,
};
use zip::write::SimpleFileOptions;
use zip::ZipWriter;

const TWO_DOCUMENT_INDEX: &str = r#"<rdf:RDF
  xmlns:rdf="http://www.w3.org/1999/02/22-rdf-syntax-ns#"
  xmlns:ct="https://standards.iso.org/iso/21597/-1/ed-1/en/Container#">
  <ct:ContainerDescription rdf:about="urn:test:container">
    <ct:conformanceIndicator>ICDD-Part1-Container</ct:conformanceIndicator>
    <ct:containsDocument rdf:resource="urn:test:a"/>
    <ct:containsDocument rdf:resource="urn:test:b"/>
  </ct:ContainerDescription>
  <ct:InternalDocument rdf:about="urn:test:a">
    <ct:filename>a.ifc</ct:filename>
  </ct:InternalDocument>
  <ct:InternalDocument rdf:about="urn:test:b">
    <ct:filename>nested/b.ifc</ct:filename>
  </ct:InternalDocument>
</rdf:RDF>"#;

const NO_INDICATOR_INDEX: &str = r#"<rdf:RDF
  xmlns:rdf="http://www.w3.org/1999/02/22-rdf-syntax-ns#"
  xmlns:ct="https://standards.iso.org/iso/21597/-1/ed-1/en/Container#">
  <ct:ContainerDescription rdf:about="urn:test:container"/>
</rdf:RDF>"#;

const LINKED_INDEX: &str = r#"<rdf:RDF
  xmlns:rdf="http://www.w3.org/1999/02/22-rdf-syntax-ns#"
  xmlns:ct="https://standards.iso.org/iso/21597/-1/ed-1/en/Container#">
  <ct:ContainerDescription rdf:about="urn:test:container">
    <ct:conformanceIndicator>ICDD-Part1-Container</ct:conformanceIndicator>
    <ct:containsLinkset rdf:resource="urn:test:linkset"/>
  </ct:ContainerDescription>
  <ct:Linkset rdf:about="urn:test:linkset">
    <ct:filename>links.rdf</ct:filename>
  </ct:Linkset>
</rdf:RDF>"#;

const LINKSET: &str = r#"<rdf:RDF
  xmlns:rdf="http://www.w3.org/1999/02/22-rdf-syntax-ns#"
  xmlns:ls="https://standards.iso.org/iso/21597/-1/ed-1/en/Linkset#">
  <ls:Link rdf:about="urn:test:link" />
</rdf:RDF>"#;

fn two_payloads(first_b: bool) -> Vec<u8> {
    let builder = IcddArchiveBuilder::new(TWO_DOCUMENT_INDEX.as_bytes()).unwrap();
    let builder = if first_b {
        builder
            .add_payload("nested/b.ifc", b"bytes of b")
            .unwrap()
            .add_payload("a.ifc", b"bytes of a")
            .unwrap()
    } else {
        builder
            .add_payload("a.ifc", b"bytes of a")
            .unwrap()
            .add_payload("nested/b.ifc", b"bytes of b")
            .unwrap()
    };
    builder.finish().unwrap()
}

#[test]
fn every_written_payload_reads_back_byte_for_byte() {
    let mut container = IcddContainer::open_bytes(two_payloads(true)).unwrap();
    let documents = container.index().documents.clone();
    assert_eq!(documents.len(), 2);
    for document in &documents {
        let expected: &[u8] = match document.internal_path() {
            Some("a.ifc") => b"bytes of a",
            Some("nested/b.ifc") => b"bytes of b",
            other => panic!("unexpected document {other:?}"),
        };
        assert_eq!(container.payload_bytes(document).unwrap(), expected);
    }
}

#[test]
fn payload_insertion_order_does_not_change_the_archive() {
    assert_eq!(two_payloads(true), two_payloads(false));
}

#[test]
fn writer_paths_are_exactly_the_reader_declared_paths() {
    for path in [
        "model.ifc",
        "nested/model.ifc",
        "",
        "/model.ifc",
        "model.ifc/",
        "nested//model.ifc",
        "nested\\model.ifc",
        "../escape.ifc",
        "nested/../escape.ifc",
        "./model.ifc",
        "nested/./model.ifc",
        "..",
    ] {
        let written = normalize_relative_path(path);
        assert_eq!(written.is_ok(), validate_declared_path(path).is_ok(), "{path}");
        if let Ok(normalized) = written {
            assert_eq!(normalized, path);
        }
    }
}

#[test]
fn conformance_issues_name_missing_folders_and_indicator() {
    let mut zip = ZipWriter::new(Cursor::new(Vec::new()));
    let options = SimpleFileOptions::default();
    zip.start_file("Index.rdf", options).unwrap();
    zip.write_all(NO_INDICATOR_INDEX.as_bytes()).unwrap();
    let bytes = zip.finish().unwrap().into_inner();
    let container = IcddContainer::open_bytes(bytes).unwrap();
    assert_eq!(
        container.conformance_issues(),
        vec![
            "missing top-level folder 'Ontology resources'".to_string(),
            "missing top-level folder 'Payload documents'".to_string(),
            "missing top-level folder 'Payload triples'".to_string(),
            "ct:conformanceIndicator is absent".to_string(),
        ]
    );
}

#[test]
fn written_index_and_linkset_files_read_back_byte_for_byte() {
    let bytes = IcddArchiveBuilder::new(LINKED_INDEX.as_bytes())
        .unwrap()
        .add_linkset("links.rdf", LINKSET.as_bytes())
        .unwrap()
        .finish()
        .unwrap();
    let mut container = IcddContainer::open_bytes(bytes).unwrap();
    assert_eq!(container.index_rdf_bytes().unwrap(), LINKED_INDEX.as_bytes());
    assert_eq!(
        container.linkset_rdf_bytes("links.rdf").unwrap(),
        LINKSET.as_bytes()
    );
    let names: Vec<&str> = container
        .linksets()
        .iter()
        .map(|l| l.filename.as_str())
        .collect();
    assert_eq!(names, vec!["links.rdf"]);
    assert_eq!(container.linksets()[0].links.len(), 1);
}

#[test]
fn copying_a_payload_appends_its_bytes_and_counts_them() {
    let mut zip = ContainerZip::open(two_payloads(false)).unwrap();
    let mut out = b"head:".to_vec();
    assert_eq!(zip.copy_payload_to("nested/b.ifc", &mut out).unwrap(), 10);
    assert_eq!(out, b"head:bytes of b".to_vec());
    assert_eq!(
        zip.copy_payload_to("Payload documents/a.ifc", &mut out).unwrap(),
        10
    );
    assert_eq!(out, b"head:bytes of bbytes of a".to_vec());
    assert_eq!(zip.payload_bytes("nested\\b.ifc").unwrap(), b"bytes of b".to_vec());
    assert_eq!(
        zip.payload_bytes("Payload documents\\nested\\b.ifc").unwrap(),
        b"bytes of b".to_vec()
    );
    assert_eq!(local_name("https://x.test/o#a/b"), "b");
    assert_eq!(local_name("https://x.test/o/a#b"), "b");
    assert_eq!(local_name("plain"), "plain");
    let missing = zip.copy_payload_to("c.ifc", &mut out).unwrap_err();
    assert_eq!(
        missing.message(),
        "not a conformant ICDD container: payload entry not found: Payload documents/c.ifc"
    );
    assert_eq!(out, b"head:bytes of bbytes of a".to_vec());
}

#[test]
fn extraction_paths_keep_only_named_segments() {
    assert_eq!(
        safe_relative_payload_path("models\\v1/./site//a.ifc").unwrap(),
        "models/v1/site/a.ifc"
    );
    assert_eq!(safe_relative_payload_path("./a.ifc").unwrap(), "a.ifc");
    for unsafe_path in ["../a.ifc", "x/../../a.ifc", "/etc/a", "\\share\\a", "x\\..\\a"] {
        assert_eq!(
            safe_relative_payload_path(unsafe_path).unwrap_err().message(),
            format!("not a conformant ICDD container: unsafe payload path: {unsafe_path}")
        );
    }
    assert_eq!(
        safe_relative_payload_path("./").unwrap_err().message(),
        "not a conformant ICDD container: empty payload path"
    );
}

#[test]
fn a_container_without_federation_metadata_is_refused() {
    let accept = |_: &str| -> Option<String> { None };
    let error = openbim_icdd::parse_poing_federation_icdd(&two_payloads(false), &accept).unwrap_err();
    assert_eq!(
        error.message(),
        "not a conformant ICDD container: ICDD has no Poing federation metadata document"
    );
}

#[test]
fn parsing_yields_every_triple_of_the_document() {
    let document = br#"<rdf:RDF
  xmlns:rdf="http://www.w3.org/1999/02/22-rdf-syntax-ns#"
  xmlns:ex="http://example.com/">
  <ex:Thing rdf:about="http://example.com/a">
    <ex:name>A</ex:name>
    <ex:part><ex:Thing/></ex:part>
  </ex:Thing>
</rdf:RDF>"#;
    // Type and name of `a`, its part, and the type of the (blank) part.
    assert_eq!(parse_rdf_xml(document).unwrap().len(), 4);
    let empty = br#"<rdf:RDF xmlns:rdf="http://www.w3.org/1999/02/22-rdf-syntax-ns#"/>"#;
    assert_eq!(parse_rdf_xml(empty).unwrap().len(), 0);
    assert!(matches!(
        parse_rdf_xml(b"<rdf:RDF xmlns:rdf=\"http://www.w3.org/1999/02/22-rdf-syntax-ns#\"><x"),
        Err(IcddError::Rdf(_))
    ));
}

#[test]
fn each_error_variant_has_an_input_that_gives_it() {
    assert!(matches!(
        IcddContainer::open_bytes(b"not a zip archive".to_vec()),
        Err(IcddError::Zip(_))
    ));
    assert!(matches!(parse_rdf_xml(b"<rdf:RDF"), Err(IcddError::Rdf(_))));
    assert!(matches!(
        IcddArchiveBuilder::new(NO_INDICATOR_INDEX.as_bytes())
            .unwrap()
            .add_payload("../x", b""),
        Err(IcddError::NotConformant(_))
    ));

    // A stored entry whose bytes no longer match their checksum fails to read.
    let mut zip = ZipWriter::new(Cursor::new(Vec::new()));
    let options = SimpleFileOptions::default().compression_method(zip::CompressionMethod::Stored);
    zip.start_file("Index.rdf", options).unwrap();
    zip.write_all(NO_INDICATOR_INDEX.as_bytes()).unwrap();
    let mut bytes = zip.finish().unwrap().into_inner();
    let needle = b"ContainerDescription";
    let at = bytes
        .windows(needle.len())
        .position(|window| window == needle)
        .unwrap();
    bytes[at] = b'X';
    assert!(matches!(
        IcddContainer::open_bytes(bytes),
        Err(IcddError::Io(_))
    ));
}

#[test]
fn error_messages_follow_the_display_form() {
    assert_eq!(IcddError::Io("x".into()).message(), "io error: x");
    assert_eq!(IcddError::Zip("x".into()).message(), "zip error: x");
    assert_eq!(IcddError::Rdf("x".into()).message(), "rdf parse error: x");
    assert_eq!(
        IcddError::NotConformant("x".into()).message(),
        "not a conformant ICDD container: x"
    );
    assert_eq!(
        validate_declared_path("../x").unwrap_err().message(),
        "not a conformant ICDD container: unsafe or noncanonical archive path: \"../x\""
    );
}

#[test]
fn text_helpers_compute_exact_values() {
    assert_eq!(decimal_string(0), "0");
    assert_eq!(decimal_string(1234), "1234");
    assert_eq!(decimal_string(u64::MAX), "18446744073709551615");
    assert_eq!(to_ascii_lowercase("Payload DOCUMENTS/Ä"), "payload documents/Ä");
    assert_eq!(
        ct("name"),
        "https://standards.iso.org/iso/21597/-1/ed-1/en/Container#name"
    );
    assert_eq!(local_name("https://example.test/ns#Thing"), "Thing");
    assert_eq!(local_name("https://example.test/ns/Thing"), "Thing");
    assert_eq!(local_name("plain"), "plain");
    assert!(blank(" \t\n\u{3000}"));
    assert!(!blank(" x "));
}

#[test]
fn unsigned_numerals_parse_as_usize_from_str_does() {
    for text in ["0", "7", "+12", "007", "18446744073709551615", "18446744073709551616", "", "+", "-1", "1 ", "1.0", "x"] {
        assert_eq!(parse_usize(text), text.parse::<usize>().ok(), "{text:?}");
    }
}

#[test]
fn serialization_order_is_a_stable_sort_by_key() {
    let keys: Vec<String> = ["b", "a", "c", "a", ""].iter().map(|s| s.to_string()).collect();
    assert_eq!(serialization_order(&keys), vec![4, 1, 3, 0, 2]);
}

#[test]
fn serialized_rdf_does_not_depend_on_triple_order() {
    let rdf = br#"<rdf:RDF xmlns:rdf="http://www.w3.org/1999/02/22-rdf-syntax-ns#" xmlns:v="https://vendor.example/ns#">
      <rdf:Description rdf:about="https://example.test/a"><v:p>1</v:p><v:q rdf:resource="https://example.test/b"/></rdf:Description>
      <rdf:Description rdf:about="https://example.test/b"><v:p>2</v:p></rdf:Description>
    </rdf:RDF>"#;
    let triples = parse_rdf_xml(rdf).unwrap();
    let mut reversed = parse_rdf_xml(rdf).unwrap();
    reversed.reverse();
    assert_eq!(
        serialize_rdf_xml(&triples, RdfXmlOptions::new()).unwrap(),
        serialize_rdf_xml(&reversed, RdfXmlOptions::new()).unwrap()
    );
}

#[test]
fn serializer_refuses_an_unparsable_base_iri() {
    let triples = parse_rdf_xml(TWO_DOCUMENT_INDEX.as_bytes()).unwrap();
    let options = RdfXmlOptions::new().with_base_iri("not an iri");
    assert!(matches!(
        serialize_rdf_xml(&triples, options),
        Err(IcddError::Rdf(_))
    ));
    let options = RdfXmlOptions::new().with_prefix("oxprefix", "not an iri");
    assert!(serialize_rdf_xml(&triples, options).is_ok());
    let options = RdfXmlOptions::new().with_prefix("v", "not an iri");
    assert!(serialize_rdf_xml(&triples, options).is_err());
}

#[test]
fn serializer_refuses_exactly_reserved_syntax_predicates() {
    let subject = oxrdf::NamedNode::new("https://example.test/s").unwrap();
    let object = oxrdf::NamedNode::new("https://example.test/o").unwrap();
    let reserved = oxrdf::NamedNode::new("http://www.w3.org/1999/02/22-rdf-syntax-ns#about").unwrap();
    let plain = oxrdf::NamedNode::new("https://example.test/p").unwrap();
    let good = oxrdf::Triple::new(subject.clone(), plain, object.clone());
    let bad = oxrdf::Triple::new(subject, reserved, object);
    assert!(serialize_rdf_xml(&[good.clone()], RdfXmlOptions::new()).is_ok());
    assert!(matches!(
        serialize_rdf_xml(&[good, bad], RdfXmlOptions::new()),
        Err(IcddError::Rdf(_))
    ));
}

#[test]
fn graphs_refuse_documents_that_do_not_parse() {
    assert!(matches!(RdfGraph::parse(b"<rdf:RDF"), Err(IcddError::Rdf(_))));
    let graph = RdfGraph::parse(TWO_DOCUMENT_INDEX.as_bytes()).unwrap();
    let ct_ns = "https://standards.iso.org/iso/21597/-1/ed-1/en/Container#";
    let typed = graph.subjects_of_type_ns(ct_ns, "InternalDocument");
    assert_eq!(typed, vec!["urn:test:a", "urn:test:b"]);
    for subject in ["urn:test:a", "urn:test:b", "urn:test:container", "urn:test:none"] {
        assert_eq!(
            graph.has_type_ns(subject, ct_ns, "InternalDocument"),
            typed.contains(&subject)
        );
    }
}

fn identity_bits() -> [u64; 16] {
    [1.0, 0.0, 0.0, 0.0, 0.0, 1.0, 0.0, 0.0, 0.0, 0.0, 1.0, 0.0, 0.0, 0.0, 0.0, 1.0].map(f64::to_bits)
}

fn member(id: &str, uuid: u128, source: &str) -> PoingFederationMember {
    PoingFederationMember {
        id: id.into(),
        uuid,
        name: format!("{id} model"),
        source: source.into(),
        industry_domain: None,
        schema: None,
        content_hash: None,
        coordinate_reference_system: None,
        transform: "1 0 0 0 0 1 0 0 0 0 1 0 0 0 0 1".into(),
    }
}

fn manifest(members: Vec<PoingFederationMember>) -> PoingFederationManifest {
    PoingFederationManifest {
        id: "site".into(),
        uuid: 0x0123_4567_89ab_cdef_0011_2233_4455_6677,
        name: "Site".into(),
        primary_member_id: "a".into(),
        coordinate_reference_system: None,
        members,
    }
}

fn detail(error: IcddError) -> String {
    match error {
        IcddError::NotConformant(detail) => detail,
        other => panic!("unexpected error {}", other.message()),
    }
}

#[test]
fn manifest_validation_reports_the_first_problem() {
    let none = |n: usize| vec![None; n];
    let ok = manifest(vec![member("a", 1, "a.ifc"), member("b", 2, "b.ifc")]);
    assert!(validate_manifest(&ok, &none(2)).is_ok());

    let mut blank_name = ok.clone();
    blank_name.name = "  ".into();
    assert_eq!(
        detail(validate_manifest(&blank_name, &none(2)).unwrap_err()),
        "federation id and name must not be empty"
    );
    assert_eq!(
        detail(validate_manifest(&manifest(vec![]), &none(0)).unwrap_err()),
        "federation must contain at least one member"
    );
    let mut blank_source = ok.clone();
    blank_source.members[1].source = "\t".into();
    assert_eq!(
        detail(validate_manifest(&blank_source, &none(2)).unwrap_err()),
        "federation member identity fields must not be empty"
    );
    let same_uuid = manifest(vec![member("a", 1, "a.ifc"), member("b", 1, "b.ifc")]);
    assert_eq!(
        detail(validate_manifest(&same_uuid, &none(2)).unwrap_err()),
        "federation member ids and UUIDs must be unique"
    );
    assert_eq!(
        detail(validate_manifest(&ok, &[None, Some("bad transform".into())]).unwrap_err()),
        "bad transform"
    );
    let mut no_primary = ok.clone();
    no_primary.primary_member_id = "z".into();
    assert_eq!(
        detail(validate_manifest(&no_primary, &none(2)).unwrap_err()),
        "primary federation member does not exist"
    );
}

#[test]
fn bindings_must_match_members_one_to_one() {
    let m = manifest(vec![member("a", 1, "a.ifc"), member("b", 2, "https://example.test/b")]);
    let a = FederationIcddPayload::Internal { member_id: "a", filename: "a.ifc", bytes: b"A" };
    let b = FederationIcddPayload::External { member_id: "b", url: "https://example.test/b" };
    assert_eq!(validate_bindings(&m, &[b, a]).unwrap(), vec![1, 0]);

    let a = FederationIcddPayload::Internal { member_id: "a", filename: "a.ifc", bytes: b"A" };
    let again = FederationIcddPayload::External { member_id: "a", url: "x" };
    assert_eq!(
        detail(validate_bindings(&m, &[a, again]).unwrap_err()),
        "duplicate payload binding for a"
    );
    let a = FederationIcddPayload::Internal { member_id: "a", filename: "other.ifc", bytes: b"A" };
    let b = FederationIcddPayload::External { member_id: "b", url: "https://example.test/b" };
    assert_eq!(
        detail(validate_bindings(&m, &[a, b]).unwrap_err()),
        "federation member a source \"a.ifc\" does not match bound source \"other.ifc\""
    );
    let a = FederationIcddPayload::Internal { member_id: "a", filename: "a.ifc", bytes: b"A" };
    let b = FederationIcddPayload::External { member_id: "b", url: "https://example.test/b" };
    let c = FederationIcddPayload::External { member_id: "c", url: "x" };
    assert_eq!(
        detail(validate_bindings(&m, &[a, b, c]).unwrap_err()),
        "payload binding references an unknown federation member"
    );
}

fn literal(subject: &str, local: &str, value: &str) -> GraphTriple {
    GraphTriple {
        subject: subject.into(),
        predicate: format!("https://poing.dev/ns/federation/icdd/1#{local}"),
        object: Obj::Literal(value.into()),
    }
}

#[test]
fn members_are_read_field_by_field() {
    let s = "urn:member";
    let fields = |order: &str, uuid: &str| {
        vec![
            literal(s, "order", order),
            literal(s, "id", "a"),
            literal(s, "uuid", uuid),
            literal(s, "name", "A"),
            literal(s, "source", "a.ifc"),
            literal(s, "schema", "IFC4"),
            literal(s, "transform", "1 2"),
        ]
    };
    let accept = |_: &str| -> Option<String> { None };
    let graph = RdfGraph::from_triples(&fields("+3", "019c97c5-a8f4-7000-8000-000000000002"));
    let (order, parsed) = parse_member(&graph, s, &accept).unwrap();
    assert_eq!(order, 3);
    assert_eq!(parsed.uuid, 0x019c97c5_a8f4_7000_8000_000000000002);
    assert_eq!(parsed.schema.as_deref(), Some("IFC4"));
    assert_eq!(parsed.industry_domain, None);
    assert_eq!(parsed.transform, "1 2");

    let graph = RdfGraph::from_triples(&fields("three", "019c97c5-a8f4-7000-8000-000000000002"));
    assert_eq!(
        detail(parse_member(&graph, s, &accept).unwrap_err()),
        "Poing member order is not an unsigned integer"
    );
    let graph = RdfGraph::from_triples(&fields("0", "not-a-uuid"));
    assert_eq!(
        detail(parse_member(&graph, s, &accept).unwrap_err()),
        "Poing UUID is not a valid UUID"
    );
    let graph = RdfGraph::from_triples(&fields("0", "019c97c5-a8f4-7000-8000-000000000002")[1..]);
    assert_eq!(
        detail(parse_member(&graph, s, &accept).unwrap_err()),
        "Poing federation RDF is missing order"
    );
    let graph = RdfGraph::from_triples(&fields("0", "019c97c5-a8f4-7000-8000-000000000002"));
    let refuse = |text: &str| -> Option<String> { Some(format!("refused {text}")) };
    assert_eq!(detail(parse_member(&graph, s, &refuse).unwrap_err()), "refused 1 2");
}

#[test]
fn member_orders_must_run_from_zero() {
    let parsed = vec![(1, member("b", 2, "b.ifc")), (0, member("a", 1, "a.ifc"))];
    let ordered = order_members(&parsed).unwrap();
    assert_eq!(ordered[0].id, "a");
    assert_eq!(ordered[1].id, "b");
    let gap = vec![(0, member("a", 1, "a.ifc")), (2, member("b", 2, "b.ifc"))];
    assert_eq!(
        detail(order_members(&gap).unwrap_err()),
        "Poing member order must be contiguous from zero"
    );
}

#[test]
fn federation_archives_carry_the_uuid_text_and_check_member_sources() {
    let m = manifest(vec![member("a", 0x019c97c5_a8f4_7000_8000_000000000002, "a.ifc")]);
    let payloads = [FederationIcddPayload::Internal { member_id: "a", filename: "a.ifc", bytes: b"A" }];
    let bytes = write_poing_federation_icdd(&m, &payloads, &[identity_bits()]).unwrap();
    let mut container = IcddContainer::open_bytes(bytes).unwrap();
    let index = String::from_utf8(container.index_rdf_bytes().unwrap()).unwrap();
    assert!(index.contains("01234567-89ab-cdef-0011-223344556677"));
    assert!(index.contains("member-019c97c5-a8f4-7000-8000-000000000002"));

    let metadata = container
        .index()
        .documents
        .iter()
        .find(|d| d.internal_path() == Some("poing-federation.rdf"))
        .unwrap()
        .id
        .clone();
    assert!(check_member_sources(&m.members, &container, &metadata).is_ok());
    let elsewhere = vec![member("a", 1, "b.ifc")];
    assert_eq!(
        detail(check_member_sources(&elsewhere, &container, &metadata).unwrap_err()),
        "federation member a source \"b.ifc\" must identify exactly one Index.rdf document"
    );
    let member_document = container
        .index()
        .documents
        .iter()
        .find(|d| d.internal_path() == Some("a.ifc"))
        .unwrap()
        .id
        .clone();
    assert_eq!(
        detail(check_member_sources(&m.members, &container, &member_document).unwrap_err()),
        "federation member a source \"a.ifc\" is not an available model document"
    );
}

#[test]
fn federation_index_describes_container_metadata_and_members() {
    let m = manifest(vec![
        member("a", 0x019c97c5_a8f4_7000_8000_000000000002, "a.ifc"),
        member("b", 0x019c97c5_a8f4_7000_8000_000000000003, "https://example.test/b.ifc"),
    ]);
    let payloads = [
        FederationIcddPayload::External { member_id: "b", url: "https://example.test/b.ifc" },
        FederationIcddPayload::Internal { member_id: "a", filename: "a.ifc", bytes: b"A" },
    ];
    let bytes = write_poing_federation_icdd(&m, &payloads, &[identity_bits(), identity_bits()]).unwrap();
    let container = IcddContainer::open_bytes(bytes).unwrap();
    let index = container.index();
    assert_eq!(
        index.description.conformance_indicator.as_deref(),
        Some("ICDD-Part1-Container")
    );
    assert_eq!(index.description.description.as_deref(), Some("Site"));
    let metadata = index
        .documents
        .iter()
        .find(|d| d.internal_path() == Some("poing-federation.rdf"))
        .unwrap();
    assert_eq!(metadata.name.as_deref(), Some("Poing federation manifest"));
    assert_eq!(metadata.filetype.as_deref(), Some("rdf"));
    assert_eq!(metadata.format.as_deref(), Some("application/rdf+xml"));
    assert!(!metadata.encrypted && !metadata.requested && metadata.checksum.is_none());
    let a = index.documents.iter().find(|d| d.name.as_deref() == Some("a model")).unwrap();
    assert!(matches!(&a.kind, openbim_icdd::DocumentKind::Internal { filename } if filename == "a.ifc"));
    let b = index.documents.iter().find(|d| d.name.as_deref() == Some("b model")).unwrap();
    assert!(matches!(&b.kind, openbim_icdd::DocumentKind::External { url } if url == "https://example.test/b.ifc"));
    assert_eq!(index.documents.len(), 3);
}
