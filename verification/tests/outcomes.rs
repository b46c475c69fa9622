use std::io::{Cursor, Write};

use openbim_icdd::container::ContainerZip;
use openbim_icdd::rdfgraph::RdfGraph;
use openbim_icdd::writer::insert_unique;
use openbim_icdd::{IcddContainer, IcddError};
use zip::write::SimpleFileOptions;
use zip::ZipWriter;

const INDEX: &str = r##"<rdf:RDF
  xml:base="https://example.test/"
  xmlns:rdf="http://www.w3.org/1999/02/22-rdf-syntax-ns#"
  xmlns:ct="https://standards.iso.org/iso/21597/-1/ed-1/en/Container#">
  <ct:ContainerDescription rdf:about="#container">
    <ct:conformanceIndicator>ICDD-Part1-Container</ct:conformanceIndicator>
  </ct:ContainerDescription>
</rdf:RDF>"##;

fn archive(names: &[&str]) -> Vec<u8> {
    let mut writer = ZipWriter::new(Cursor::new(Vec::new()));
    let options = SimpleFileOptions::default();
    for name in names {
        writer.start_file(*name, options).unwrap();
        if *name == "Index.rdf" {
            writer.write_all(INDEX.as_bytes()).unwrap();
        } else {
            writer.write_all(b"payload").unwrap();
        }
    }
    writer.finish().unwrap().into_inner()
}

#[test]
fn readable_archives_with_refused_names_are_not_conformant() {
    for names in [
        vec!["Index.rdf", "../escape.ifc"],
        vec!["Index.rdf", "Payload documents/a.ifc", "Payload documents/A.IFC"],
        vec!["Payload documents/a.ifc"],
        vec!["Index.rdf", "INDEX.RDF"],
    ] {
        match ContainerZip::open(archive(&names)) {
            Err(IcddError::NotConformant(_)) => {}
            other => panic!("expected a conformance error for {names:?}, got {:?}", other.err()),
        }
    }
    assert!(ContainerZip::open(archive(&["Index.rdf", "Payload documents/a.ifc"])).is_ok());
    assert!(matches!(ContainerZip::open(b"not a zip".to_vec()), Err(IcddError::Zip(_))));
}

#[test]
fn readable_entries_within_the_limits_are_read() {
    let mut zip = ContainerZip::open(archive(&["Index.rdf", "Payload documents/a.ifc"])).unwrap();
    assert_eq!(zip.index_bytes().unwrap(), INDEX.as_bytes().to_vec());
    assert_eq!(zip.payload_bytes("a.ifc").unwrap(), b"payload".to_vec());
    assert_eq!(zip.payload_bytes("Payload documents\\A.IFC").unwrap(), b"payload".to_vec());
    let mut sink = vec![9u8];
    assert_eq!(zip.copy_payload_to("a.ifc", &mut sink).unwrap(), 7);
    assert_eq!(sink, b"\x09payload".to_vec());
    assert!(matches!(zip.linkset_bytes("missing.rdf"), Err(IcddError::NotConformant(_))));
}

#[test]
fn a_case_folded_twin_is_refused_and_leaves_the_entries_as_they_were() {
    let mut entries: Vec<(String, Vec<u8>)> = Vec::new();
    insert_unique(&mut entries, "b.ifc".into(), b"b", "payload document").unwrap();
    insert_unique(&mut entries, "a.ifc".into(), b"a", "payload document").unwrap();
    let before = entries.clone();
    match insert_unique(&mut entries, "A.IFC".into(), b"x", "payload document") {
        Err(IcddError::NotConformant(message)) => {
            assert_eq!(message, "duplicate case-folded payload document path: A.IFC")
        }
        other => panic!("expected a duplicate error, got {other:?}"),
    }
    assert_eq!(entries, before);
    assert_eq!(
        entries.iter().map(|e| e.0.as_str()).collect::<Vec<_>>(),
        vec!["a.ifc", "b.ifc"]
    );
}

#[test]
fn a_syntax_error_in_a_short_document_is_an_rdf_error() {
    let broken = r#"<rdf:RDF xmlns:rdf="http://www.w3.org/1999/02/22-rdf-syntax-ns#">
      <rdf:Description rdf:about="urn:a"><urn:p>1</urn:p></rdf:Description>
      <unclosed"#;
    assert!(matches!(RdfGraph::parse(broken.as_bytes()), Err(IcddError::Rdf(_))));
}

fn detail(result: Result<IcddContainer, IcddError>) -> String {
    match result {
        Err(IcddError::NotConformant(message)) => message,
        Err(other) => panic!("expected a conformance error, got {other:?}"),
        Ok(_) => panic!("expected a conformance error"),
    }
}

#[test]
fn opening_names_the_first_refusal() {
    assert_eq!(
        detail(IcddContainer::open_bytes(archive(&["Index.rdf", "a.ifc", "A.IFC"]))),
        "duplicate case-folded ZIP entry names: \"a.ifc\" and \"A.IFC\""
    );
    assert_eq!(
        detail(IcddContainer::open_bytes(archive(&["Index.rdf", "../escape.ifc", "b.ifc", "B.ifc"]))),
        "unsafe or noncanonical ZIP entry path: \"../escape.ifc\""
    );
    assert_eq!(
        detail(IcddContainer::open_bytes(archive(&["a.ifc"]))),
        "expected exactly one case-insensitive Index.rdf at the container root, found 0"
    );
    let declared = INDEX.replace(
        "</ct:ContainerDescription>",
        "<ct:containsDocument rdf:resource=\"#doc\"/></ct:ContainerDescription>\
         <ct:InternalDocument rdf:about=\"#doc\"><ct:filename>../x.ifc</ct:filename></ct:InternalDocument>",
    );
    let mut writer = ZipWriter::new(Cursor::new(Vec::new()));
    writer.start_file("Index.rdf", SimpleFileOptions::default()).unwrap();
    writer.write_all(declared.as_bytes()).unwrap();
    let bytes = writer.finish().unwrap().into_inner();
    assert_eq!(
        detail(IcddContainer::open_bytes(bytes)),
        "unsafe or noncanonical archive path: \"../x.ifc\""
    );
}

#[test]
fn each_transform_gets_its_verdict() {
    let identity =
        [1.0, 0.0, 0.0, 0.0, 0.0, 1.0, 0.0, 0.0, 0.0, 0.0, 1.0, 0.0, 0.0, 0.0, 0.0, 1.0].map(f64::to_bits);
    let mut infinite = identity;
    infinite[3] = f64::INFINITY.to_bits();
    let singular = [0.0f64; 16].map(f64::to_bits);
    assert_eq!(
        openbim_icdd::federation::check_transforms(&[identity, infinite, singular]),
        vec![
            None,
            Some("federation member transform must contain finite numbers".to_string()),
            Some("federation member transform must be an affine 4x4 matrix".to_string()),
        ]
    );
}

#[test]
fn a_linkset_that_does_not_parse_fails_the_open() {
    let write = |linkset: &str| {
        let mut writer = ZipWriter::new(Cursor::new(Vec::new()));
        writer.start_file("Index.rdf", SimpleFileOptions::default()).unwrap();
        writer.write_all(INDEX.as_bytes()).unwrap();
        writer.start_file("Payload triples/links.rdf", SimpleFileOptions::default()).unwrap();
        writer.write_all(linkset.as_bytes()).unwrap();
        writer.finish().unwrap().into_inner()
    };
    assert!(matches!(IcddContainer::open_bytes(write("<rdf:RDF")), Err(IcddError::Rdf(_))));
    let empty = r#"<rdf:RDF xmlns:rdf="http://www.w3.org/1999/02/22-rdf-syntax-ns#"></rdf:RDF>"#;
    let opened = IcddContainer::open_bytes(write(empty)).unwrap();
    assert_eq!(opened.linksets().len(), 1);
    assert!(opened.linksets()[0].links.is_empty());
}
