use openbim_icdd::{
    parse_poing_federation_icdd, write_poing_federation_icdd, FederationIcddPayload, IcddContainer,
    PoingFederationManifest, PoingFederationMember,
};

fn uuid(text: &str) -> u128 {
    uuid::Uuid::parse_str(text).unwrap().as_u128()
}

/// The transform text the federation graph stores for sixteen numbers.
fn transform_text(values: &[f64; 16]) -> String {
    values
        .iter()
        .map(f64::to_string)
        .collect::<Vec<_>>()
        .join(" ")
}

/// A check of transform texts: sixteen finite numbers.
fn transform_problem(text: &str) -> Option<String> {
    let values: Result<Vec<f64>, _> = text.split_whitespace().map(str::parse::<f64>).collect();
    match values {
        Err(_) => Some("Poing member transform contains a non-number".to_string()),
        Ok(values) if values.len() != 16 => {
            Some("Poing member transform must contain exactly 16 numbers".to_string())
        }
        Ok(values) if values.iter().any(|value| !value.is_finite()) => {
            Some("federation member transform must contain finite numbers".to_string())
        }
        Ok(_) => None,
    }
}

const TRANSFORM: [f64; 16] = [
    1.0, 0.0, 0.0, 100.0, 0.0, 1.0, 0.0, 200.0, 0.0, 0.0, 1.0, 0.0, 0.0, 0.0, 0.0, 1.0,
];

fn manifest() -> PoingFederationManifest {
    PoingFederationManifest {
        id: "campus".into(),
        uuid: uuid("019c97c5-a8f4-7000-8000-000000000001"),
        name: "Campus".into(),
        primary_member_id: "architecture".into(),
        coordinate_reference_system: Some("https://www.opengis.net/def/crs/EPSG/0/25832".into()),
        members: vec![PoingFederationMember {
            id: "architecture".into(),
            uuid: uuid("019c97c5-a8f4-7000-8000-000000000002"),
            name: "Architecture".into(),
            source: "architecture.ifc".into(),
            industry_domain: Some("architecture".into()),
            schema: Some("IFC4X3_ADD2".into()),
            content_hash: Some("sha256:abc".into()),
            coordinate_reference_system: None,
            transform: transform_text(&TRANSFORM),
        }],
    }
}

fn transform_bits(manifest: &PoingFederationManifest) -> Vec<[u64; 16]> {
    manifest
        .members
        .iter()
        .map(|member| {
            let values: Vec<f64> = member
                .transform
                .split_whitespace()
                .map(|value| value.parse::<f64>().unwrap())
                .collect();
            let values: [f64; 16] = values.try_into().unwrap();
            values.map(f64::to_bits)
        })
        .collect()
}

#[test]
fn federation_extension_round_trips_through_canonical_icdd() {
    let manifest = manifest();
    let payloads = [FederationIcddPayload::Internal {
        member_id: "architecture",
        filename: "architecture.ifc",
        bytes: b"ISO-10303-21;\nEND-ISO-10303-21;\n",
    }];
    let first = write_poing_federation_icdd(&manifest, &payloads, &transform_bits(&manifest)).unwrap();
    let second = write_poing_federation_icdd(&manifest, &payloads, &transform_bits(&manifest)).unwrap();
    assert_eq!(first, second);

    let mut container = IcddContainer::open_bytes(first.clone()).unwrap();
    assert_eq!(container.ifc_documents().len(), 1);
    let document = container.ifc_documents()[0].clone();
    assert_eq!(
        container.payload_bytes(&document).unwrap(),
        b"ISO-10303-21;\nEND-ISO-10303-21;\n"
    );

    let parsed = parse_poing_federation_icdd(&first, &transform_problem).unwrap();
    assert_eq!(parsed, manifest);
}

#[test]
fn federation_writer_rejects_incomplete_bindings() {
    let manifest = manifest();
    let error = write_poing_federation_icdd(&manifest, &[], &transform_bits(&manifest))
        .expect_err("missing binding must fail");
    assert!(error.message().contains("missing payload binding"));
}

#[test]
fn federation_writer_rejects_non_finite_transforms() {
    let mut manifest = manifest();
    let mut transform = TRANSFORM;
    transform[3] = f64::NAN;
    manifest.members[0].transform = transform_text(&transform);
    assert!(write_poing_federation_icdd(&manifest, &[], &transform_bits(&manifest)).is_err());
}
