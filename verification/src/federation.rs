//! Canonical Poing federation extension for ICDD.
//!
//! A federation manifest is written as an ISO 21597-1 container: `Index.rdf`
//! lists a federation metadata document and one document per member, the
//! metadata document carries the Poing federation graph, and a small ontology
//! resource declares the Poing classes.
//!
//! Member transforms are 4x4 matrices of floating-point numbers. This module
//! carries each transform as the text the federation graph stores (sixteen
//! numbers separated by single spaces); checking and formatting the numbers
//! is left to the caller, which hands the verdict in.

use vstd::prelude::*;
use vstd::string::*;

use uuid::Uuid;

use crate::error::{debug_quoted, debug_text, not_conformant, IcddError};
use oxrdf::{Literal, NamedNode, Triple};

use crate::rdf::{iri_parses, options_accepted, reserved_syntax_term, rdf_xml_document, triple_view, ObjectPartsView, SubjectPartsView, TriplePartsView, serialization_sequence, serialize_rdf_xml, RdfXmlOptions, RdfXmlOptionsView, MAX_RDF_TRIPLES};
use crate::container::spec_resolve;
use crate::container::PAYLOAD_DOCS_DIR;
use crate::rdfgraph::{
    first_literal, graph_of, graph_read, keys_of, lemma_graph_of, lemma_pairs_of_at, lemma_subjects_typed, lower_bound,
    objects_with, pairs_about, pairs_of, parses_within_limit, spec_objects, subjects_typed, typed_as, EntryView,
    GraphTriple, Obj, ObjView, PairView, RdfGraph,
};
use crate::container::{entry_readable, names_refusal, reads_back, reads_written, root_indexes, zip_reading, MAX_IN_MEMORY_PAYLOAD_BYTES};
use crate::read::{index_from_archive, open_outcome, opens_successfully, IcddContainer, IcddContainerView};
use crate::index::{spec_document, spec_index};
use crate::schema::{spec_internal_path, Document, DocumentKind, DocumentKindView, DocumentView, IndexView};
use crate::writer::{
    archive_fits, builder_ok, declared_entries_match, documents_parse, file_keys, finish_verdict, folded_clash, spec_archive_entries, spec_declared_entries_problem,
    spec_normalize_relative_path, with_payload,
    with_ontology_resource, zip_archive_bytes, ArchiveBuilderView, FileEntryView, IcddArchiveBuilder,
};
use crate::text::{chars_of, concat, decimal, decimal_string, lemma_seq_lt_irreflexive, owned, seq_lt, str_eq};
use crate::vocab::{CT, RDF_TYPE};
use crate::transform::{spec_transform_problem, validate_transform};

verus! {

/// Poing federation namespace.
pub const POING: &'static str = "https://poing.dev/ns/federation/icdd/1#";

/// The Poing ontology IRI: the namespace without its trailing `#`.
pub const POING_ONTOLOGY: &'static str = "https://poing.dev/ns/federation/icdd/1";

/// `rdfs:Class`.
pub const RDFS_CLASS: &'static str = "http://www.w3.org/2000/01/rdf-schema#Class";

/// `owl:Ontology`.
pub const OWL_ONTOLOGY: &'static str = "http://www.w3.org/2002/07/owl#Ontology";

/// Payload file name of the federation metadata document.
pub const FEDERATION_RDF: &'static str = "poing-federation.rdf";

/// Ontology resource file name of the Poing ontology.
pub const ONTOLOGY_RDF: &'static str = "poing-federation-ontology.rdf";

// ---------------------------------------------------------------------------
// Model
/// One member of a [`PoingFederationManifest`].
#[derive(Debug, Clone, PartialEq)]
pub struct PoingFederationMember {
    pub id: String,
    /// The member UUID as its 128-bit value.
    pub uuid: u128,
    pub name: String,
    pub source: String,
    pub industry_domain: Option<String>,
    pub schema: Option<String>,
    pub content_hash: Option<String>,
    pub coordinate_reference_system: Option<String>,
    /// The row-major 4x4 transform as stored in the federation graph: sixteen
    /// numbers separated by single spaces.
    pub transform: String,
}

/// Portable federation metadata stored by the Poing ICDD extension.
#[derive(Debug, Clone, PartialEq)]
pub struct PoingFederationManifest {
    pub id: String,
    /// The federation UUID as its 128-bit value.
    pub uuid: u128,
    pub name: String,
    pub primary_member_id: String,
    pub coordinate_reference_system: Option<String>,
    pub members: Vec<PoingFederationMember>,
}

/// The value of a [`PoingFederationMember`].
pub struct MemberView {
    pub id: Seq<char>,
    pub uuid: u128,
    pub name: Seq<char>,
    pub source: Seq<char>,
    pub industry_domain: Option<Seq<char>>,
    pub schema: Option<Seq<char>>,
    pub content_hash: Option<Seq<char>>,
    pub coordinate_reference_system: Option<Seq<char>>,
    pub transform: Seq<char>,
}

/// The value of a [`PoingFederationManifest`].
pub struct ManifestView {
    pub id: Seq<char>,
    pub uuid: u128,
    pub name: Seq<char>,
    pub primary_member_id: Seq<char>,
    pub coordinate_reference_system: Option<Seq<char>>,
    pub members: Seq<MemberView>,
}

impl DeepView for PoingFederationMember {
    type V = MemberView;

    open spec fn deep_view(&self) -> MemberView {
        MemberView {
            id: self.id@,
            uuid: self.uuid,
            name: self.name@,
            source: self.source@,
            industry_domain: self.industry_domain.deep_view(),
            schema: self.schema.deep_view(),
            content_hash: self.content_hash.deep_view(),
            coordinate_reference_system: self.coordinate_reference_system.deep_view(),
            transform: self.transform@,
        }
    }
}

impl DeepView for PoingFederationManifest {
    type V = ManifestView;

    open spec fn deep_view(&self) -> ManifestView {
        ManifestView {
            id: self.id@,
            uuid: self.uuid,
            name: self.name@,
            primary_member_id: self.primary_member_id@,
            coordinate_reference_system: self.coordinate_reference_system.deep_view(),
            members: self.members.deep_view(),
        }
    }
}

impl PoingFederationMember {
    /// A copy of the member.
    pub fn duplicate(&self) -> (r: PoingFederationMember)
        ensures
            r.deep_view() == self.deep_view(),
    {
        PoingFederationMember {
            id: self.id.clone(),
            uuid: self.uuid,
            name: self.name.clone(),
            source: self.source.clone(),
            industry_domain: copy_text(&self.industry_domain),
            schema: copy_text(&self.schema),
            content_hash: copy_text(&self.content_hash),
            coordinate_reference_system: copy_text(&self.coordinate_reference_system),
            transform: self.transform.clone(),
        }
    }
}

/// A copy of an optional text.
fn copy_text(s: &Option<String>) -> (r: Option<String>)
    ensures
        r.deep_view() == s.deep_view(),
{
    match s {
        Some(t) => Some(t.clone()),
        None => None,
    }
}

/// One source-model document bound to a federation member.
pub enum FederationIcddPayload<'a> {
    Internal { member_id: &'a str, filename: &'a str, bytes: &'a [u8] },
    External { member_id: &'a str, url: &'a str },
}

/// The value of a [`FederationIcddPayload`].
pub enum PayloadView {
    Internal { member_id: Seq<char>, filename: Seq<char>, bytes: Seq<u8> },
    External { member_id: Seq<char>, url: Seq<char> },
}

impl<'a> DeepView for FederationIcddPayload<'a> {
    type V = PayloadView;

    open spec fn deep_view(&self) -> PayloadView {
        match self {
            FederationIcddPayload::Internal { member_id, filename, bytes } => PayloadView::Internal {
                member_id: member_id@,
                filename: filename@,
                bytes: bytes@,
            },
            FederationIcddPayload::External { member_id, url } => PayloadView::External {
                member_id: member_id@,
                url: url@,
            },
        }
    }
}

/// The member a payload is bound to.
pub open spec fn payload_member(p: PayloadView) -> Seq<char> {
    match p {
        PayloadView::Internal { member_id, .. } => member_id,
        PayloadView::External { member_id, .. } => member_id,
    }
}

/// The source a payload stands for: the internal file name or the URL.
pub open spec fn payload_source(p: PayloadView) -> Seq<char> {
    match p {
        PayloadView::Internal { filename, .. } => filename,
        PayloadView::External { url, .. } => url,
    }
}

impl<'a> FederationIcddPayload<'a> {
    /// The member this payload is bound to.
    pub fn member_id(&self) -> (r: &str)
        ensures
            r@ == payload_member(self.deep_view()),
    {
        match self {
            FederationIcddPayload::Internal { member_id, .. } => member_id,
            FederationIcddPayload::External { member_id, .. } => member_id,
        }
    }

    /// The source this payload stands for: the internal file name or the URL.
    fn bound_source(&self) -> (r: &str)
        ensures
            r@ == payload_source(self.deep_view()),
    {
        match self {
            FederationIcddPayload::Internal { filename, .. } => filename,
            FederationIcddPayload::External { url, .. } => url,
        }
    }
}

// ---------------------------------------------------------------------------
// UUID text
/// The lowercase hexadecimal digit of `n` (below 16).
pub open spec fn hex_digit(n: nat) -> char {
    if n < 10 {
        (n + 48) as char
    } else {
        (n + 87) as char
    }
}

/// The lowest `count` hexadecimal digits of `v`, most significant first.
pub open spec fn hex_digits(v: nat, count: nat) -> Seq<char>
    decreases count,
{
    if count == 0 {
        Seq::empty()
    } else {
        hex_digits(v / 16, (count - 1) as nat).push(hex_digit(v % 16))
    }
}

/// The hyphenated lowercase text of a UUID (`8-4-4-4-12` hexadecimal digits),
/// as `Uuid`'s `Display` writes it.
pub open spec fn uuid_text(u: u128) -> Seq<char> {
    let h = hex_digits(u as nat, 32);
    h.subrange(0, 8) + seq!['-'] + h.subrange(8, 12) + seq!['-'] + h.subrange(12, 16) + seq!['-']
        + h.subrange(16, 20) + seq!['-'] + h.subrange(20, 32)
}

/// What `Uuid::parse_str` gives for `text`: the UUID's value, or `None` when
/// the text is in none of the formats it accepts.
pub uninterp spec fn uuid_parse(text: Seq<char>) -> Option<u128>;

/// The hyphenated text of a UUID (`Uuid::from_u128(u).to_string()`).
#[verifier::external_body]
fn uuid_string(u: u128) -> (r: String)
    ensures
        r@ == uuid_text(u),
{
    Uuid::from_u128(u).to_string()
}

/// The UUID written in `text` (`Uuid::parse_str`), which reads back the
/// hyphenated text of every UUID.
#[verifier::external_body]
fn uuid_from_text(text: &str) -> (r: Option<u128>)
    ensures
        r == uuid_parse(text@),
        forall|u: u128| text@ == uuid_text(u) ==> r == Some(u),
{
    match Uuid::parse_str(text) {
        Ok(u) => Some(u.as_u128()),
        Err(_) => None,
    }
}

// ---------------------------------------------------------------------------
// Blank text
/// Whether `c` has the Unicode `White_Space` property (`char::is_whitespace`).
pub open spec fn is_white_space(c: char) -> bool {
    let n = c as u32;
    ||| 9 <= n <= 13
    ||| n == 32
    ||| n == 0x85
    ||| n == 0xa0
    ||| n == 0x1680
    ||| 0x2000 <= n <= 0x200a
    ||| n == 0x2028
    ||| n == 0x2029
    ||| n == 0x202f
    ||| n == 0x205f
    ||| n == 0x3000
}

/// Whether `s` is empty once surrounding white space is trimmed.
pub open spec fn is_blank(s: Seq<char>) -> bool {
    forall|i: int| 0 <= i < s.len() ==> is_white_space(#[trigger] s[i])
}

fn white_space(c: char) -> (r: bool)
    ensures
        r == is_white_space(c),
{
    let n: u32 = c as u32;
    (9 <= n && n <= 13) || n == 32 || n == 0x85 || n == 0xa0 || n == 0x1680 || (0x2000 <= n && n
        <= 0x200a) || n == 0x2028 || n == 0x2029 || n == 0x202f || n == 0x205f || n == 0x3000
}

/// Whether `s` is empty once surrounding white space is trimmed
/// (`s.trim().is_empty()`).
pub fn blank(s: &str) -> (r: bool)
    ensures
        r == is_blank(s@),
{
    let cs = chars_of(s);
    let mut i: usize = 0;
    while i < cs.len()
        invariant
            i <= cs.len(),
            cs@ == s@,
            forall|j: int| 0 <= j < i ==> is_white_space(#[trigger] s@[j]),
        decreases cs.len() - i,
    {
        if !white_space(cs[i]) {
            return false;
        }
        i = i + 1;
    }
    true
}

// ---------------------------------------------------------------------------
// Manifest validation
/// Whether two members share an id or a UUID.
pub open spec fn clashes(a: MemberView, b: MemberView) -> bool {
    a.id == b.id || a.uuid == b.uuid
}

/// The first identity problem of member `k`, or `None`: blank identity fields,
/// then an id or UUID already used by an earlier member, then the transform
/// verdict handed in for it.
pub open spec fn member_problem(members: Seq<MemberView>, checks: Seq<Option<Seq<char>>>, k: int) -> Option<Seq<char>> {
    let m = members[k];
    if is_blank(m.id) || is_blank(m.name) || is_blank(m.source) {
        Some("federation member identity fields must not be empty"@)
    } else if exists|j: int| 0 <= j < k && clashes(#[trigger] members[j], m) {
        Some("federation member ids and UUIDs must be unique"@)
    } else {
        checks[k]
    }
}

/// The problem of the first member from `k` on that has one.
pub open spec fn first_member_problem(members: Seq<MemberView>, checks: Seq<Option<Seq<char>>>, k: nat) -> Option<Seq<char>>
    decreases members.len() - k,
{
    if k >= members.len() {
        None
    } else {
        match member_problem(members, checks, k as int) {
            Some(p) => Some(p),
            None => first_member_problem(members, checks, k + 1),
        }
    }
}

/// Why `manifest` is not a valid federation, or `None` when it is. `checks`
/// holds, for each member, why its transform is not an invertible affine
/// matrix of finite numbers, if it is not.
pub open spec fn manifest_problem(manifest: ManifestView, checks: Seq<Option<Seq<char>>>) -> Option<Seq<char>> {
    if is_blank(manifest.id) || is_blank(manifest.name) {
        Some("federation id and name must not be empty"@)
    } else if manifest.members.len() == 0 {
        Some("federation must contain at least one member"@)
    } else {
        match first_member_problem(manifest.members, checks, 0) {
            Some(p) => Some(p),
            None => if exists|j: int|
                0 <= j < manifest.members.len() && #[trigger] manifest.members[j].id
                    == manifest.primary_member_id {
                None
            } else {
                Some("primary federation member does not exist"@)
            },
        }
    }
}

/// Why each transform, given as the IEEE-754 bit patterns of its sixteen
/// entries, is not acceptable ([`spec_transform_problem`]), if it is not.
pub open spec fn transform_problems(bits: Seq<[u64; 16]>) -> Seq<Option<Seq<char>>> {
    bits.map_values(|b: [u64; 16]| spec_transform_problem(b@))
}

/// The verdict on each transform ([`validate_transform`]), in order.
pub fn check_transforms(bits: &[[u64; 16]]) -> (r: Vec<Option<String>>)
    ensures
        r.deep_view() == transform_problems(bits@),
        r@.len() == bits@.len(),
{
    let mut r: Vec<Option<String>> = Vec::new();
    let mut i: usize = 0;
    while i < bits.len()
        invariant
            i <= bits.len(),
            r.deep_view() == transform_problems(bits@).take(i as int),
            r@.len() == i,
        decreases bits.len() - i,
    {
        let verdict = match validate_transform(&bits[i]) {
            Ok(()) => None,
            Err(IcddError::NotConformant(problem)) => Some(problem),
            Err(other) => Some(other.message()),
        };
        assert(verdict.deep_view() == spec_transform_problem(bits@[i as int]@));
        assert(transform_problems(bits@)[i as int] == spec_transform_problem(bits@[i as int]@));
        let ghost before = r.deep_view();
        r.push(verdict);
        assert(r.deep_view() =~= before.push(verdict.deep_view()));
        assert(transform_problems(bits@).take(i + 1) =~= transform_problems(bits@).take(i as int).push(
            transform_problems(bits@)[i as int],
        ));
        i = i + 1;
    }
    assert(transform_problems(bits@).take(i as int) =~= transform_problems(bits@));
    r
}

/// Check a manifest: non-blank identity, at least one member, unique member
/// ids and UUIDs, acceptable transforms (the verdicts in `transform_checks`,
/// one per member) and an existing primary member.
pub fn validate_manifest(manifest: &PoingFederationManifest, transform_checks: &[Option<String>]) -> (r: Result<(), IcddError>)
    requires
        transform_checks@.len() == manifest.members@.len(),
    ensures
        match manifest_problem(manifest.deep_view(), transform_checks.deep_view()) {
            Some(p) => r matches Err(e) && e.is_not_conformant(p),
            None => r is Ok,
        },
{
    let ghost mv = manifest.deep_view();
    let ghost checks = transform_checks.deep_view();
    if blank(manifest.id.as_str()) || blank(manifest.name.as_str()) {
        return Err(not_conformant(owned("federation id and name must not be empty")));
    }
    if manifest.members.len() == 0 {
        return Err(not_conformant(owned("federation must contain at least one member")));
    }
    let members = &manifest.members;
    let mut k: usize = 0;
    while k < members.len()
        invariant
            k <= members.len(),
            mv == manifest.deep_view(),
            checks == transform_checks.deep_view(),
            members@.len() == transform_checks@.len(),
            members.deep_view() == mv.members,
            !is_blank(mv.id) && !is_blank(mv.name) && mv.members.len() > 0,
            first_member_problem(mv.members, checks, 0) == first_member_problem(mv.members, checks, k as nat),
        decreases members.len() - k,
    {
        let m = &members[k];
        assert(m.deep_view() == mv.members[k as int]);
        if blank(m.id.as_str()) || blank(m.name.as_str()) || blank(m.source.as_str()) {
            assert(member_problem(mv.members, checks, k as int) == Some("federation member identity fields must not be empty"@));
            return Err(not_conformant(owned("federation member identity fields must not be empty")));
        }
        let mut j: usize = 0;
        while j < k
            invariant
                j <= k,
                k < members.len(),
                members.deep_view() == mv.members,
                m.deep_view() == mv.members[k as int],
                mv == manifest.deep_view(),
                checks == transform_checks.deep_view(),
                !is_blank(mv.id) && !is_blank(mv.name) && mv.members.len() > 0,
                !(is_blank(m.id@) || is_blank(m.name@) || is_blank(m.source@)),
                first_member_problem(mv.members, checks, 0) == first_member_problem(mv.members, checks, k as nat),
                forall|i: int| 0 <= i < j ==> !clashes(#[trigger] mv.members[i], mv.members[k as int]),
            decreases k - j,
        {
            let other = &members[j];
            assert(other.deep_view() == mv.members[j as int]);
            if str_eq(other.id.as_str(), m.id.as_str()) || other.uuid == m.uuid {
                assert(clashes(mv.members[j as int], mv.members[k as int]));
                assert(member_problem(mv.members, checks, k as int) == Some("federation member ids and UUIDs must be unique"@));
                return Err(not_conformant(owned("federation member ids and UUIDs must be unique")));
            }
            assert(!clashes(mv.members[j as int], mv.members[k as int]));
            j = j + 1;
        }
        assert(checks[k as int] == transform_checks@[k as int].deep_view());
        match &transform_checks[k] {
            Some(problem) => {
                assert(member_problem(mv.members, checks, k as int) == Some(problem@));
                return Err(not_conformant(problem.clone()));
            },
            None => {},
        }
        k = k + 1;
    }
    let mut j: usize = 0;
    while j < members.len()
        invariant
            j <= members.len(),
            members.deep_view() == mv.members,
            mv == manifest.deep_view(),
            checks == transform_checks.deep_view(),
            !is_blank(mv.id) && !is_blank(mv.name) && mv.members.len() > 0,
            first_member_problem(mv.members, checks, 0) is None,
            forall|i: int| 0 <= i < j ==> #[trigger] mv.members[i].id != mv.primary_member_id,
        decreases members.len() - j,
    {
        assert(members[j as int].deep_view() == mv.members[j as int]);
        if str_eq(members[j].id.as_str(), manifest.primary_member_id.as_str()) {
            assert(mv.members[j as int].id == mv.primary_member_id);
            return Ok(());
        }
        j = j + 1;
    }
    Err(not_conformant(owned("primary federation member does not exist")))
}

// ---------------------------------------------------------------------------
// Payload bindings
/// The member of the first payload from `k` on that is bound to a member an
/// earlier payload is already bound to.
pub open spec fn duplicate_binding(ps: Seq<PayloadView>, k: nat) -> Option<Seq<char>>
    decreases ps.len() - k,
{
    if k >= ps.len() {
        None
    } else if exists|j: int| 0 <= j < k && payload_member(#[trigger] ps[j]) == payload_member(ps[k as int]) {
        Some(payload_member(ps[k as int]))
    } else {
        duplicate_binding(ps, k + 1)
    }
}

/// The position of the first payload from `k` on bound to `id`.
pub open spec fn binding_of(ps: Seq<PayloadView>, id: Seq<char>, k: nat) -> Option<int>
    decreases ps.len() - k,
{
    if k >= ps.len() {
        None
    } else if payload_member(ps[k as int]) == id {
        Some(k as int)
    } else {
        binding_of(ps, id, k + 1)
    }
}

/// The detail of a member whose source differs from its bound payload's.
pub open spec fn source_mismatch_detail(id: Seq<char>, source: Seq<char>, bound: Seq<char>) -> Seq<char> {
    "federation member "@ + id + " source "@ + debug_text(source) + " does not match bound source "@
        + debug_text(bound)
}

/// The binding problem of the first member from `k` on that has one: no
/// payload bound to it, or a bound payload standing for another source.
pub open spec fn member_binding_problem(members: Seq<MemberView>, ps: Seq<PayloadView>, k: nat) -> Option<Seq<char>>
    decreases members.len() - k,
{
    if k >= members.len() {
        None
    } else {
        let m = members[k as int];
        match binding_of(ps, m.id, 0) {
            None => Some("missing payload binding for "@ + m.id),
            Some(j) => if m.source != payload_source(ps[j]) {
                Some(source_mismatch_detail(m.id, m.source, payload_source(ps[j])))
            } else {
                member_binding_problem(members, ps, k + 1)
            },
        }
    }
}

/// Why `ps` does not bind each member of `members` to exactly one payload of
/// the member's source, or `None` when it does.
pub open spec fn bindings_problem(members: Seq<MemberView>, ps: Seq<PayloadView>) -> Option<Seq<char>> {
    match duplicate_binding(ps, 0) {
        Some(id) => Some("duplicate payload binding for "@ + id),
        None => match member_binding_problem(members, ps, 0) {
            Some(p) => Some(p),
            None => if ps.len() != members.len() {
                Some("payload binding references an unknown federation member"@)
            } else {
                None
            },
        },
    }
}

/// The position of the first payload bound to `id`.
fn find_binding(payloads: &[FederationIcddPayload], id: &str) -> (r: Option<usize>)
    ensures
        r is None <==> binding_of(payloads.deep_view(), id@, 0) is None,
        r matches Some(j) ==> j < payloads.len() && binding_of(payloads.deep_view(), id@, 0) == Some(j as int),
{
    let ghost ps = payloads.deep_view();
    let mut i: usize = 0;
    while i < payloads.len()
        invariant
            i <= payloads.len(),
            ps == payloads.deep_view(),
            binding_of(ps, id@, 0) == binding_of(ps, id@, i as nat),
        decreases payloads.len() - i,
    {
        assert(payloads[i as int].deep_view() == ps[i as int]);
        if str_eq(payloads[i].member_id(), id) {
            return Some(i);
        }
        i = i + 1;
    }
    None
}

/// Check that every member is bound to exactly one payload standing for the
/// member's source, and every payload to a member. The result gives, for
/// each member in order, the position of its payload.
pub fn validate_bindings(manifest: &PoingFederationManifest, payloads: &[FederationIcddPayload]) -> (r: Result<Vec<usize>, IcddError>)
    ensures
        match bindings_problem(manifest.members.deep_view(), payloads.deep_view()) {
            Some(p) => r matches Err(e) && e.is_not_conformant(p),
            None => r matches Ok(b) && b.len() == manifest.members.len() && forall|k: int|
                0 <= k < b.len() ==> binding_of(payloads.deep_view(), manifest.members.deep_view()[k].id, 0)
                    == Some(#[trigger] b[k] as int) && b[k] < payloads.len(),
        },
{
    let ghost ps = payloads.deep_view();
    let ghost ms = manifest.members.deep_view();
    let mut k: usize = 0;
    while k < payloads.len()
        invariant
            k <= payloads.len(),
            ps == payloads.deep_view(),
            duplicate_binding(ps, 0) == duplicate_binding(ps, k as nat),
        decreases payloads.len() - k,
    {
        assert(payloads[k as int].deep_view() == ps[k as int]);
        let id = payloads[k].member_id();
        let mut j: usize = 0;
        while j < k
            invariant
                j <= k,
                k < payloads.len(),
                ps == payloads.deep_view(),
                id@ == payload_member(ps[k as int]),
                duplicate_binding(ps, 0) == duplicate_binding(ps, k as nat),
                forall|i: int| 0 <= i < j ==> payload_member(#[trigger] ps[i]) != id@,
            decreases k - j,
        {
            assert(payloads[j as int].deep_view() == ps[j as int]);
            if str_eq(payloads[j].member_id(), id) {
                assert(payload_member(ps[j as int]) == payload_member(ps[k as int]));
                let head = concat("duplicate payload binding for ", id);
                return Err(not_conformant(head));
            }
            j = j + 1;
        }
        k = k + 1;
    }
    let members = &manifest.members;
    let mut result: Vec<usize> = Vec::new();
    let mut k: usize = 0;
    while k < members.len()
        invariant
            k <= members.len(),
            ps == payloads.deep_view(),
            ms == members.deep_view(),
            ms == manifest.members.deep_view(),
            duplicate_binding(ps, 0) is None,
            member_binding_problem(ms, ps, 0) == member_binding_problem(ms, ps, k as nat),
            result.len() == k,
            forall|i: int| 0 <= i < k ==> binding_of(ps, ms[i].id, 0) == Some(#[trigger] result@[i] as int)
                && result@[i] < payloads.len(),
        decreases members.len() - k,
    {
        let m = &members[k];
        assert(m.deep_view() == ms[k as int]);
        match find_binding(payloads, m.id.as_str()) {
            None => {
                assert(member_binding_problem(ms, ps, k as nat) == Some("missing payload binding for "@ + m.id@));
                let detail = concat("missing payload binding for ", m.id.as_str());
                return Err(not_conformant(detail));
            },
            Some(j) => {
                assert(payloads[j as int].deep_view() == ps[j as int]);
                let bound = payloads[j].bound_source();
                if !str_eq(m.source.as_str(), bound) {
                    let a = concat("federation member ", m.id.as_str());
                    let b = concat(a.as_str(), " source ");
                    let c = concat(b.as_str(), debug_quoted(m.source.as_str()).as_str());
                    let d = concat(c.as_str(), " does not match bound source ");
                    let e = concat(d.as_str(), debug_quoted(bound).as_str());
                    return Err(not_conformant(e));
                }
                result.push(j);
            },
        }
        k = k + 1;
    }
    if payloads.len() != members.len() {
        return Err(not_conformant(owned("payload binding references an unknown federation member")));
    }
    Ok(result)
}

// ---------------------------------------------------------------------------
// Graphs
/// One statement: subject, then predicate and object.
pub type Statement = (Seq<char>, PairView);

/// The statement `s p o` with a resource object.
pub open spec fn res_stmt(s: Seq<char>, p: Seq<char>, o: Seq<char>) -> Statement {
    (s, (p, ObjView::Resource(o)))
}

/// The statement `s p "v"` with a plain literal object.
pub open spec fn lit_stmt(s: Seq<char>, p: Seq<char>, v: Seq<char>) -> Statement {
    (s, (p, ObjView::Literal(v)))
}

/// A term of the Container ontology.
pub open spec fn ct_term(local: Seq<char>) -> Seq<char> {
    CT@ + local
}

/// A term of the Poing namespace.
pub open spec fn poing_term(local: Seq<char>) -> Seq<char> {
    POING@ + local
}

/// The base IRI of the index of the federation with UUID `u`.
pub open spec fn icdd_base(u: u128) -> Seq<char> {
    "https://poing.dev/icdd/"@ + uuid_text(u) + "/"@
}

/// The container description node of the federation with UUID `u`.
pub open spec fn container_node(u: u128) -> Seq<char> {
    icdd_base(u) + "container-"@ + uuid_text(u)
}

/// The index node of the federation metadata document.
pub open spec fn metadata_node(u: u128) -> Seq<char> {
    icdd_base(u) + "federation-metadata"@
}

/// The index node of a member document.
pub open spec fn index_member_node(u: u128, member: u128) -> Seq<char> {
    icdd_base(u) + "member-"@ + uuid_text(member)
}

/// The index statements about the container and the federation metadata
/// document.
pub open spec fn index_header(m: ManifestView) -> Seq<Statement> {
    let c = container_node(m.uuid);
    let d = metadata_node(m.uuid);
    seq![
        res_stmt(c, RDF_TYPE@, ct_term("ContainerDescription"@)),
        lit_stmt(c, ct_term("conformanceIndicator"@), "ICDD-Part1-Container"@),
        lit_stmt(c, ct_term("description"@), m.name),
        res_stmt(c, ct_term("containsDocument"@), d),
        res_stmt(d, RDF_TYPE@, ct_term("InternalDocument"@)),
        lit_stmt(d, ct_term("name"@), "Poing federation manifest"@),
        lit_stmt(d, ct_term("filename"@), FEDERATION_RDF@),
        lit_stmt(d, ct_term("filetype"@), "rdf"@),
        lit_stmt(d, ct_term("format"@), "application/rdf+xml"@),
    ]
}

/// The index statements about one member document bound to payload `p`.
pub open spec fn index_member_block(m: ManifestView, member: MemberView, p: PayloadView) -> Seq<Statement> {
    let c = container_node(m.uuid);
    let n = index_member_node(m.uuid, member.uuid);
    seq![res_stmt(c, ct_term("containsDocument"@), n)] + match p {
        PayloadView::Internal { filename, .. } => seq![
            res_stmt(n, RDF_TYPE@, ct_term("InternalDocument"@)),
            lit_stmt(n, ct_term("filename"@), filename),
        ],
        PayloadView::External { url, .. } => seq![
            res_stmt(n, RDF_TYPE@, ct_term("ExternalDocument"@)),
            lit_stmt(n, ct_term("url"@), url),
        ],
    } + seq![lit_stmt(n, ct_term("name"@), member.name)]
}

/// The index statements about the first `k` members.
pub open spec fn index_members(m: ManifestView, ps: Seq<PayloadView>, binding: Seq<usize>, k: nat) -> Seq<Statement>
    decreases k,
{
    if k == 0 {
        Seq::empty()
    } else {
        index_members(m, ps, binding, (k - 1) as nat) + index_member_block(
            m,
            m.members[k - 1],
            ps[binding[k - 1] as int],
        )
    }
}

/// The statements of the federation's `Index.rdf`, members bound to payloads
/// by `binding`.
pub open spec fn index_statements(m: ManifestView, ps: Seq<PayloadView>, binding: Seq<usize>) -> Seq<Statement> {
    index_header(m) + index_members(m, ps, binding, m.members.len())
}

/// The base IRI of the federation graph.
pub open spec fn federation_base(u: u128) -> Seq<char> {
    icdd_base(u) + "federation/"@
}

/// The federation node of the federation graph.
pub open spec fn federation_root(u: u128) -> Seq<char> {
    federation_base(u) + "federation-"@ + uuid_text(u)
}

/// The federation-graph node of a member.
pub open spec fn federation_member_node(u: u128, member: u128) -> Seq<char> {
    federation_base(u) + "member-"@ + uuid_text(member)
}

/// The statement `s poing:local "v"` if there is a value `v`.
pub open spec fn optional_literal(s: Seq<char>, local: Seq<char>, v: Option<Seq<char>>) -> Seq<Statement> {
    match v {
        Some(x) => seq![lit_stmt(s, poing_term(local), x)],
        None => Seq::empty(),
    }
}

/// The federation-graph statements about the federation itself.
pub open spec fn federation_header(m: ManifestView) -> Seq<Statement> {
    let r = federation_root(m.uuid);
    seq![
        res_stmt(r, RDF_TYPE@, poing_term("Federation"@)),
        lit_stmt(r, poing_term("id"@), m.id),
        lit_stmt(r, poing_term("uuid"@), uuid_text(m.uuid)),
        lit_stmt(r, poing_term("name"@), m.name),
        lit_stmt(r, poing_term("primaryMemberId"@), m.primary_member_id),
    ] + optional_literal(r, "crs"@, m.coordinate_reference_system)
}

/// The federation-graph statements about a member at position `k` of the
/// federation with UUID `u`.
pub open spec fn member_statements(u: u128, k: int, member: MemberView) -> Seq<Statement> {
    let n = federation_member_node(u, member.uuid);
    seq![
        res_stmt(n, RDF_TYPE@, poing_term("Member"@)),
        lit_stmt(n, poing_term("order"@), decimal(k as nat)),
        lit_stmt(n, poing_term("id"@), member.id),
        lit_stmt(n, poing_term("uuid"@), uuid_text(member.uuid)),
        lit_stmt(n, poing_term("name"@), member.name),
        lit_stmt(n, poing_term("source"@), member.source),
        lit_stmt(n, poing_term("transform"@), member.transform),
    ] + optional_literal(n, "industryDomain"@, member.industry_domain) + optional_literal(
        n,
        "schema"@,
        member.schema,
    ) + optional_literal(n, "contentHash"@, member.content_hash) + optional_literal(
        n,
        "crs"@,
        member.coordinate_reference_system,
    )
}

/// The federation-graph statements about member `k`.
pub open spec fn federation_member_block(m: ManifestView, k: int) -> Seq<Statement> {
    member_statements(m.uuid, k, m.members[k])
}

/// The federation-graph statements about the first `k` members.
pub open spec fn federation_members(m: ManifestView, k: nat) -> Seq<Statement>
    decreases k,
{
    if k == 0 {
        Seq::empty()
    } else {
        federation_members(m, (k - 1) as nat) + federation_member_block(m, k - 1)
    }
}

/// The statements of the federation graph.
pub open spec fn federation_statements(m: ManifestView) -> Seq<Statement> {
    federation_header(m) + federation_members(m, m.members.len())
}

/// The statements of the Poing ontology resource.
pub open spec fn ontology_statements() -> Seq<Statement> {
    seq![
        res_stmt(POING_ONTOLOGY@, RDF_TYPE@, OWL_ONTOLOGY@),
        res_stmt(poing_term("Federation"@), RDF_TYPE@, RDFS_CLASS@),
        res_stmt(poing_term("Member"@), RDF_TYPE@, RDFS_CLASS@),
    ]
}

fn res_triple(s: &str, p: &str, o: &str) -> (t: GraphTriple)
    ensures
        t.deep_view() == res_stmt(s@, p@, o@),
{
    GraphTriple { subject: owned(s), predicate: owned(p), object: Obj::Resource(owned(o)) }
}

fn lit_triple(s: &str, p: &str, v: &str) -> (t: GraphTriple)
    ensures
        t.deep_view() == lit_stmt(s@, p@, v@),
{
    GraphTriple { subject: owned(s), predicate: owned(p), object: Obj::Literal(owned(v)) }
}

fn push_statement(v: &mut Vec<GraphTriple>, t: GraphTriple)
    ensures
        final(v).deep_view() == old(v).deep_view().push(t.deep_view()),
{
    let ghost before = v.deep_view();
    let ghost tv = t.deep_view();
    v.push(t);
    assert(v.deep_view() =~= before.push(tv));
}

fn ct_iri(local: &str) -> (r: String)
    ensures
        r@ == ct_term(local@),
{
    concat(CT, local)
}

fn poing_iri(local: &str) -> (r: String)
    ensures
        r@ == poing_term(local@),
{
    concat(POING, local)
}

/// Append `s poing:local "v"` if there is a value `v`.
fn push_optional(v: &mut Vec<GraphTriple>, s: &str, local: &str, value: &Option<String>)
    ensures
        final(v).deep_view() == old(v).deep_view() + optional_literal(s@, local@, value.deep_view()),
{
    match value {
        Some(x) => {
            let p = poing_iri(local);
            push_statement(v, lit_triple(s, p.as_str(), x.as_str()));
            assert(old(v).deep_view().push(lit_stmt(s@, poing_term(local@), x@)) =~= old(v).deep_view()
                + optional_literal(s@, local@, value.deep_view()));
        },
        None => {
            assert(old(v).deep_view() =~= old(v).deep_view() + optional_literal(s@, local@, value.deep_view()));
        },
    }
}

/// The base IRI of the index of the federation with UUID `u`.
fn icdd_base_iri(u: u128) -> (r: String)
    ensures
        r@ == icdd_base(u),
{
    let head = concat("https://poing.dev/icdd/", uuid_string(u).as_str());
    concat(head.as_str(), "/")
}

/// The statements of the federation's `Index.rdf`: the container, the
/// metadata document and one document per member, described by the payload
/// `binding` gives it.
fn index_graph(manifest: &PoingFederationManifest, payloads: &[FederationIcddPayload], binding: &Vec<usize>) -> (r: Vec<GraphTriple>)
    requires
        binding@.len() == manifest.members@.len(),
        forall|k: int| 0 <= k < binding@.len() ==> #[trigger] binding@[k] < payloads@.len(),
    ensures
        r.deep_view() == index_statements(manifest.deep_view(), payloads.deep_view(), binding@),
{
    let ghost mv = manifest.deep_view();
    let ghost ps = payloads.deep_view();
    let base = icdd_base_iri(manifest.uuid);
    let uuid = uuid_string(manifest.uuid);
    let c0 = concat(base.as_str(), "container-");
    let container = concat(c0.as_str(), uuid.as_str());
    let metadata = concat(base.as_str(), "federation-metadata");
    let contains = ct_iri("containsDocument");
    let internal = ct_iri("InternalDocument");
    let filename_p = ct_iri("filename");
    let name_p = ct_iri("name");
    let mut v: Vec<GraphTriple> = Vec::new();
    push_statement(&mut v, res_triple(container.as_str(), RDF_TYPE, ct_iri("ContainerDescription").as_str()));
    push_statement(&mut v, lit_triple(container.as_str(), ct_iri("conformanceIndicator").as_str(), "ICDD-Part1-Container"));
    push_statement(&mut v, lit_triple(container.as_str(), ct_iri("description").as_str(), manifest.name.as_str()));
    push_statement(&mut v, res_triple(container.as_str(), contains.as_str(), metadata.as_str()));
    push_statement(&mut v, res_triple(metadata.as_str(), RDF_TYPE, internal.as_str()));
    push_statement(&mut v, lit_triple(metadata.as_str(), name_p.as_str(), "Poing federation manifest"));
    push_statement(&mut v, lit_triple(metadata.as_str(), filename_p.as_str(), FEDERATION_RDF));
    push_statement(&mut v, lit_triple(metadata.as_str(), ct_iri("filetype").as_str(), "rdf"));
    push_statement(&mut v, lit_triple(metadata.as_str(), ct_iri("format").as_str(), "application/rdf+xml"));
    assert(v.deep_view() =~= index_header(mv));
    let members = &manifest.members;
    let mut k: usize = 0;
    while k < members.len()
        invariant
            k <= members.len(),
            mv == manifest.deep_view(),
            ps == payloads.deep_view(),
            members.deep_view() == mv.members,
            binding@.len() == members@.len(),
            forall|i: int| 0 <= i < binding@.len() ==> #[trigger] binding@[i] < payloads@.len(),
            base@ == icdd_base(mv.uuid),
            container@ == container_node(mv.uuid),
            contains@ == ct_term("containsDocument"@),
            internal@ == ct_term("InternalDocument"@),
            filename_p@ == ct_term("filename"@),
            name_p@ == ct_term("name"@),
            v.deep_view() == index_header(mv) + index_members(mv, ps, binding@, k as nat),
        decreases members.len() - k,
    {
        let member = &members[k];
        assert(member.deep_view() == mv.members[k as int]);
        let n0 = concat(base.as_str(), "member-");
        let node = concat(n0.as_str(), uuid_string(member.uuid).as_str());
        let ghost before = v.deep_view();
        push_statement(&mut v, res_triple(container.as_str(), contains.as_str(), node.as_str()));
        let payload = &payloads[binding[k]];
        assert(payload.deep_view() == ps[binding@[k as int] as int]);
        match payload {
            FederationIcddPayload::Internal { filename, .. } => {
                push_statement(&mut v, res_triple(node.as_str(), RDF_TYPE, internal.as_str()));
                push_statement(&mut v, lit_triple(node.as_str(), filename_p.as_str(), filename));
            },
            FederationIcddPayload::External { url, .. } => {
                push_statement(&mut v, res_triple(node.as_str(), RDF_TYPE, ct_iri("ExternalDocument").as_str()));
                push_statement(&mut v, lit_triple(node.as_str(), ct_iri("url").as_str(), url));
            },
        }
        push_statement(&mut v, lit_triple(node.as_str(), name_p.as_str(), member.name.as_str()));
        assert(v.deep_view() =~= before + index_member_block(mv, mv.members[k as int], ps[binding@[k as int] as int]));
        k = k + 1;
    }
    v
}

/// Append the federation-graph statements about member `member` at
/// position `k`.
#[verifier::rlimit(40)]
fn push_member_statements(v: &mut Vec<GraphTriple>, base: &str, u: u128, k: usize, member: &PoingFederationMember)
    requires
        base@ == federation_base(u),
    ensures
        final(v).deep_view() == old(v).deep_view() + member_statements(u, k as int, member.deep_view()),
{
    let ghost before = v.deep_view();
    let ghost mv = member.deep_view();
    let n0 = concat(base, "member-");
    let node = concat(n0.as_str(), uuid_string(member.uuid).as_str());
    let ns = node.as_str();
    let ghost n = federation_member_node(u, member.uuid);
    push_statement(v, res_triple(ns, RDF_TYPE, poing_iri("Member").as_str()));
    push_statement(v, lit_triple(ns, poing_iri("order").as_str(), decimal_string(k as u64).as_str()));
    push_statement(v, lit_triple(ns, poing_iri("id").as_str(), member.id.as_str()));
    push_statement(v, lit_triple(ns, poing_iri("uuid").as_str(), uuid_string(member.uuid).as_str()));
    push_statement(v, lit_triple(ns, poing_iri("name").as_str(), member.name.as_str()));
    push_statement(v, lit_triple(ns, poing_iri("source").as_str(), member.source.as_str()));
    push_statement(v, lit_triple(ns, poing_iri("transform").as_str(), member.transform.as_str()));
    let ghost fixed = seq![
        res_stmt(n, RDF_TYPE@, poing_term("Member"@)),
        lit_stmt(n, poing_term("order"@), decimal(k as nat)),
        lit_stmt(n, poing_term("id"@), mv.id),
        lit_stmt(n, poing_term("uuid"@), uuid_text(mv.uuid)),
        lit_stmt(n, poing_term("name"@), mv.name),
        lit_stmt(n, poing_term("source"@), mv.source),
        lit_stmt(n, poing_term("transform"@), mv.transform),
    ];
    assert(v.deep_view() =~= before + fixed);
    push_optional(v, ns, "industryDomain", &member.industry_domain);
    push_optional(v, ns, "schema", &member.schema);
    push_optional(v, ns, "contentHash", &member.content_hash);
    push_optional(v, ns, "crs", &member.coordinate_reference_system);
    assert(v.deep_view() =~= before + member_statements(u, k as int, mv));
}

/// The statements of the federation graph: the federation, then each member
/// with its position in the manifest.
fn federation_graph(manifest: &PoingFederationManifest) -> (r: Vec<GraphTriple>)
    ensures
        r.deep_view() == federation_statements(manifest.deep_view()),
{
    let ghost mv = manifest.deep_view();
    let base = concat(icdd_base_iri(manifest.uuid).as_str(), "federation/");
    let uuid = uuid_string(manifest.uuid);
    let r0 = concat(base.as_str(), "federation-");
    let root = concat(r0.as_str(), uuid.as_str());
    let mut v: Vec<GraphTriple> = Vec::new();
    push_statement(&mut v, res_triple(root.as_str(), RDF_TYPE, poing_iri("Federation").as_str()));
    push_statement(&mut v, lit_triple(root.as_str(), poing_iri("id").as_str(), manifest.id.as_str()));
    push_statement(&mut v, lit_triple(root.as_str(), poing_iri("uuid").as_str(), uuid.as_str()));
    push_statement(&mut v, lit_triple(root.as_str(), poing_iri("name").as_str(), manifest.name.as_str()));
    push_statement(&mut v, lit_triple(root.as_str(), poing_iri("primaryMemberId").as_str(), manifest.primary_member_id.as_str()));
    let ghost head = v.deep_view();
    push_optional(&mut v, root.as_str(), "crs", &manifest.coordinate_reference_system);
    assert(v.deep_view() =~= federation_header(mv));
    let members = &manifest.members;
    let mut k: usize = 0;
    while k < members.len()
        invariant
            k <= members.len(),
            mv == manifest.deep_view(),
            members.deep_view() == mv.members,
            base@ == federation_base(mv.uuid),
            v.deep_view() == federation_header(mv) + federation_members(mv, k as nat),
        decreases members.len() - k,
    {
        let member = &members[k];
        assert(member.deep_view() == mv.members[k as int]);
        let ghost before = v.deep_view();
        push_member_statements(&mut v, base.as_str(), manifest.uuid, k, member);
        assert(federation_members(mv, (k + 1) as nat) == federation_members(mv, k as nat)
            + federation_member_block(mv, k as int));
        assert(v.deep_view() =~= federation_header(mv) + federation_members(mv, (k + 1) as nat));
        k = k + 1;
    }
    v
}

/// The statements of the Poing ontology resource.
fn ontology_graph() -> (r: Vec<GraphTriple>)
    ensures
        r.deep_view() == ontology_statements(),
{
    let mut v: Vec<GraphTriple> = Vec::new();
    push_statement(&mut v, res_triple(POING_ONTOLOGY, RDF_TYPE, OWL_ONTOLOGY));
    push_statement(&mut v, res_triple(poing_iri("Federation").as_str(), RDF_TYPE, RDFS_CLASS));
    push_statement(&mut v, res_triple(poing_iri("Member").as_str(), RDF_TYPE, RDFS_CLASS));
    assert(v.deep_view() =~= ontology_statements());
    v
}

// ---------------------------------------------------------------------------
// Writing
/// Whether every IRI of a statement parses: the subject, the predicate and a
/// resource object.
pub open spec fn statement_iris_parse(st: Statement) -> bool {
    &&& iri_parses(st.0)
    &&& iri_parses(st.1.0)
    &&& st.1.1 matches ObjView::Resource(o) ==> iri_parses(o)
}

/// The object of an RDF triple being built.
pub enum RdfObject {
    Node(NamedNode),
    Literal(Literal),
}

/// The named node `NamedNode::new` makes of an IRI that parses.
pub uninterp spec fn named_node_of(iri: Seq<char>) -> NamedNode;

/// The plain literal `Literal::new_simple_literal` makes of a value.
pub uninterp spec fn simple_literal_of(value: Seq<char>) -> Literal;

/// The triple `Triple::new` makes of a subject, a predicate and an object.
pub uninterp spec fn triple_of(subject: NamedNode, predicate: NamedNode, object: RdfObject) -> Triple;

/// The IRI a named node holds (`NamedNode::as_str`).
pub uninterp spec fn node_iri(node: NamedNode) -> Seq<char>;

/// The lexical value a literal holds (`Literal::value`).
pub uninterp spec fn literal_value(literal: Literal) -> Seq<char>;

/// The named node of `iri` (`NamedNode::new`), which fails exactly when
/// `iri` does not parse, and otherwise holds `iri`.
#[verifier::external_body]
fn named_node(iri: &str) -> (r: Result<NamedNode, String>)
    ensures
        r is Ok <==> iri_parses(iri@),
        r matches Ok(n) ==> n == named_node_of(iri@) && node_iri(n) == iri@,
{
    NamedNode::new(iri).map_err(|error| error.to_string())
}

/// The plain literal `value` (`Literal::new_simple_literal`), whose value
/// is `value`.
#[verifier::external_body]
fn simple_literal(value: &str) -> (r: Literal)
    ensures
        r == simple_literal_of(value@),
        literal_value(r) == value@,
{
    Literal::new_simple_literal(value)
}

/// The triple `subject predicate object` (`Triple::new`), whose parts are
/// the IRIs of the nodes and the value of a literal.
#[verifier::external_body]
fn rdf_triple(subject: NamedNode, predicate: NamedNode, object: RdfObject) -> (r: Triple)
    ensures
        r == triple_of(subject, predicate, object),
        triple_view(r) == (
            SubjectPartsView::Named(node_iri(subject)),
            node_iri(predicate),
            match object {
                RdfObject::Node(n) => ObjectPartsView::Named(node_iri(n)),
                RdfObject::Literal(l) => ObjectPartsView::Literal(literal_value(l)),
            },
        ),
{
    match object {
        RdfObject::Node(node) => Triple::new(subject, predicate, node),
        RdfObject::Literal(literal) => Triple::new(subject, predicate, literal),
    }
}

/// The RDF triple of a statement: named nodes for its IRIs, a plain literal
/// for a literal object.
pub open spec fn statement_rdf(st: Statement) -> Triple {
    triple_of(
        named_node_of(st.0),
        named_node_of(st.1.0),
        match st.1.1 {
            ObjView::Resource(o) => RdfObject::Node(named_node_of(o)),
            ObjView::Literal(v) => RdfObject::Literal(simple_literal_of(v)),
        },
    )
}

/// The parts of the RDF triple of a statement: its subject and predicate
/// IRIs, and its object as a named node or a literal's value.
pub open spec fn statement_parts(st: Statement) -> TriplePartsView {
    (
        SubjectPartsView::Named(st.0),
        st.1.0,
        match st.1.1 {
            ObjView::Resource(o) => ObjectPartsView::Named(o),
            ObjView::Literal(v) => ObjectPartsView::Literal(v),
        },
    )
}

/// The RDF triple of a statement; an IRI that does not parse gives
/// [`IcddError::Rdf`].
fn statement_triple(t: &GraphTriple) -> (r: Result<Triple, IcddError>)
    ensures
        r is Ok <==> statement_iris_parse(t.deep_view()),
        r matches Err(e) ==> e is Rdf,
        r matches Ok(x) ==> x == statement_rdf(t.deep_view()) && triple_view(x) == statement_parts(t.deep_view()),
{
    let subject = match named_node(t.subject.as_str()) {
        Ok(n) => n,
        Err(message) => {
            return Err(IcddError::Rdf(message));
        },
    };
    let predicate = match named_node(t.predicate.as_str()) {
        Ok(n) => n,
        Err(message) => {
            return Err(IcddError::Rdf(message));
        },
    };
    let object = match &t.object {
        Obj::Resource(iri) => match named_node(iri.as_str()) {
            Ok(n) => RdfObject::Node(n),
            Err(message) => {
                return Err(IcddError::Rdf(message));
            },
        },
        Obj::Literal(value) => RdfObject::Literal(simple_literal(value.as_str())),
    };
    Ok(rdf_triple(subject, predicate, object))
}

/// The settings every federation graph is serialized with: base IRI `base`
/// and the `ct:` and `poing:` prefixes.
pub open spec fn encode_options(base: Seq<char>) -> RdfXmlOptionsView {
    RdfXmlOptionsView { base_iri: Some(base), prefixes: seq![("ct"@, CT@), ("poing"@, POING@)] }
}

/// The RDF/XML document the statements are serialized as, with base IRI
/// `base`.
pub open spec fn encoded(statements: Seq<Statement>, base: Seq<char>) -> Seq<u8> {
    rdf_xml_document(
        encode_options(base),
        serialization_sequence(statements.map_values(|st: Statement| statement_rdf(st))),
    )
}

/// Serialize statements as RDF/XML with base IRI `base` and the `ct:` and
/// `poing:` prefixes.
fn encode(statements: &Vec<GraphTriple>, base: &str) -> (r: Result<Vec<u8>, IcddError>)
    ensures
        (exists|i: int| 0 <= i < statements.len() && !statement_iris_parse(#[trigger] statements.deep_view()[i]))
            ==> r is Err,
        r matches Err(e) ==> e is Rdf,
        r matches Ok(bytes) ==> bytes@ == encoded(statements.deep_view(), base@),
        options_accepted(encode_options(base@)) && (forall|i: int|
            0 <= i < statements.len() ==> statement_iris_parse(#[trigger] statements.deep_view()[i])
                && !reserved_syntax_term(statements.deep_view()[i].1.0)) ==> r is Ok,
{
    let ghost sv = statements.deep_view();
    let mut triples: Vec<Triple> = Vec::new();
    let mut i: usize = 0;
    while i < statements.len()
        invariant
            i <= statements.len(),
            sv == statements.deep_view(),
            forall|j: int| 0 <= j < i ==> statement_iris_parse(#[trigger] sv[j]),
            triples@ == sv.take(i as int).map_values(|st: Statement| statement_rdf(st)),
            forall|j: int| 0 <= j < i ==> triple_view(#[trigger] triples@[j]) == statement_parts(sv[j]),
        decreases statements.len() - i,
    {
        assert(statements[i as int].deep_view() == sv[i as int]);
        let t = statement_triple(&statements[i])?;
        triples.push(t);
        assert(sv.take(i + 1).map_values(|st: Statement| statement_rdf(st)) =~= sv.take(i as int).map_values(
            |st: Statement| statement_rdf(st),
        ).push(statement_rdf(sv[i as int])));
        i = i + 1;
    }
    assert(sv.take(i as int) =~= sv);
    let options = RdfXmlOptions::new().with_base_iri(base).with_prefix("ct", CT).with_prefix("poing", POING);
    assert(options@.prefixes =~= seq![("ct"@, CT@), ("poing"@, POING@)]);
    assert(options@ == encode_options(base@));
    assert forall|j: int| 0 <= j < triples@.len() implies #[trigger] triple_view(triples@[j]).1 == sv[j].1.0 by {
        assert(triple_view(triples@[j]) == statement_parts(sv[j]));
    }
    serialize_rdf_xml(triples.as_slice(), options)
}

/// The path a builder files `path` under: its normalized form.
pub open spec fn normalized(path: Seq<char>) -> Seq<char> {
    match spec_normalize_relative_path(path) {
        Ok(p) => p,
        Err(_) => path,
    }
}

/// The builder after adding, in order, the internal payloads among the
/// first `k` of `ps`.
pub open spec fn with_internal_payloads(v: ArchiveBuilderView, ps: Seq<PayloadView>, k: nat) -> ArchiveBuilderView
    decreases k,
{
    if k == 0 {
        v
    } else {
        let w = with_internal_payloads(v, ps, (k - 1) as nat);
        match ps[k - 1] {
            PayloadView::Internal { filename, bytes, .. } => with_payload(w, normalized(filename), bytes),
            PayloadView::External { .. } => w,
        }
    }
}

/// The archive of a federation: the index `index`, the Poing ontology
/// resource `ontology`, the federation metadata document `federation` and
/// every internal payload of `ps`.
pub open spec fn federation_archive(index: Seq<u8>, federation: Seq<u8>, ontology: Seq<u8>, ps: Seq<PayloadView>) -> ArchiveBuilderView {
    let start = ArchiveBuilderView {
        index_rdf: index,
        payloads: Seq::<FileEntryView>::empty(),
        linksets: Seq::<FileEntryView>::empty(),
        ontology_resources: Seq::<FileEntryView>::empty(),
    };
    with_internal_payloads(
        with_payload(with_ontology_resource(start, normalized(ONTOLOGY_RDF@), ontology), normalized(FEDERATION_RDF@), federation),
        ps,
        ps.len(),
    )
}

/// The payload each member is bound to: the first payload with the
/// member's id.
pub open spec fn spec_binding(ms: Seq<MemberView>, ps: Seq<PayloadView>) -> Seq<usize> {
    Seq::new(ms.len(), |k: int| binding_of(ps, ms[k].id, 0)->Some_0 as usize)
}

/// The archive written for manifest `m` and payloads `ps`: `Index.rdf`, the
/// federation metadata document and the Poing ontology, each the RDF/XML
/// document of its statements under its base IRI, and the internal payloads.
pub open spec fn written_federation(m: ManifestView, ps: Seq<PayloadView>) -> ArchiveBuilderView {
    federation_archive(
        encoded(index_statements(m, ps, spec_binding(m.members, ps)), icdd_base(m.uuid)),
        encoded(federation_statements(m), federation_base(m.uuid)),
        encoded(ontology_statements(), POING_ONTOLOGY@),
        ps,
    )
}

/// The serializer accepts the statements with base IRI `base`: the options
/// are accepted, every IRI parses, and no predicate is a reserved RDF/XML
/// syntax term.
pub open spec fn encodes(statements: Seq<Statement>, base: Seq<char>) -> bool {
    &&& options_accepted(encode_options(base))
    &&& forall|i: int|
        0 <= i < statements.len() ==> statement_iris_parse(#[trigger] statements[i]) && !reserved_syntax_term(
            statements[i].1.0,
        )
}

/// Every internal payload among the first `k` of `ps` is added: its file
/// name normalizes, and no payload added before it has a path equal to it
/// ignoring ASCII case.
pub open spec fn payloads_add(v: ArchiveBuilderView, ps: Seq<PayloadView>, k: nat) -> bool
    decreases k,
{
    if k == 0 {
        true
    } else {
        &&& payloads_add(v, ps, (k - 1) as nat)
        &&& match ps[k - 1] {
            PayloadView::Internal { filename, .. } => spec_normalize_relative_path(filename) matches Ok(p)
                && !folded_clash(file_keys(with_internal_payloads(v, ps, (k - 1) as nat).payloads), p),
            PayloadView::External { .. } => true,
        }
    }
}

/// Adding payloads keeps the index.
proof fn lemma_payloads_keep_index(v: ArchiveBuilderView, ps: Seq<PayloadView>, k: nat)
    ensures
        with_internal_payloads(v, ps, k).index_rdf == v.index_rdf,
    decreases k,
{
    if k > 0 {
        lemma_payloads_keep_index(v, ps, (k - 1) as nat);
    }
}

/// Adding the first `k` payloads adds the first `j <= k`.
proof fn lemma_payloads_add_prefix(v: ArchiveBuilderView, ps: Seq<PayloadView>, j: nat, k: nat)
    requires
        j <= k,
        payloads_add(v, ps, k),
    ensures
        payloads_add(v, ps, j),
    decreases k,
{
    if j < k {
        lemma_payloads_add_prefix(v, ps, j, (k - 1) as nat);
    }
}

/// The documents of the federation archive: `Index.rdf`, the federation
/// metadata document and the Poing ontology, as written for `m` and `ps`.
pub open spec fn federation_documents(m: ManifestView, ps: Seq<PayloadView>) -> (Seq<u8>, Seq<u8>, Seq<u8>) {
    (
        encoded(index_statements(m, ps, spec_binding(m.members, ps)), icdd_base(m.uuid)),
        encoded(federation_statements(m), federation_base(m.uuid)),
        encoded(ontology_statements(), POING_ONTOLOGY@),
    )
}

/// The builder after `Index.rdf`, the ontology and the metadata document
/// are added.
pub open spec fn federation_start(m: ManifestView, ps: Seq<PayloadView>) -> ArchiveBuilderView {
    let docs = federation_documents(m, ps);
    let start = ArchiveBuilderView {
        index_rdf: docs.0,
        payloads: Seq::<FileEntryView>::empty(),
        linksets: Seq::<FileEntryView>::empty(),
        ontology_resources: Seq::<FileEntryView>::empty(),
    };
    with_payload(with_ontology_resource(start, normalized(ONTOLOGY_RDF@), docs.2), normalized(FEDERATION_RDF@), docs.1)
}

/// Writing the federation for `m` and `ps` succeeds at every step after the
/// manifest and the bindings: the serializer accepts the three graphs; the
/// written index and ontology parse within the triple limit; every reading
/// of the index describes a container whose declared entries are the
/// archive's; the fixed ontology and metadata paths normalize; every
/// internal payload is added ([`payloads_add`]); and the archive fits
/// ([`archive_fits`]).
pub open spec fn federation_writes(m: ManifestView, ps: Seq<PayloadView>) -> bool {
    let docs = federation_documents(m, ps);
    &&& encodes(index_statements(m, ps, spec_binding(m.members, ps)), icdd_base(m.uuid))
    &&& encodes(federation_statements(m), federation_base(m.uuid))
    &&& encodes(ontology_statements(), POING_ONTOLOGY@)
    &&& parses_within_limit(docs.0)
    &&& parses_within_limit(docs.2)
    &&& forall|g: Seq<EntryView>|
        #[trigger] graph_read(docs.0, g) ==> (spec_index(g) matches Ok(iv) && spec_declared_entries_problem(
            written_federation(m, ps),
            iv,
        ) is None)
    &&& spec_normalize_relative_path(ONTOLOGY_RDF@) is Ok
    &&& spec_normalize_relative_path(FEDERATION_RDF@) is Ok
    &&& payloads_add(federation_start(m, ps), ps, ps.len())
    &&& archive_fits(written_federation(m, ps))
}

/// Emit a deterministic ISO 21597-1 container plus a Poing federation graph.
///
/// `transform_bits` holds, for each member in order, the IEEE-754 bit
/// patterns of the sixteen entries of its transform, which must be an
/// invertible affine matrix of finite numbers ([`validate_transform`]). The
/// manifest is checked first, then the payload bindings; the archive holds
/// `Index.rdf`, the Poing ontology, the federation metadata document and each
/// internal payload's bytes.
pub fn write_poing_federation_icdd(
    manifest: &PoingFederationManifest,
    payloads: &[FederationIcddPayload],
    transform_bits: &[[u64; 16]],
) -> (r: Result<Vec<u8>, IcddError>)
    requires
        transform_bits@.len() == manifest.members@.len(),
    ensures
        match manifest_problem(manifest.deep_view(), transform_problems(transform_bits@)) {
            Some(p) => r matches Err(e) && e.is_not_conformant(p),
            None => match bindings_problem(manifest.members.deep_view(), payloads.deep_view()) {
                Some(p) => r matches Err(e) && e.is_not_conformant(p),
                None => {
                    &&& r matches Ok(bytes) ==> bytes@ == zip_archive_bytes(
                        spec_archive_entries(written_federation(manifest.deep_view(), payloads.deep_view())),
                    ) && declared_entries_match(written_federation(manifest.deep_view(), payloads.deep_view()))
                        && reads_written(
                        bytes@,
                        spec_archive_entries(written_federation(manifest.deep_view(), payloads.deep_view())),
                    ) && builder_ok(written_federation(manifest.deep_view(), payloads.deep_view())) && documents_parse(
                        written_federation(manifest.deep_view(), payloads.deep_view()),
                    )
                    &&& federation_writes(manifest.deep_view(), payloads.deep_view()) ==> r is Ok
                },
            },
        },
{
    let ghost ps = payloads.deep_view();
    let transform_checks = check_transforms(transform_bits);
    validate_manifest(manifest, transform_checks.as_slice())?;
    let binding = validate_bindings(manifest, payloads)?;
    assert(binding@ =~= spec_binding(manifest.members.deep_view(), ps));
    let ghost mv = manifest.deep_view();
    let ghost good = federation_writes(mv, ps);
    let base = icdd_base_iri(manifest.uuid);
    let index_statements_graph = index_graph(manifest, payloads, &binding);
    let index = encode(&index_statements_graph, base.as_str())?;
    assert(index@ == federation_documents(mv, ps).0);
    let federation_base = concat(base.as_str(), "federation/");
    let federation = encode(&federation_graph(manifest), federation_base.as_str())?;
    let ontology = encode(&ontology_graph(), POING_ONTOLOGY)?;
    let mut archive = IcddArchiveBuilder::new(index.as_slice())?;
    let ghost start = ArchiveBuilderView {
        index_rdf: index@,
        payloads: Seq::<FileEntryView>::empty(),
        linksets: Seq::<FileEntryView>::empty(),
        ontology_resources: Seq::<FileEntryView>::empty(),
    };
    assert(archive@.payloads =~= start.payloads);
    assert(archive@.linksets =~= start.linksets);
    assert(archive@.ontology_resources =~= start.ontology_resources);
    archive = archive.add_ontology_resource(ONTOLOGY_RDF, ontology.as_slice())?;
    archive = archive.add_payload(FEDERATION_RDF, federation.as_slice())?;
    let ghost first = archive@;
    assert(first == with_payload(with_ontology_resource(start, normalized(ONTOLOGY_RDF@), ontology@), normalized(FEDERATION_RDF@), federation@));
    assert(first == federation_start(mv, ps));
    let mut k: usize = 0;
    while k < payloads.len()
        invariant
            k <= payloads.len(),
            ps == payloads.deep_view(),
            archive@ == with_internal_payloads(first, ps, k as nat),
            manifest_problem(manifest.deep_view(), transform_problems(transform_bits@)) is None,
            bindings_problem(manifest.members.deep_view(), ps) is None,
            mv == manifest.deep_view(),
            good == federation_writes(mv, ps),
            first == federation_start(mv, ps),
        decreases payloads.len() - k,
    {
        assert(payloads[k as int].deep_view() == ps[k as int]);
        proof {
            if good {
                lemma_payloads_add_prefix(first, ps, (k + 1) as nat, ps.len());
            }
        }
        match &payloads[k] {
            FederationIcddPayload::Internal { filename, bytes, .. } => {
                archive = archive.add_payload(filename, bytes)?;
            },
            FederationIcddPayload::External { .. } => {},
        }
        k = k + 1;
    }
    assert(archive@ == federation_archive(index@, federation@, ontology@, ps));
    assert(archive@ == written_federation(mv, ps));
    proof {
        lemma_payloads_keep_index(first, ps, ps.len());
    }
    assert(archive@.index_rdf == federation_documents(mv, ps).0);
    let written = archive.finish();
    proof {
        if good {
            let g = choose|g: Seq<EntryView>|
                #[trigger] graph_read(written_federation(mv, ps).index_rdf, g) && finish_verdict(
                    written_federation(mv, ps),
                    g,
                    written,
                );
            assert(graph_read(federation_documents(mv, ps).0, g));
        }
    }
    written
}

// ---------------------------------------------------------------------------
// Reading
/// The value of an unsigned decimal numeral of ASCII digits.
pub open spec fn digits_value(s: Seq<char>) -> nat
    decreases s.len(),
{
    if s.len() == 0 {
        0
    } else {
        digits_value(s.drop_last()) * 10 + ((s.last() as nat) - 48) as nat
    }
}

/// Every character is an ASCII digit.
pub open spec fn all_digits(s: Seq<char>) -> bool {
    forall|i: int| 0 <= i < s.len() ==> '0' <= #[trigger] s[i] && s[i] <= '9'
}

/// What `usize::from_str` gives for `s`: an optional `+`, then at least one
/// ASCII digit, denoting a value that fits in `usize`.
pub open spec fn spec_parse_usize(s: Seq<char>) -> Option<nat> {
    let d = if s.len() > 0 && s[0] == '+' {
        s.drop_first()
    } else {
        s
    };
    if d.len() > 0 && all_digits(d) && digits_value(d) <= usize::MAX {
        Some(digits_value(d))
    } else {
        None
    }
}

/// Parse an unsigned decimal numeral as `usize::from_str` does.
pub fn parse_usize(s: &str) -> (r: Option<usize>)
    ensures
        match spec_parse_usize(s@) {
            Some(n) => r == Some(n as usize),
            None => r is None,
        },
{
    let cs = chars_of(s);
    let start: usize = if cs.len() > 0 && cs[0] == '+' {
        1
    } else {
        0
    };
    let ghost d = if s@.len() > 0 && s@[0] == '+' {
        s@.drop_first()
    } else {
        s@
    };
    assert(d =~= cs@.subrange(start as int, cs@.len() as int));
    if start == cs.len() {
        return None;
    }
    let mut value: usize = 0;
    let mut i: usize = start;
    while i < cs.len()
        invariant
            start <= i <= cs.len(),
            cs@ == s@,
            d =~= cs@.subrange(start as int, cs@.len() as int),
            d == (if s@.len() > 0 && s@[0] == '+' {
                s@.drop_first()
            } else {
                s@
            }),
            d.len() > 0,
            all_digits(cs@.subrange(start as int, i as int)),
            value == digits_value(cs@.subrange(start as int, i as int)),
        decreases cs.len() - i,
    {
        let c = cs[i];
        if !('0' <= c && c <= '9') {
            assert(d[i - start] == c);
            assert(!all_digits(d));
            return None;
        }
        let digit: usize = ((c as u32) - 48) as usize;
        let ghost prefix = cs@.subrange(start as int, i + 1);
        assert(prefix.drop_last() =~= cs@.subrange(start as int, i as int));
        assert(prefix.last() == c);
        if value > (usize::MAX - digit) / 10 {
            proof {
                // the numeral's value only grows with more digits
                lemma_digits_value_grows(d, (i + 1 - start) as nat);
                assert(d.subrange(0, (i + 1 - start) as int) =~= prefix);
                assert(value * 10 + digit > usize::MAX) by (nonlinear_arith)
                    requires
                        value > (usize::MAX - digit) / 10,
                        digit <= 9,
                ;
            }
            return None;
        }
        assert(value * 10 + digit <= usize::MAX) by (nonlinear_arith)
            requires
                value <= (usize::MAX - digit) / 10,
                digit <= 9,
        ;
        value = value * 10 + digit;
        i = i + 1;
    }
    assert(cs@.subrange(start as int, i as int) =~= d);
    Some(value)
}

/// A numeral of digits is worth at least any of its prefixes.
proof fn lemma_digits_value_grows(s: Seq<char>, k: nat)
    requires
        k <= s.len(),
    ensures
        all_digits(s) ==> digits_value(s.subrange(0, k as int)) <= digits_value(s),
    decreases s.len() - k,
{
    if k < s.len() && all_digits(s) {
        lemma_digits_value_grows(s, k + 1);
        let p = s.subrange(0, (k + 1) as int);
        assert(p.drop_last() =~= s.subrange(0, k as int));
        assert('0' <= s[k as int]);
    } else if k == s.len() {
        assert(s.subrange(0, k as int) =~= s);
    }
}

/// The first literal of `subject` for the Poing predicate `local`.
pub open spec fn poing_literal(g: Seq<EntryView>, subject: Seq<char>, local: Seq<char>) -> Option<Seq<char>> {
    first_literal(spec_objects(g, subject, poing_term(local)))
}

/// The detail of a missing Poing field.
pub open spec fn missing_detail(local: Seq<char>) -> Seq<char> {
    "Poing federation RDF is missing "@ + local
}

/// The literal of a required Poing field.
fn required(graph: &RdfGraph, subject: &str, predicate: &str) -> (r: Result<String, IcddError>)
    ensures
        match poing_literal(graph@, subject@, predicate@) {
            Some(v) => r matches Ok(s) && s@ == v,
            None => r matches Err(e) && e.is_not_conformant(missing_detail(predicate@)),
        },
{
    match graph.literal_ns(subject, POING, predicate) {
        Some(v) => Ok(v),
        None => Err(not_conformant(concat("Poing federation RDF is missing ", predicate))),
    }
}

/// The UUID written in `value`.
fn parse_uuid(value: &str) -> (r: Result<u128, IcddError>)
    ensures
        match uuid_parse(value@) {
            Some(u) => r == Ok::<u128, IcddError>(u),
            None => r matches Err(e) && e.is_not_conformant("Poing UUID is not a valid UUID"@),
        },
{
    match uuid_from_text(value) {
        Some(u) => Ok(u),
        None => Err(not_conformant(owned("Poing UUID is not a valid UUID"))),
    }
}

/// The member described by `subject` and its position, or the first missing
/// or malformed field, in the order order, id, uuid, name, source, transform.
/// The transform is taken as written; it is checked separately.
pub open spec fn spec_member(g: Seq<EntryView>, subject: Seq<char>) -> Result<(nat, MemberView), Seq<char>> {
    match poing_literal(g, subject, "order"@) {
        None => Err(missing_detail("order"@)),
        Some(order_text) => match spec_parse_usize(order_text) {
            None => Err("Poing member order is not an unsigned integer"@),
            Some(order) => match poing_literal(g, subject, "id"@) {
                None => Err(missing_detail("id"@)),
                Some(id) => match poing_literal(g, subject, "uuid"@) {
                    None => Err(missing_detail("uuid"@)),
                    Some(uuid_text) => match uuid_parse(uuid_text) {
                        None => Err("Poing UUID is not a valid UUID"@),
                        Some(uuid) => match poing_literal(g, subject, "name"@) {
                            None => Err(missing_detail("name"@)),
                            Some(name) => match poing_literal(g, subject, "source"@) {
                                None => Err(missing_detail("source"@)),
                                Some(source) => match poing_literal(g, subject, "transform"@) {
                                    None => Err(missing_detail("transform"@)),
                                    Some(transform) => Ok(
                                        (
                                            order,
                                            MemberView {
                                                id,
                                                uuid,
                                                name,
                                                source,
                                                industry_domain: poing_literal(g, subject, "industryDomain"@),
                                                schema: poing_literal(g, subject, "schema"@),
                                                content_hash: poing_literal(g, subject, "contentHash"@),
                                                coordinate_reference_system: poing_literal(g, subject, "crs"@),
                                                transform,
                                            },
                                        ),
                                    ),
                                },
                            },
                        },
                    },
                },
            },
        },
    }
}

/// `check` accepts the transform text `text`: a call of it on that text
/// reports no problem.
pub open spec fn transform_accepted<F: Fn(&str) -> Option<String>>(check: F, text: Seq<char>) -> bool {
    exists|s: &str, out: Option<String>| #[trigger] call_ensures(check, (s,), out) && s@ == text && out is None
}

/// `check` reports no problem with the transform text `text`, whatever a
/// call of it on that text may return.
pub open spec fn transform_always_accepted<F: Fn(&str) -> Option<String>>(check: F, text: Seq<char>) -> bool {
    forall|s: &str, out: Option<String>| #[trigger] call_ensures(check, (s,), out) && s@ == text ==> out is None
}

/// The member described by `subject` and its position. Its transform text
/// is handed to `check`, whose verdict, if any, is the error.
pub fn parse_member<F: Fn(&str) -> Option<String>>(graph: &RdfGraph, subject: &str, check: &F) -> (r: Result<(usize, PoingFederationMember), IcddError>)
    requires
        forall|s: &str| #[trigger] call_requires(*check, (s,)),
    ensures
        match spec_member(graph@, subject@) {
            Err(d) => r matches Err(e) && e.is_not_conformant(d),
            Ok((order, mv)) => {
                &&& r matches Ok((o, m)) ==> o == order && m.deep_view() == mv && transform_accepted(*check, mv.transform)
                &&& r matches Err(e) ==> e is NotConformant
                &&& transform_always_accepted(*check, mv.transform) ==> r is Ok
            },
        },
{
    let order_text = required(graph, subject, "order")?;
    let order = match parse_usize(order_text.as_str()) {
        Some(o) => o,
        None => {
            return Err(not_conformant(owned("Poing member order is not an unsigned integer")));
        },
    };
    let id = required(graph, subject, "id")?;
    let uuid_text = required(graph, subject, "uuid")?;
    let uuid = parse_uuid(uuid_text.as_str())?;
    let name = required(graph, subject, "name")?;
    let source = required(graph, subject, "source")?;
    let industry_domain = graph.literal_ns(subject, POING, "industryDomain");
    let schema = graph.literal_ns(subject, POING, "schema");
    let content_hash = graph.literal_ns(subject, POING, "contentHash");
    let coordinate_reference_system = graph.literal_ns(subject, POING, "crs");
    let transform = required(graph, subject, "transform")?;
    let verdict = check(transform.as_str());
    match verdict {
        Some(problem) => {
            return Err(IcddError::NotConformant(problem));
        },
        None => {},
    }
    let member = PoingFederationMember {
        id,
        uuid,
        name,
        source,
        industry_domain,
        schema,
        content_hash,
        coordinate_reference_system,
        transform,
    };
    Ok((order, member))
}

/// A document of the index stands for `source`: an internal document with
/// that file name or an external document with that URL.
pub open spec fn stands_for(d: DocumentView, source: Seq<char>) -> bool {
    match d.kind {
        DocumentKindView::Internal { filename } => filename == source,
        DocumentKindView::External { url } => url == source,
        DocumentKindView::Folder { .. } => false,
    }
}

/// How many of the first `n` documents stand for `source`.
pub open spec fn count_standing_for(docs: Seq<DocumentView>, source: Seq<char>, n: nat) -> nat
    decreases n,
{
    if n == 0 {
        0
    } else {
        count_standing_for(docs, source, (n - 1) as nat) + if stands_for(docs[n - 1], source) {
            1nat
        } else {
            0nat
        }
    }
}

/// The position of the first of the first `n` documents that stands for
/// `source`.
pub open spec fn first_standing_for(docs: Seq<DocumentView>, source: Seq<char>, n: nat) -> Option<int>
    decreases n,
{
    if n == 0 {
        None
    } else {
        match first_standing_for(docs, source, (n - 1) as nat) {
            Some(j) => Some(j),
            None => if stands_for(docs[n - 1], source) {
                Some(n - 1)
            } else {
                None
            },
        }
    }
}

/// Why member `m` does not name an available model document of the index
/// `docs`, or `None`: its source must identify exactly one document, which is
/// not the federation metadata document `metadata_id`, is not merely
/// requested, and, when internal, resolves to an entry of `names` below
/// `Payload documents/`.
pub open spec fn source_problem(m: MemberView, docs: Seq<DocumentView>, metadata_id: Seq<char>, names: Seq<Seq<char>>) -> Option<Seq<char>> {
    let head = "federation member "@ + m.id;
    if count_standing_for(docs, m.source, docs.len()) != 1 {
        Some(head + " source "@ + debug_text(m.source) + " must identify exactly one Index.rdf document"@)
    } else {
        match first_standing_for(docs, m.source, docs.len()) {
            Some(j) => if docs[j].id == metadata_id || docs[j].requested {
                Some(head + " source "@ + debug_text(m.source) + " is not an available model document"@)
            } else if docs[j].kind matches DocumentKindView::Internal { filename } && spec_resolve(
                names,
                PAYLOAD_DOCS_DIR@,
                filename,
            ) is Err {
                Some(head + " has unavailable internal source "@ + debug_text(m.source))
            } else {
                None
            },
            None => None,
        }
    }
}

/// The source problem of the first member from `k` on that has one.
pub open spec fn first_source_problem(
    members: Seq<MemberView>,
    docs: Seq<DocumentView>,
    metadata_id: Seq<char>,
    names: Seq<Seq<char>>,
    k: nat,
) -> Option<Seq<char>>
    decreases members.len() - k,
{
    if k >= members.len() {
        None
    } else {
        match source_problem(members[k as int], docs, metadata_id, names) {
            Some(p) => Some(p),
            None => first_source_problem(members, docs, metadata_id, names, k + 1),
        }
    }
}

/// When no document stands for `source`, there is no first one.
proof fn lemma_count_zero(docs: Seq<DocumentView>, source: Seq<char>, n: nat)
    requires
        count_standing_for(docs, source, n) == 0,
    ensures
        first_standing_for(docs, source, n) is None,
        forall|i: int| 0 <= i < n ==> !stands_for(#[trigger] docs[i], source),
    decreases n,
{
    if n > 0 {
        lemma_count_zero(docs, source, (n - 1) as nat);
    }
}

/// When exactly one document stands for `source`, it is the first, and no
/// other does.
proof fn lemma_count_one(docs: Seq<DocumentView>, source: Seq<char>, n: nat)
    requires
        count_standing_for(docs, source, n) == 1,
    ensures
        first_standing_for(docs, source, n) matches Some(j) && 0 <= j < n && stands_for(docs[j], source)
            && forall|i: int| 0 <= i < n && i != j ==> !stands_for(#[trigger] docs[i], source),
    decreases n,
{
    if stands_for(docs[n - 1], source) {
        lemma_count_zero(docs, source, (n - 1) as nat);
    } else {
        lemma_count_one(docs, source, (n - 1) as nat);
    }
}

/// Each member of a manifest whose sources have no problem names exactly one
/// document of the index: not the federation metadata document, not merely
/// requested, and, when internal, resolving to an entry of the archive below
/// `Payload documents/`. With `parse_poing_federation_icdd`'s contract, this
/// is what every successfully parsed federation holds.
pub proof fn lemma_sources_available(
    members: Seq<MemberView>,
    docs: Seq<DocumentView>,
    metadata_id: Seq<char>,
    names: Seq<Seq<char>>,
    k: nat,
)
    requires
        first_source_problem(members, docs, metadata_id, names, k) is None,
    ensures
        forall|m: int|
            #![trigger members[m]]
            k <= m < members.len() ==> exists|j: int|
                {
                    &&& 0 <= j < docs.len()
                    &&& #[trigger] stands_for(docs[j], members[m].source)
                    &&& forall|i: int| 0 <= i < docs.len() && i != j ==> !stands_for(#[trigger] docs[i], members[m].source)
                    &&& docs[j].id != metadata_id
                    &&& !docs[j].requested
                    &&& docs[j].kind matches DocumentKindView::Internal { filename } ==> spec_resolve(
                        names,
                        PAYLOAD_DOCS_DIR@,
                        filename,
                    ) is Ok
                },
    decreases members.len() - k,
{
    if k < members.len() {
        lemma_sources_available(members, docs, metadata_id, names, k + 1);
        let src = members[k as int].source;
        lemma_count_one(docs, src, docs.len());
        let j = first_standing_for(docs, src, docs.len())->Some_0;
        assert(stands_for(docs[j], src));
    }
}

/// How many documents stand for `source`, and the position of the first.
fn documents_standing_for(docs: &Vec<Document>, source: &str) -> (r: (usize, usize))
    ensures
        r.0 == count_standing_for(docs.deep_view(), source@, docs.len() as nat),
        match first_standing_for(docs.deep_view(), source@, docs.len() as nat) {
            Some(j) => r.1 == j && j < docs.len(),
            None => r.0 == 0,
        },
{
    let ghost dv = docs.deep_view();
    let mut count: usize = 0;
    let mut first: usize = 0;
    let mut i: usize = 0;
    while i < docs.len()
        invariant
            i <= docs.len(),
            dv == docs.deep_view(),
            count <= i,
            count == count_standing_for(dv, source@, i as nat),
            match first_standing_for(dv, source@, i as nat) {
                Some(j) => first == j && j < i && count >= 1,
                None => count == 0,
            },
        decreases docs.len() - i,
    {
        let d = &docs[i];
        assert(d.deep_view() == dv[i as int]);
        let stands = match &d.kind {
            DocumentKind::Internal { filename } => str_eq(filename.as_str(), source),
            DocumentKind::External { url } => str_eq(url.as_str(), source),
            DocumentKind::Folder { .. } => false,
        };
        assert(stands == stands_for(dv[i as int], source@));
        if stands {
            if count == 0 {
                first = i;
            }
            count = count + 1;
        }
        i = i + 1;
    }
    (count, first)
}

/// Check that each member's source names an available model document of the
/// container (see [`source_problem`]).
pub fn check_member_sources(members: &Vec<PoingFederationMember>, container: &IcddContainer, metadata_id: &str) -> (r: Result<(), IcddError>)
    ensures
        match first_source_problem(
            members.deep_view(),
            container@.index.documents,
            metadata_id@,
            container@.zip.names,
            0,
        ) {
            Some(p) => r matches Err(e) && e.is_not_conformant(p),
            None => r is Ok,
        },
{
    let ghost mv = members.deep_view();
    let ghost dv = container@.index.documents;
    let ghost names = container@.zip.names;
    let docs = &container.index().documents;
    let mut k: usize = 0;
    while k < members.len()
        invariant
            k <= members.len(),
            mv == members.deep_view(),
            dv == container@.index.documents,
            dv == docs.deep_view(),
            names == container@.zip.names,
            first_source_problem(mv, dv, metadata_id@, names, 0) == first_source_problem(
                mv,
                dv,
                metadata_id@,
                names,
                k as nat,
            ),
        decreases members.len() - k,
    {
        let m = &members[k];
        assert(m.deep_view() == mv[k as int]);
        let (count, first) = documents_standing_for(docs, m.source.as_str());
        let head = concat("federation member ", m.id.as_str());
        if count != 1 {
            let a = concat(head.as_str(), " source ");
            let b = concat(a.as_str(), debug_quoted(m.source.as_str()).as_str());
            return Err(not_conformant(concat(b.as_str(), " must identify exactly one Index.rdf document")));
        }
        let d = &docs[first];
        assert(d.deep_view() == dv[first as int]);
        if str_eq(d.id.as_str(), metadata_id) || d.requested {
            let a = concat(head.as_str(), " source ");
            let b = concat(a.as_str(), debug_quoted(m.source.as_str()).as_str());
            return Err(not_conformant(concat(b.as_str(), " is not an available model document")));
        }
        match &d.kind {
            DocumentKind::Internal { filename } => {
                if !container.contains_internal_payload(filename.as_str()) {
                    let a = concat(head.as_str(), " has unavailable internal source ");
                    return Err(not_conformant(concat(a.as_str(), debug_quoted(m.source.as_str()).as_str())));
                }
            },
            _ => {},
        }
        k = k + 1;
    }
    Ok(())
}

/// Some member of the list has order `i`.
pub open spec fn has_order(orders: Seq<usize>, i: int) -> bool {
    exists|j: int| 0 <= j < orders.len() && #[trigger] orders[j] == i
}

/// Every position `0..n` of a list of `n` members is the order of one of
/// them: the orders are `0..n` in some arrangement.
pub open spec fn orders_contiguous(orders: Seq<usize>) -> bool {
    forall|i: int| 0 <= i < orders.len() ==> #[trigger] has_order(orders, i)
}

/// `m` is the member of order `i` in the list.
pub open spec fn member_of_order(parsed: Seq<(usize, MemberView)>, i: int, m: MemberView) -> bool {
    exists|j: int| 0 <= j < parsed.len() && #[trigger] parsed[j] == (i as usize, m)
}

/// The members put at the positions their orders give (the member of order
/// `i` at position `i`); the orders must be `0..n` in some arrangement.
pub fn order_members(parsed: &Vec<(usize, PoingFederationMember)>) -> (r: Result<Vec<PoingFederationMember>, IcddError>)
    ensures
        orders_contiguous(parsed.deep_view().map_values(|e: (usize, MemberView)| e.0)) ==> (r matches Ok(ms)
            && ms.len() == parsed.len() && forall|i: int|
            0 <= i < ms.len() ==> member_of_order(parsed.deep_view(), i, #[trigger] ms.deep_view()[i])),
        !orders_contiguous(parsed.deep_view().map_values(|e: (usize, MemberView)| e.0)) ==> (r matches Err(e)
            && e.is_not_conformant("Poing member order must be contiguous from zero"@)),
{
    let ghost pv = parsed.deep_view();
    let ghost orders = pv.map_values(|e: (usize, MemberView)| e.0);
    let mut ms: Vec<PoingFederationMember> = Vec::new();
    let mut i: usize = 0;
    while i < parsed.len()
        invariant
            i <= parsed.len(),
            pv == parsed.deep_view(),
            orders == pv.map_values(|e: (usize, MemberView)| e.0),
            ms.len() == i,
            forall|a: int| 0 <= a < i ==> #[trigger] has_order(orders, a),
            forall|a: int| 0 <= a < i ==> member_of_order(pv, a, #[trigger] ms.deep_view()[a]),
        decreases parsed.len() - i,
    {
        let mut j: usize = 0;
        while j < parsed.len() && parsed[j].0 != i
            invariant
                j <= parsed.len(),
                pv == parsed.deep_view(),
                orders == pv.map_values(|e: (usize, MemberView)| e.0),
                forall|b: int| 0 <= b < j ==> orders[b] != i,
            decreases parsed.len() - j,
        {
            assert(orders[j as int] == parsed@[j as int].0);
            j = j + 1;
        }
        if j == parsed.len() {
            assert(!has_order(orders, i as int));
            return Err(not_conformant(owned("Poing member order must be contiguous from zero")));
        }
        assert(orders[j as int] == i);
        assert(has_order(orders, i as int));
        let ghost before = ms.deep_view();
        let m = parsed[j].1.duplicate();
        ms.push(m);
        assert(ms.deep_view() =~= before.push(pv[j as int].1));
        assert(pv[j as int] == (i, pv[j as int].1));
        assert(member_of_order(pv, i as int, ms.deep_view()[i as int]));
        i = i + 1;
    }
    Ok(ms)
}

/// The manifest is what the federation graph `g` says: the one subject typed
/// as a Poing federation carries the id, the UUID (as the UUID parser reads
/// its text), the name, the primary member and the coordinate reference
/// system, and each member is what the statements about one of the subjects
/// typed as a Poing member say, at the position its order gives.
pub open spec fn read_from_graph(m: ManifestView, g: Seq<EntryView>) -> bool {
    federation_read(m, g, subjects_typed(g, poing_term("Federation"@))) && members_read(
        m.members,
        g,
        subjects_typed(g, poing_term("Member"@)),
    )
}

/// The federation node is the one subject in `roots`, whose Poing literals
/// give the manifest's own fields.
pub open spec fn federation_read(m: ManifestView, g: Seq<EntryView>, roots: Seq<Seq<char>>) -> bool {
    &&& roots.len() == 1
    &&& poing_literal(g, roots[0], "id"@) == Some(m.id)
    &&& (poing_literal(g, roots[0], "uuid"@) matches Some(t) && uuid_parse(t) == Some(m.uuid))
    &&& poing_literal(g, roots[0], "name"@) == Some(m.name)
    &&& poing_literal(g, roots[0], "primaryMemberId"@) == Some(m.primary_member_id)
    &&& poing_literal(g, roots[0], "crs"@) == m.coordinate_reference_system
}

/// There is one member per subject in `subjects`, and each member is what
/// the statements about one of them say, at the position its order gives.
pub open spec fn members_read(members: Seq<MemberView>, g: Seq<EntryView>, subjects: Seq<Seq<char>>) -> bool {
    &&& members.len() == subjects.len()
    &&& forall|k: int| 0 <= k < members.len() ==> #[trigger] read_at(g, subjects, k, members[k])
}

/// One of the subjects reads as member `mv` at position `k`.
pub open spec fn read_at(g: Seq<EntryView>, subjects: Seq<Seq<char>>, k: int, mv: MemberView) -> bool {
    exists|i: int| 0 <= i < subjects.len() && #[trigger] reads_member(g, subjects[i], k, mv)
}

/// Members put in the order their positions give, each read from the
/// subject at its place in `subjects`, are read from the graph.
proof fn lemma_members_read(pv: Seq<(usize, MemberView)>, msv: Seq<MemberView>, g: Seq<EntryView>, subjects: Seq<Seq<char>>)
    requires
        pv.len() == subjects.len(),
        msv.len() == pv.len(),
        pv.len() <= usize::MAX,
        forall|a: int|
            #![trigger pv[a]]
            0 <= a < pv.len() ==> reads_member(g, subjects[a], pv[a].0 as int, pv[a].1),
        forall|k: int| 0 <= k < msv.len() ==> member_of_order(pv, k, #[trigger] msv[k]),
    ensures
        members_read(msv, g, subjects),
{
    assert forall|k: int| 0 <= k < msv.len() implies #[trigger] read_at(g, subjects, k, msv[k]) by {
        assert(member_of_order(pv, k, msv[k]));
        let j = choose|j: int| 0 <= j < pv.len() && #[trigger] pv[j] == (k as usize, msv[k]);
        assert(reads_member(g, subjects[j], pv[j].0 as int, pv[j].1));
        assert(pv[j].0 as int == k);
    }
}

/// The statements about subject `s` read as member `mv` at position `k`.
pub open spec fn reads_member(g: Seq<EntryView>, s: Seq<char>, k: int, mv: MemberView) -> bool {
    spec_member(g, s) == Ok::<(nat, MemberView), Seq<char>>((k as nat, mv))
}

/// The bytes open as a container ([`opens_successfully`]) and, however its
/// index is read, it declares no federation metadata document.
pub open spec fn lacks_metadata_document(bytes: Seq<u8>) -> bool {
    &&& opens_successfully(bytes)
    &&& zip_reading(bytes) matches Some((names, sizes, data)) && forall|g: Seq<EntryView>|
        #[trigger] graph_read(data[root_indexes(names)[0]], g) ==> (spec_index(g) matches Ok(iv) && forall|i: int|
            0 <= i < iv.documents.len() ==> !is_metadata_document(#[trigger] iv.documents[i]))
}

/// Document `j` of the container is internal, its file resolves below
/// `Payload documents/` to an entry, and that entry's bytes read as a graph
/// from which the manifest is read ([`read_from_graph`]).
pub open spec fn metadata_read(c: IcddContainerView, j: int, m: ManifestView) -> bool {
    spec_internal_path(c.index.documents[j]) matches Some(f) && spec_resolve(
        c.zip.names,
        PAYLOAD_DOCS_DIR@,
        f,
    ) matches Ok(p) && exists|g: Seq<EntryView>| #[trigger] graph_read(c.zip.data[p], g) && read_from_graph(m, g)
}

/// The document is the federation metadata document: internal and named
/// `poing-federation.rdf`.
pub open spec fn is_metadata_document(d: DocumentView) -> bool {
    d.kind == DocumentKindView::Internal { filename: FEDERATION_RDF@ }
}

/// Document `j` is the first federation metadata document of the index.
pub open spec fn first_metadata_document(iv: IndexView, j: int) -> bool {
    &&& 0 <= j < iv.documents.len()
    &&& is_metadata_document(iv.documents[j])
    &&& forall|i: int| 0 <= i < j ==> !is_metadata_document(#[trigger] iv.documents[i])
}

/// The manifest passes every check of reading: it is valid, `check` accepts
/// each member's transform whatever it returns, and every member's source
/// names an available model document of the index, the metadata document
/// `j` aside.
pub open spec fn manifest_accepted<F: Fn(&str) -> Option<String>>(
    m: ManifestView,
    iv: IndexView,
    j: int,
    names: Seq<Seq<char>>,
    check: F,
) -> bool {
    &&& manifest_problem(m, no_problems(m.members.len())) is None
    &&& forall|k: int| 0 <= k < m.members.len() ==> transform_always_accepted(check, #[trigger] m.members[k].transform)
    &&& first_source_problem(m.members, iv.documents, iv.documents[j].id, names, 0) is None
}

/// In a container with index `iv`, read from `bytes` as the archive
/// `(names, sizes, data)`, document `j` is the first federation metadata
/// document, and its file resolves to an entry that reads within the
/// in-memory limit and parses.
pub open spec fn metadata_parses(
    bytes: Seq<u8>,
    names: Seq<Seq<char>>,
    sizes: Map<Seq<char>, u64>,
    data: Map<Seq<char>, Seq<u8>>,
    iv: IndexView,
    j: int,
) -> bool {
    first_metadata_document(iv, j) && (spec_resolve(names, PAYLOAD_DOCS_DIR@, FEDERATION_RDF@) matches Ok(p) && {
        &&& entry_readable(bytes, p)
        &&& sizes[p] <= MAX_IN_MEMORY_PAYLOAD_BYTES
        &&& data[p].len() <= MAX_IN_MEMORY_PAYLOAD_BYTES
        &&& parses_within_limit(data[p])
    })
}

/// In a container with index `iv`, read from `bytes` as the archive
/// `(names, sizes, data)`, the federation metadata reads: it parses
/// ([`metadata_parses`]), and every reading of it is the graph of a manifest
/// that passes every check ([`manifest_accepted`]).
pub open spec fn metadata_reads<F: Fn(&str) -> Option<String>>(
    bytes: Seq<u8>,
    names: Seq<Seq<char>>,
    sizes: Map<Seq<char>, u64>,
    data: Map<Seq<char>, Seq<u8>>,
    iv: IndexView,
    check: F,
) -> bool {
    exists|j: int|
        #[trigger] metadata_parses(bytes, names, sizes, data, iv, j) && forall|g: Seq<EntryView>|
            #[trigger] graph_read(data[spec_resolve(names, PAYLOAD_DOCS_DIR@, FEDERATION_RDF@)->Ok_0], g)
                ==> exists|m: ManifestView| #[trigger] read_from_graph(m, g) && manifest_accepted(m, iv, j, names, check)
}

/// The bytes open as a container ([`opens_successfully`]) and, however its
/// index is read, its federation metadata document parses
/// ([`metadata_parses`]).
pub open spec fn federation_graph_parses(bytes: Seq<u8>) -> bool {
    &&& opens_successfully(bytes)
    &&& zip_reading(bytes) matches Some((names, sizes, data)) && forall|g: Seq<EntryView>|
        #[trigger] graph_read(data[root_indexes(names)[0]], g) ==> (spec_index(g) matches Ok(iv) && exists|j: int|
            #[trigger] metadata_parses(bytes, names, sizes, data, iv, j))
}

/// The bytes hold a federation that reads: they open as a container
/// ([`opens_successfully`]) and, however its index is read, its federation
/// metadata reads ([`metadata_reads`]).
pub open spec fn federation_opens<F: Fn(&str) -> Option<String>>(bytes: Seq<u8>, check: F) -> bool {
    &&& opens_successfully(bytes)
    &&& zip_reading(bytes) matches Some((names, sizes, data)) && forall|g: Seq<EntryView>|
        #[trigger] graph_read(data[root_indexes(names)[0]], g) ==> (spec_index(g) matches Ok(iv) && metadata_reads(
            bytes,
            names,
            sizes,
            data,
            iv,
            check,
        ))
}

/// The statements about subject `s` read as one of the members, at its
/// position.
pub open spec fn reads_some_member(g: Seq<EntryView>, s: Seq<char>, members: Seq<MemberView>) -> bool {
    exists|k: int| 0 <= k < members.len() && #[trigger] reads_member(g, s, k, members[k])
}

/// When members are read from every subject, each subject reads as one of
/// them, at its position.
pub proof fn lemma_every_subject_reads(members: Seq<MemberView>, g: Seq<EntryView>, subjects: Seq<Seq<char>>)
    requires
        members_read(members, g, subjects),
    ensures
        forall|i: int| 0 <= i < subjects.len() ==> #[trigger] reads_some_member(g, subjects[i], members),
{
    let n = members.len() as int;
    let f = |k: int| choose|i: int| 0 <= i < subjects.len() && #[trigger] reads_member(g, subjects[i], k, members[k]);
    assert forall|k: int| 0 <= k < n implies 0 <= #[trigger] f(k) < n by {
        assert(read_at(g, subjects, k, members[k]));
    }
    assert forall|a: int, b: int| 0 <= a < n && 0 <= b < n && #[trigger] f(a) == #[trigger] f(b) implies a == b by {
        assert(read_at(g, subjects, a, members[a]));
        assert(read_at(g, subjects, b, members[b]));
    }
    lemma_injective_onto(n, f);
    assert forall|i: int| 0 <= i < subjects.len() implies #[trigger] reads_some_member(g, subjects[i], members) by {
        assert(takes_value(f, n, i));
        let k = choose|k: int| 0 <= k < n && #[trigger] f(k) == i;
        assert(read_at(g, subjects, k, members[k]));
        assert(reads_member(g, subjects[i], k, members[k]));
    }
}

/// No transform verdicts: `n` members whose transforms are all acceptable.
pub open spec fn no_problems(n: nat) -> Seq<Option<Seq<char>>> {
    Seq::new(n, |i: int| None::<Seq<char>>)
}

/// The manifest the federation graph describes ([`read_from_graph`]),
/// each member's transform text handed to `check`, whose verdict, if any, is
/// the error. Every error is [`IcddError::NotConformant`]; where the graph
/// describes a manifest whose transforms `check` always accepts, that
/// manifest is read.
fn read_manifest<F: Fn(&str) -> Option<String>>(graph: &RdfGraph, check: &F) -> (r: Result<PoingFederationManifest, IcddError>)
    requires
        forall|s: &str| #[trigger] call_requires(*check, (s,)),
    ensures
        r matches Ok(m) ==> read_from_graph(m.deep_view(), graph@) && forall|k: int|
            0 <= k < m.members@.len() ==> transform_accepted(*check, #[trigger] m.members@[k].transform@),
        r matches Err(e) ==> e is NotConformant,
        (exists|m: ManifestView|
            #[trigger] read_from_graph(m, graph@) && forall|k: int|
                0 <= k < m.members.len() ==> transform_always_accepted(*check, #[trigger] m.members[k].transform))
            ==> r is Ok,
{
    let ghost good = exists|m: ManifestView|
        #[trigger] read_from_graph(m, graph@) && forall|k: int|
            0 <= k < m.members.len() ==> transform_always_accepted(*check, #[trigger] m.members[k].transform);
    let ghost chosen = choose|m: ManifestView|
        #[trigger] read_from_graph(m, graph@) && forall|k: int|
            0 <= k < m.members.len() ==> transform_always_accepted(*check, #[trigger] m.members[k].transform);
    proof {
        if good {
            lemma_every_subject_reads(chosen.members, graph@, subjects_typed(graph@, poing_term("Member"@)));
        }
    }
    let roots = graph.subjects_of_type_ns(POING, "Federation");
    if roots.len() != 1 {
        let count = decimal_string(roots.len() as u64);
        let detail = concat("Poing federation RDF must contain exactly one Federation subject, found ", count.as_str());
        return Err(not_conformant(detail));
    }
    let root = roots[0];
    let ghost g = graph@;
    let subjects = graph.subjects_of_type_ns(POING, "Member");
    let ghost sv = subjects@.map_values(|x: &str| x@);
    assert(sv == subjects_typed(g, poing_term("Member"@)));
    let mut parsed: Vec<(usize, PoingFederationMember)> = Vec::new();
    let mut k: usize = 0;
    while k < subjects.len()
        invariant
            k <= subjects.len(),
            g == graph@,
            sv == subjects@.map_values(|x: &str| x@),
            sv == subjects_typed(g, poing_term("Member"@)),
            good == exists|m: ManifestView|
                #[trigger] read_from_graph(m, graph@) && forall|k: int|
                    0 <= k < m.members.len() ==> transform_always_accepted(*check, #[trigger] m.members[k].transform),
            good ==> read_from_graph(chosen, g) && forall|i: int|
                0 <= i < sv.len() ==> #[trigger] reads_some_member(g, sv[i], chosen.members),
            good ==> forall|i: int|
                0 <= i < chosen.members.len() ==> transform_always_accepted(*check, #[trigger] chosen.members[i].transform),
            parsed.len() == k,
            forall|s: &str| #[trigger] call_requires(*check, (s,)),
            forall|a: int|
                0 <= a < parsed.deep_view().len() ==> transform_accepted(
                    *check,
                    #[trigger] parsed.deep_view()[a].1.transform,
                ),
            forall|a: int|
                #![trigger parsed.deep_view()[a]]
                0 <= a < parsed.deep_view().len() ==> reads_member(g, sv[a], parsed.deep_view()[a].0 as int, parsed.deep_view()[a].1),
        decreases subjects.len() - k,
    {
        assert(sv[k as int] == subjects@[k as int]@);
        proof {
            if good {
                assert(reads_some_member(g, sv[k as int], chosen.members));
                let kk = choose|kk: int| 0 <= kk < chosen.members.len() && #[trigger] reads_member(g, sv[k as int], kk, chosen.members[kk]);
                assert(transform_always_accepted(*check, chosen.members[kk].transform));
                assert(spec_member(graph@, subjects[k as int]@) == Ok::<(nat, MemberView), Seq<char>>((kk as nat, chosen.members[kk])));
            }
        }
        let entry = parse_member(&graph, subjects[k], check)?;
        let ghost before = parsed.deep_view();
        let ghost ev = entry.deep_view();
        assert(reads_member(g, sv[k as int], ev.0 as int, ev.1));
        parsed.push(entry);
        assert(parsed.deep_view() =~= before.push(ev));
        k = k + 1;
    }
    let ghost pv = parsed.deep_view();
    proof {
        if good {
            let orders = pv.map_values(|e: (usize, MemberView)| e.0);
            assert forall|i: int| 0 <= i < orders.len() implies #[trigger] has_order(orders, i) by {
                assert(read_at(g, sv, i, chosen.members[i]));
                let a = choose|a: int| 0 <= a < sv.len() && #[trigger] reads_member(g, sv[a], i, chosen.members[i]);
                assert(reads_member(g, sv[a], pv[a].0 as int, pv[a].1));
                assert(orders[a] == i);
            }
        }
    }
    let members = order_members(&parsed)?;
    let ghost msv = members.deep_view();
    proof {
        lemma_members_read(pv, msv, g, sv);
    }
    assert forall|k: int| 0 <= k < members.deep_view().len() implies transform_accepted(
        *check,
        #[trigger] members.deep_view()[k].transform,
    ) by {
        assert(member_of_order(pv, k, members.deep_view()[k]));
        let j = choose|j: int| 0 <= j < pv.len() && #[trigger] pv[j] == (k as usize, members.deep_view()[k]);
        assert(pv[j].1.transform == members.deep_view()[k].transform);
    }
    let id = required(&graph, root, "id")?;
    let uuid_text = required(&graph, root, "uuid")?;
    let uuid = parse_uuid(uuid_text.as_str())?;
    let name = required(&graph, root, "name")?;
    let primary_member_id = required(&graph, root, "primaryMemberId")?;
    let coordinate_reference_system = graph.literal_ns(root, POING, "crs");
    let manifest = PoingFederationManifest { id, uuid, name, primary_member_id, coordinate_reference_system, members };
    let ghost mv = manifest.deep_view();
    assert(mv.members == msv);
    assert(roots@.map_values(|x: &str| x@)[0] == roots@[0]@);
    assert(root@ == subjects_typed(g, poing_term("Federation"@))[0]);
    assert(poing_literal(g, root@, "id"@) == Some(mv.id));
    assert(poing_literal(g, root@, "uuid"@) matches Some(t) && uuid_parse(t) == Some(mv.uuid));
    assert(poing_literal(g, root@, "name"@) == Some(mv.name));
    assert(poing_literal(g, root@, "primaryMemberId"@) == Some(mv.primary_member_id));
    assert(poing_literal(g, root@, "crs"@) == mv.coordinate_reference_system);
    assert(sv == subjects_typed(g, poing_term("Member"@)));
    assert(members_read(mv.members, g, sv));
    assert(federation_read(mv, g, subjects_typed(g, poing_term("Federation"@))));
    assert(read_from_graph(mv, g));
    assert(forall|k: int|
        0 <= k < manifest.members@.len() ==> #[trigger] manifest.members@[k].transform@
            == manifest.members.deep_view()[k].transform);
    Ok(manifest)
}

/// Parse the portable Poing federation extension from an ICDD container.
///
/// The container is opened, its federation metadata document (the first
/// internal document named `poing-federation.rdf`) is parsed, it must hold
/// exactly one federation, and each member's transform text is handed to
/// `check`, whose verdict, if any, is the error. The members come in the order
/// their `poing:order` gives, which must run from zero without gaps. The
/// manifest must be valid, and each member's source must name an available
/// model document of the container.
#[verifier::rlimit(40)]
pub fn parse_poing_federation_icdd<F: Fn(&str) -> Option<String>>(bytes: &[u8], check: &F) -> (r: Result<PoingFederationManifest, IcddError>)
    requires
        forall|s: &str| #[trigger] call_requires(*check, (s,)),
    ensures
        r matches Ok(m) ==> {
            &&& manifest_problem(m.deep_view(), no_problems(m.members@.len() as nat)) is None
            &&& forall|k: int|
                0 <= k < m.members@.len() ==> transform_accepted(*check, #[trigger] m.members@[k].transform@)
        },
        zip_reading(bytes@) is None ==> (r matches Err(e) && e is Zip),
        zip_reading(bytes@) matches Some((names, sizes, data)) ==> {
            &&& names_refusal(names) matches Some(d) ==> (r matches Err(e) && e.is_not_conformant(d))
            &&& names_refusal(names) is None ==> open_outcome(
                bytes@,
                names,
                sizes,
                data,
                r,
                (|iv: IndexView|
                    (forall|i: int| 0 <= i < iv.documents.len() ==> !is_metadata_document(#[trigger] iv.documents[i]))
                        ==> (r matches Err(e) && e.is_not_conformant(
                        "ICDD has no Poing federation metadata document"@,
                    ))),
            )
        },
        federation_opens(bytes@, *check) ==> r is Ok,
        federation_graph_parses(bytes@) ==> (r matches Err(e) ==> e is NotConformant),
        lacks_metadata_document(bytes@) ==> (r matches Err(e) && e.is_not_conformant(
            "ICDD has no Poing federation metadata document"@,
        )),
        r matches Ok(m) ==> exists|c: IcddContainerView, j: int|
            {
                &&& reads_back(bytes@, c.zip.names, c.zip.sizes, c.zip.data)
                &&& zip_reading(bytes@) == Some((c.zip.names, c.zip.sizes, c.zip.data))
                &&& index_from_archive(c.zip, c.index)
                &&& metadata_read(c, j, m.deep_view())
                &&& 0 <= j < c.index.documents.len()
                &&& is_metadata_document(#[trigger] c.index.documents[j])
                &&& forall|i: int| 0 <= i < j ==> !is_metadata_document(c.index.documents[i])
                &&& first_source_problem(
                    m.members.deep_view(),
                    c.index.documents,
                    c.index.documents[j].id,
                    c.zip.names,
                    0,
                ) is None
            },
{
    let ghost input = bytes@;
    let ghost good = federation_opens(input, *check);
    let ghost parses = federation_graph_parses(input);
    let data = vstd::slice::slice_to_vec(bytes);
    assert(data@ == input);
    let mut container = IcddContainer::open(data)?;
    let ghost opened = container@;
    proof {
        if good || parses {
            let gi = choose|gi: Seq<EntryView>|
                #[trigger] graph_read(opened.zip.data[opened.zip.index_path], gi) && spec_index(gi) == Ok::<
                    IndexView,
                    Seq<char>,
                >(opened.index);
            assert(seq![opened.zip.index_path][0] == opened.zip.index_path);
            assert(root_indexes(opened.zip.names)[0] == opened.zip.index_path);
            assert(graph_read(opened.zip.data[root_indexes(opened.zip.names)[0]], gi));
        }
    }
    assert(good ==> metadata_reads(input, opened.zip.names, opened.zip.sizes, opened.zip.data, opened.index, *check));
    let ghost has_meta = exists|j: int|
        #[trigger] metadata_parses(input, opened.zip.names, opened.zip.sizes, opened.zip.data, opened.index, j);
    assert(good || parses ==> has_meta);
    proof {
        if lacks_metadata_document(input) {
            let g = choose|g: Seq<EntryView>|
                #[trigger] graph_read(opened.zip.data[opened.zip.index_path], g) && spec_index(g) == Ok::<
                    IndexView,
                    Seq<char>,
                >(opened.index);
            assert(seq![opened.zip.index_path][0] == opened.zip.index_path);
            assert(root_indexes(opened.zip.names)[0] == opened.zip.index_path);
            assert(zip_reading(input) == Some((opened.zip.names, opened.zip.sizes, opened.zip.data)));
            assert(graph_read(opened.zip.data[opened.zip.index_path], g));
        }
    }
    assert(lacks_metadata_document(input) ==> forall|i: int|
        0 <= i < opened.index.documents.len() ==> !is_metadata_document(#[trigger] opened.index.documents[i]));
    let ghost docs_view = container@.index.documents;
    let ghost mut position: int = 0;
    let document = {
        let docs = &container.index().documents;
        let mut found: Option<usize> = None;
        let mut i: usize = 0;
        while i < docs.len()
            invariant
                i <= docs.len(),
                docs.deep_view() == docs_view,
                found matches Some(j) ==> j < i && is_metadata_document(docs_view[j as int]) && forall|
                    k: int,
                | 0 <= k < j ==> !is_metadata_document(#[trigger] docs_view[k]),
                found is None ==> forall|k: int| 0 <= k < i ==> !is_metadata_document(#[trigger] docs_view[k]),
            decreases docs.len() - i,
        {
            assert(docs[i as int].deep_view() == docs_view[i as int]);
            if found.is_none() {
                match docs[i].internal_path() {
                    Some(p) => {
                        if str_eq(p, FEDERATION_RDF) {
                            found = Some(i);
                        }
                    },
                    None => {},
                }
            }
            i = i + 1;
        }
        proof {
            if has_meta {
                let j0 = choose|j0: int|
                    #[trigger] metadata_parses(input, opened.zip.names, opened.zip.sizes, opened.zip.data, opened.index, j0);
                assert(is_metadata_document(docs_view[j0]));
            }
        }
        match found {
            Some(j) => {
                proof {
                    position = j as int;
                }
                assert(docs[j as int].deep_view() == docs_view[j as int]);
                docs[j].duplicate()
            },
            None => {
                return Err(not_conformant(owned("ICDD has no Poing federation metadata document")));
            },
        }
    };
    proof {
        if has_meta {
            let j0 = choose|j0: int|
                #[trigger] metadata_parses(input, opened.zip.names, opened.zip.sizes, opened.zip.data, opened.index, j0);
            assert(first_metadata_document(opened.index, position));
            assert(j0 == position) by {
                if j0 < position {
                    assert(!is_metadata_document(opened.index.documents[j0]));
                } else if position < j0 {
                    assert(!is_metadata_document(opened.index.documents[position]));
                }
            }
            assert(spec_internal_path(document.deep_view()) == Some(FEDERATION_RDF@));
        }
    }
    let rdf = container.payload_bytes(&document)?;
    let graph = RdfGraph::parse(rdf.as_slice())?;
    let ghost chosen = choose|m: ManifestView| #[trigger] read_from_graph(m, graph@) && manifest_accepted(
        m,
        opened.index,
        position,
        opened.zip.names,
        *check,
    );
    proof {
        if good {
            let p = spec_resolve(opened.zip.names, PAYLOAD_DOCS_DIR@, FEDERATION_RDF@)->Ok_0;
            assert(rdf@ == opened.zip.data[p]);
            assert(graph_read(opened.zip.data[p], graph@));
            let j0 = choose|j0: int|
                #[trigger] metadata_parses(input, opened.zip.names, opened.zip.sizes, opened.zip.data, opened.index, j0)
                    && forall|g: Seq<EntryView>| #[trigger] graph_read(opened.zip.data[p], g) ==> exists|m: ManifestView|
                        #[trigger] read_from_graph(m, g) && manifest_accepted(m, opened.index, j0, opened.zip.names, *check);
            assert(j0 == position) by {
                if j0 < position {
                    assert(!is_metadata_document(opened.index.documents[j0]));
                } else if position < j0 {
                    assert(!is_metadata_document(opened.index.documents[position]));
                }
            }
            assert(forall|k: int|
                0 <= k < chosen.members.len() ==> transform_always_accepted(*check, #[trigger] chosen.members[k].transform));
        }
    }
    let manifest = read_manifest(&graph, check)?;
    let ghost mv = manifest.deep_view();
    proof {
        if good {
            lemma_read_from_graph_unique(chosen, mv, graph@);
        }
    }
    let mut checks: Vec<Option<String>> = Vec::new();
    let mut c: usize = 0;
    while c < manifest.members.len()
        invariant
            c <= manifest.members.len(),
            checks@.len() == c,
            checks.deep_view() == no_problems(c as nat),
        decreases manifest.members.len() - c,
    {
        let ghost before = checks.deep_view();
        let none: Option<String> = None;
        checks.push(none);
        assert(checks.deep_view() =~= before.push(None::<Seq<char>>));
        assert(checks.deep_view() =~= no_problems((c + 1) as nat));
        c = c + 1;
    }
    validate_manifest(&manifest, checks.as_slice())?;
    assert(forall|k: int| 0 <= k < manifest.members@.len() ==> #[trigger] manifest.members@[k].transform@ == manifest.members.deep_view()[k].transform);
    check_member_sources(&manifest.members, &container, document.id.as_str())?;
    assert(container@ == opened);
    assert(is_metadata_document(container@.index.documents[position]));
    assert(graph_read(rdf@, graph@));
    assert(metadata_read(container@, position, manifest.deep_view()));
    Ok(manifest)
}

// ---------------------------------------------------------------------------
// Reading back the federation graph
/// The statements about `s` in two runs of statements are those of each run.
proof fn lemma_pairs_about_concat(a: Seq<Statement>, b: Seq<Statement>, s: Seq<char>)
    ensures
        pairs_about(a + b, s) == pairs_about(a, s) + pairs_about(b, s),
    decreases b.len(),
{
    if b.len() == 0 {
        assert(a + b =~= a);
        assert(pairs_about(a, s) + pairs_about(b, s) =~= pairs_about(a, s));
    } else {
        lemma_pairs_about_concat(a, b.drop_last(), s);
        assert((a + b).drop_last() =~= a + b.drop_last());
        assert((a + b).last() == b.last());
        if b.last().0 == s {
            assert(pairs_about(a, s) + pairs_about(b, s) =~= (pairs_about(a, s) + pairs_about(b.drop_last(), s)).push(b.last().1));
        }
    }
}

/// No statement is about `s`.
proof fn lemma_pairs_about_none(ts: Seq<Statement>, s: Seq<char>)
    requires
        forall|i: int| 0 <= i < ts.len() ==> (#[trigger] ts[i]).0 != s,
    ensures
        pairs_about(ts, s) == Seq::<PairView>::empty(),
    decreases ts.len(),
{
    if ts.len() > 0 {
        let init = ts.drop_last();
        assert forall|i: int| 0 <= i < init.len() implies (#[trigger] init[i]).0 != s by {
            assert(init[i] == ts[i]);
        }
        lemma_pairs_about_none(init, s);
        assert(ts.last() == ts[ts.len() - 1]);
    }
}

/// Every statement is about `s`.
proof fn lemma_pairs_about_all(ts: Seq<Statement>, s: Seq<char>)
    requires
        forall|i: int| 0 <= i < ts.len() ==> (#[trigger] ts[i]).0 == s,
    ensures
        pairs_about(ts, s) == ts.map_values(|t: Statement| t.1),
    decreases ts.len(),
{
    if ts.len() > 0 {
        let init = ts.drop_last();
        assert forall|i: int| 0 <= i < init.len() implies (#[trigger] init[i]).0 == s by {
            assert(init[i] == ts[i]);
        }
        lemma_pairs_about_all(init, s);
        assert(ts.last() == ts[ts.len() - 1]);
        assert(ts.map_values(|t: Statement| t.1) =~= init.map_values(|t: Statement| t.1).push(ts.last().1));
    }
}

/// The objects of `p` among pairs of which exactly the one at `i` has
/// predicate `p`.
proof fn lemma_objects_single(pairs: Seq<PairView>, p: Seq<char>, i: int)
    requires
        0 <= i < pairs.len(),
        pairs[i].0 == p,
        forall|j: int| 0 <= j < pairs.len() && j != i ==> (#[trigger] pairs[j]).0 != p,
    ensures
        objects_with(pairs, p) == seq![pairs[i].1],
    decreases pairs.len(),
{
    let init = pairs.drop_last();
    if i == pairs.len() - 1 {
        assert forall|j: int| 0 <= j < init.len() implies (#[trigger] init[j]).0 != p by {
            assert(init[j] == pairs[j]);
        }
        lemma_objects_none(init, p);
        assert(objects_with(pairs, p) =~= seq![pairs[i].1]);
    } else {
        assert forall|j: int| 0 <= j < init.len() && j != i implies (#[trigger] init[j]).0 != p by {
            assert(init[j] == pairs[j]);
        }
        assert(init[i] == pairs[i]);
        lemma_objects_single(init, p, i);
        assert(pairs.last() == pairs[pairs.len() - 1]);
    }
}

/// No pair has predicate `p`.
proof fn lemma_objects_none(pairs: Seq<PairView>, p: Seq<char>)
    requires
        forall|j: int| 0 <= j < pairs.len() ==> (#[trigger] pairs[j]).0 != p,
    ensures
        objects_with(pairs, p) == Seq::<ObjView>::empty(),
    decreases pairs.len(),
{
    if pairs.len() > 0 {
        let init = pairs.drop_last();
        assert forall|j: int| 0 <= j < init.len() implies (#[trigger] init[j]).0 != p by {
            assert(init[j] == pairs[j]);
        }
        lemma_objects_none(init, p);
        assert(pairs.last() == pairs[pairs.len() - 1]);
    }
}

/// The decimal text of a number is read back as that number.
proof fn lemma_decimal_parses(n: nat)
    ensures
        decimal(n).len() > 0,
        all_digits(decimal(n)),
        digits_value(decimal(n)) == n,
        decimal(n)[0] != '+',
    decreases n,
{
    assert(crate::text::digit_char(n % 10) as nat == n % 10 + 48);
    if n < 10 {
        assert(decimal(n) == seq![crate::text::digit_char(n)]);
        assert(seq![crate::text::digit_char(n)].drop_last() =~= Seq::<char>::empty());
        assert(n % 10 == n);
        assert(digits_value(decimal(n)) == digits_value(Seq::<char>::empty()) * 10 + (n % 10));
    } else {
        lemma_decimal_parses(n / 10);
        let d = decimal(n);
        assert(d == decimal(n / 10).push(crate::text::digit_char(n % 10)));
        assert(d.drop_last() =~= decimal(n / 10));
        assert(d[0] == decimal(n / 10)[0]);
        assert(d.last() == crate::text::digit_char(n % 10));
        assert(n == (n / 10) * 10 + n % 10) by (nonlinear_arith);
        assert(digits_value(d) == digits_value(decimal(n / 10)) * 10 + (n % 10));
    }
}

/// Two Poing terms are equal only for equal local names.
proof fn lemma_poing_term_injective(a: Seq<char>, b: Seq<char>)
    ensures
        poing_term(a) == poing_term(b) ==> a == b,
{
    if poing_term(a) == poing_term(b) {
        assert(a =~= poing_term(a).subrange(POING@.len() as int, poing_term(a).len() as int));
        assert(b =~= poing_term(b).subrange(POING@.len() as int, poing_term(b).len() as int));
    }
}

/// The pairs of statements, in order.
pub open spec fn statement_pairs(ts: Seq<Statement>) -> Seq<PairView> {
    ts.map_values(|t: Statement| t.1)
}

/// The objects of `p` in two runs of pairs are those of each run.
proof fn lemma_objects_concat(a: Seq<PairView>, b: Seq<PairView>, p: Seq<char>)
    ensures
        objects_with(a + b, p) == objects_with(a, p) + objects_with(b, p),
    decreases b.len(),
{
    if b.len() == 0 {
        assert(a + b =~= a);
        assert(objects_with(a, p) + objects_with(b, p) =~= objects_with(a, p));
    } else {
        lemma_objects_concat(a, b.drop_last(), p);
        assert((a + b).drop_last() =~= a + b.drop_last());
        assert((a + b).last() == b.last());
        if b.last().0 == p {
            assert(objects_with(a, p) + objects_with(b, p) =~= (objects_with(a, p) + objects_with(b.drop_last(), p)).push(b.last().1));
        }
    }
}

/// The objects of `p` in the pair of an optional statement.
proof fn lemma_objects_optional(n: Seq<char>, local: Seq<char>, v: Option<Seq<char>>, p: Seq<char>)
    ensures
        objects_with(statement_pairs(optional_literal(n, local, v)), p) == (if poing_term(local) == p && v is Some {
            seq![ObjView::Literal(v->0)]
        } else {
            Seq::<ObjView>::empty()
        }),
{
    let part = statement_pairs(optional_literal(n, local, v));
    match v {
        Some(x) => {
            assert(part =~= seq![(poing_term(local), ObjView::Literal(x))]);
            assert(part.drop_last() =~= Seq::<PairView>::empty());
            assert(part.last() == (poing_term(local), ObjView::Literal(x)));
            assert(objects_with(part.drop_last(), p) =~= Seq::<ObjView>::empty());
            if poing_term(local) == p {
                assert(objects_with(part, p) =~= seq![ObjView::Literal(x)]);
            } else {
                assert(objects_with(part, p) =~= Seq::<ObjView>::empty());
            }
        },
        None => {
            assert(part =~= Seq::<PairView>::empty());
        },
    }
}

/// Distinct local names give distinct Poing terms, none of which is
/// `rdf:type`.
proof fn lemma_poing_terms_distinct()
    ensures
        forall|a: Seq<char>, b: Seq<char>| #[trigger] poing_term(a) == #[trigger] poing_term(b) ==> a == b,
        forall|a: Seq<char>| #[trigger] poing_term(a) != RDF_TYPE@,
{
    assert forall|a: Seq<char>, b: Seq<char>| #[trigger] poing_term(a) == #[trigger] poing_term(b) implies a == b by {
        lemma_poing_term_injective(a, b);
    }
    reveal_strlit("https://poing.dev/ns/federation/icdd/1#");
    reveal_strlit("http://www.w3.org/1999/02/22-rdf-syntax-ns#type");
    assert forall|a: Seq<char>| #[trigger] poing_term(a) != RDF_TYPE@ by {
        assert(poing_term(a)[4] == POING@[4]);
    }
}

/// Each field of a member reads back from the member's statements: the
/// first literal of its Poing predicate is the field's value.
#[verifier::rlimit(60)]
proof fn lemma_member_reads(u: u128, k: int, mv: MemberView)
    requires
        k >= 0,
    ensures
        first_literal(objects_with(statement_pairs(member_statements(u, k, mv)), poing_term("order"@))) == Some(decimal(k as nat)),
        first_literal(objects_with(statement_pairs(member_statements(u, k, mv)), poing_term("id"@))) == Some(mv.id),
        first_literal(objects_with(statement_pairs(member_statements(u, k, mv)), poing_term("uuid"@))) == Some(uuid_text(mv.uuid)),
        first_literal(objects_with(statement_pairs(member_statements(u, k, mv)), poing_term("name"@))) == Some(mv.name),
        first_literal(objects_with(statement_pairs(member_statements(u, k, mv)), poing_term("source"@))) == Some(mv.source),
        first_literal(objects_with(statement_pairs(member_statements(u, k, mv)), poing_term("transform"@))) == Some(mv.transform),
        first_literal(objects_with(statement_pairs(member_statements(u, k, mv)), poing_term("industryDomain"@))) == mv.industry_domain,
        first_literal(objects_with(statement_pairs(member_statements(u, k, mv)), poing_term("schema"@))) == mv.schema,
        first_literal(objects_with(statement_pairs(member_statements(u, k, mv)), poing_term("contentHash"@))) == mv.content_hash,
        first_literal(objects_with(statement_pairs(member_statements(u, k, mv)), poing_term("crs"@))) == mv.coordinate_reference_system,

{
    lemma_poing_terms_distinct();
    reveal_strlit("Member");
    reveal_strlit("order");
    reveal_strlit("id");
    reveal_strlit("uuid");
    reveal_strlit("name");
    reveal_strlit("source");
    reveal_strlit("transform");
    reveal_strlit("industryDomain");
    reveal_strlit("schema");
    reveal_strlit("contentHash");
    reveal_strlit("crs");
    let n = federation_member_node(u, mv.uuid);
    let fixed = seq![
        res_stmt(n, RDF_TYPE@, poing_term("Member"@)),
        lit_stmt(n, poing_term("order"@), decimal(k as nat)),
        lit_stmt(n, poing_term("id"@), mv.id),
        lit_stmt(n, poing_term("uuid"@), uuid_text(mv.uuid)),
        lit_stmt(n, poing_term("name"@), mv.name),
        lit_stmt(n, poing_term("source"@), mv.source),
        lit_stmt(n, poing_term("transform"@), mv.transform),
    ];
    let od = optional_literal(n, "industryDomain"@, mv.industry_domain);
    let os = optional_literal(n, "schema"@, mv.schema);
    let oc = optional_literal(n, "contentHash"@, mv.content_hash);
    let ox = optional_literal(n, "crs"@, mv.coordinate_reference_system);
    let pf = statement_pairs(fixed);
    let all = statement_pairs(member_statements(u, k, mv));
    assert("source"@[1] != "schema"@[1]);
    assert("Member"@[0] != "source"@[0]);
    assert("Member"@[0] != "schema"@[0]);
    assert("uuid"@[0] != "name"@[0]);
    assert(pf.len() == 7);
    assert(pf[0].0 == RDF_TYPE@);
    assert(pf[1] == (poing_term("order"@), ObjView::Literal(decimal(k as nat))));
    assert(pf[2] == (poing_term("id"@), ObjView::Literal(mv.id)));
    assert(pf[3] == (poing_term("uuid"@), ObjView::Literal(uuid_text(mv.uuid))));
    assert(pf[4] == (poing_term("name"@), ObjView::Literal(mv.name)));
    assert(pf[5] == (poing_term("source"@), ObjView::Literal(mv.source)));
    assert(pf[6] == (poing_term("transform"@), ObjView::Literal(mv.transform)));
    assert(member_statements(u, k, mv) == fixed + od + os + oc + ox);
    assert(all =~= pf + statement_pairs(od) + statement_pairs(os) + statement_pairs(oc) + statement_pairs(ox));

    assert(first_literal(objects_with(all, poing_term("order"@))) == Some(decimal(k as nat))) by {
        let p = poing_term("order"@);
        lemma_objects_concat(pf + statement_pairs(od) + statement_pairs(os) + statement_pairs(oc), statement_pairs(ox), p);
        lemma_objects_concat(pf + statement_pairs(od) + statement_pairs(os), statement_pairs(oc), p);
        lemma_objects_concat(pf + statement_pairs(od), statement_pairs(os), p);
        lemma_objects_concat(pf, statement_pairs(od), p);
        lemma_objects_optional(n, "industryDomain"@, mv.industry_domain, p);
        lemma_objects_optional(n, "schema"@, mv.schema, p);
        lemma_objects_optional(n, "contentHash"@, mv.content_hash, p);
        lemma_objects_optional(n, "crs"@, mv.coordinate_reference_system, p);
        assert(pf[1].0 == p);
        lemma_objects_single(pf, p, 1);
        assert(objects_with(all, p) =~= seq![ObjView::Literal(decimal(k as nat))]);
        assert(seq![ObjView::Literal(decimal(k as nat))].drop_first() =~= Seq::<ObjView>::empty());
    }
    assert(first_literal(objects_with(all, poing_term("id"@))) == Some(mv.id)) by {
        let p = poing_term("id"@);
        lemma_objects_concat(pf + statement_pairs(od) + statement_pairs(os) + statement_pairs(oc), statement_pairs(ox), p);
        lemma_objects_concat(pf + statement_pairs(od) + statement_pairs(os), statement_pairs(oc), p);
        lemma_objects_concat(pf + statement_pairs(od), statement_pairs(os), p);
        lemma_objects_concat(pf, statement_pairs(od), p);
        lemma_objects_optional(n, "industryDomain"@, mv.industry_domain, p);
        lemma_objects_optional(n, "schema"@, mv.schema, p);
        lemma_objects_optional(n, "contentHash"@, mv.content_hash, p);
        lemma_objects_optional(n, "crs"@, mv.coordinate_reference_system, p);
        assert(pf[2].0 == p);
        lemma_objects_single(pf, p, 2);
        assert(objects_with(all, p) =~= seq![ObjView::Literal(mv.id)]);
        assert(seq![ObjView::Literal(mv.id)].drop_first() =~= Seq::<ObjView>::empty());
    }
    assert(first_literal(objects_with(all, poing_term("uuid"@))) == Some(uuid_text(mv.uuid))) by {
        let p = poing_term("uuid"@);
        lemma_objects_concat(pf + statement_pairs(od) + statement_pairs(os) + statement_pairs(oc), statement_pairs(ox), p);
        lemma_objects_concat(pf + statement_pairs(od) + statement_pairs(os), statement_pairs(oc), p);
        lemma_objects_concat(pf + statement_pairs(od), statement_pairs(os), p);
        lemma_objects_concat(pf, statement_pairs(od), p);
        lemma_objects_optional(n, "industryDomain"@, mv.industry_domain, p);
        lemma_objects_optional(n, "schema"@, mv.schema, p);
        lemma_objects_optional(n, "contentHash"@, mv.content_hash, p);
        lemma_objects_optional(n, "crs"@, mv.coordinate_reference_system, p);
        assert(pf[3].0 == p);
        lemma_objects_single(pf, p, 3);
        assert(objects_with(all, p) =~= seq![ObjView::Literal(uuid_text(mv.uuid))]);
        assert(seq![ObjView::Literal(uuid_text(mv.uuid))].drop_first() =~= Seq::<ObjView>::empty());
    }
    assert(first_literal(objects_with(all, poing_term("name"@))) == Some(mv.name)) by {
        let p = poing_term("name"@);
        lemma_objects_concat(pf + statement_pairs(od) + statement_pairs(os) + statement_pairs(oc), statement_pairs(ox), p);
        lemma_objects_concat(pf + statement_pairs(od) + statement_pairs(os), statement_pairs(oc), p);
        lemma_objects_concat(pf + statement_pairs(od), statement_pairs(os), p);
        lemma_objects_concat(pf, statement_pairs(od), p);
        lemma_objects_optional(n, "industryDomain"@, mv.industry_domain, p);
        lemma_objects_optional(n, "schema"@, mv.schema, p);
        lemma_objects_optional(n, "contentHash"@, mv.content_hash, p);
        lemma_objects_optional(n, "crs"@, mv.coordinate_reference_system, p);
        assert(pf[4].0 == p);
        lemma_objects_single(pf, p, 4);
        assert(objects_with(all, p) =~= seq![ObjView::Literal(mv.name)]);
        assert(seq![ObjView::Literal(mv.name)].drop_first() =~= Seq::<ObjView>::empty());
    }
    assert(first_literal(objects_with(all, poing_term("source"@))) == Some(mv.source)) by {
        let p = poing_term("source"@);
        lemma_objects_concat(pf + statement_pairs(od) + statement_pairs(os) + statement_pairs(oc), statement_pairs(ox), p);
        lemma_objects_concat(pf + statement_pairs(od) + statement_pairs(os), statement_pairs(oc), p);
        lemma_objects_concat(pf + statement_pairs(od), statement_pairs(os), p);
        lemma_objects_concat(pf, statement_pairs(od), p);
        lemma_objects_optional(n, "industryDomain"@, mv.industry_domain, p);
        lemma_objects_optional(n, "schema"@, mv.schema, p);
        lemma_objects_optional(n, "contentHash"@, mv.content_hash, p);
        lemma_objects_optional(n, "crs"@, mv.coordinate_reference_system, p);
        assert(pf[5].0 == p);
        lemma_objects_single(pf, p, 5);
        assert(objects_with(all, p) =~= seq![ObjView::Literal(mv.source)]);
        assert(seq![ObjView::Literal(mv.source)].drop_first() =~= Seq::<ObjView>::empty());
    }
    assert(first_literal(objects_with(all, poing_term("transform"@))) == Some(mv.transform)) by {
        let p = poing_term("transform"@);
        lemma_objects_concat(pf + statement_pairs(od) + statement_pairs(os) + statement_pairs(oc), statement_pairs(ox), p);
        lemma_objects_concat(pf + statement_pairs(od) + statement_pairs(os), statement_pairs(oc), p);
        lemma_objects_concat(pf + statement_pairs(od), statement_pairs(os), p);
        lemma_objects_concat(pf, statement_pairs(od), p);
        lemma_objects_optional(n, "industryDomain"@, mv.industry_domain, p);
        lemma_objects_optional(n, "schema"@, mv.schema, p);
        lemma_objects_optional(n, "contentHash"@, mv.content_hash, p);
        lemma_objects_optional(n, "crs"@, mv.coordinate_reference_system, p);
        assert(pf[6].0 == p);
        lemma_objects_single(pf, p, 6);
        assert(objects_with(all, p) =~= seq![ObjView::Literal(mv.transform)]);
        assert(seq![ObjView::Literal(mv.transform)].drop_first() =~= Seq::<ObjView>::empty());
    }
    assert(first_literal(objects_with(all, poing_term("industryDomain"@))) == mv.industry_domain) by {
        let p = poing_term("industryDomain"@);
        lemma_objects_concat(pf + statement_pairs(od) + statement_pairs(os) + statement_pairs(oc), statement_pairs(ox), p);
        lemma_objects_concat(pf + statement_pairs(od) + statement_pairs(os), statement_pairs(oc), p);
        lemma_objects_concat(pf + statement_pairs(od), statement_pairs(os), p);
        lemma_objects_concat(pf, statement_pairs(od), p);
        lemma_objects_optional(n, "industryDomain"@, mv.industry_domain, p);
        lemma_objects_optional(n, "schema"@, mv.schema, p);
        lemma_objects_optional(n, "contentHash"@, mv.content_hash, p);
        lemma_objects_optional(n, "crs"@, mv.coordinate_reference_system, p);
        lemma_objects_none(pf, p);
        match mv.industry_domain {
            Some(x) => {
                assert(objects_with(all, p) =~= seq![ObjView::Literal(x)]);
                assert(seq![ObjView::Literal(x)].drop_first() =~= Seq::<ObjView>::empty());
            },
            None => {
                assert(objects_with(all, p) =~= Seq::<ObjView>::empty());
            },
        }
    }
    assert(first_literal(objects_with(all, poing_term("schema"@))) == mv.schema) by {
        let p = poing_term("schema"@);
        lemma_objects_concat(pf + statement_pairs(od) + statement_pairs(os) + statement_pairs(oc), statement_pairs(ox), p);
        lemma_objects_concat(pf + statement_pairs(od) + statement_pairs(os), statement_pairs(oc), p);
        lemma_objects_concat(pf + statement_pairs(od), statement_pairs(os), p);
        lemma_objects_concat(pf, statement_pairs(od), p);
        lemma_objects_optional(n, "industryDomain"@, mv.industry_domain, p);
        lemma_objects_optional(n, "schema"@, mv.schema, p);
        lemma_objects_optional(n, "contentHash"@, mv.content_hash, p);
        lemma_objects_optional(n, "crs"@, mv.coordinate_reference_system, p);
        lemma_objects_none(pf, p);
        match mv.schema {
            Some(x) => {
                assert(objects_with(all, p) =~= seq![ObjView::Literal(x)]);
                assert(seq![ObjView::Literal(x)].drop_first() =~= Seq::<ObjView>::empty());
            },
            None => {
                assert(objects_with(all, p) =~= Seq::<ObjView>::empty());
            },
        }
    }
    assert(first_literal(objects_with(all, poing_term("contentHash"@))) == mv.content_hash) by {
        let p = poing_term("contentHash"@);
        lemma_objects_concat(pf + statement_pairs(od) + statement_pairs(os) + statement_pairs(oc), statement_pairs(ox), p);
        lemma_objects_concat(pf + statement_pairs(od) + statement_pairs(os), statement_pairs(oc), p);
        lemma_objects_concat(pf + statement_pairs(od), statement_pairs(os), p);
        lemma_objects_concat(pf, statement_pairs(od), p);
        lemma_objects_optional(n, "industryDomain"@, mv.industry_domain, p);
        lemma_objects_optional(n, "schema"@, mv.schema, p);
        lemma_objects_optional(n, "contentHash"@, mv.content_hash, p);
        lemma_objects_optional(n, "crs"@, mv.coordinate_reference_system, p);
        lemma_objects_none(pf, p);
        match mv.content_hash {
            Some(x) => {
                assert(objects_with(all, p) =~= seq![ObjView::Literal(x)]);
                assert(seq![ObjView::Literal(x)].drop_first() =~= Seq::<ObjView>::empty());
            },
            None => {
                assert(objects_with(all, p) =~= Seq::<ObjView>::empty());
            },
        }
    }
    assert(first_literal(objects_with(all, poing_term("crs"@))) == mv.coordinate_reference_system) by {
        let p = poing_term("crs"@);
        lemma_objects_concat(pf + statement_pairs(od) + statement_pairs(os) + statement_pairs(oc), statement_pairs(ox), p);
        lemma_objects_concat(pf + statement_pairs(od) + statement_pairs(os), statement_pairs(oc), p);
        lemma_objects_concat(pf + statement_pairs(od), statement_pairs(os), p);
        lemma_objects_concat(pf, statement_pairs(od), p);
        lemma_objects_optional(n, "industryDomain"@, mv.industry_domain, p);
        lemma_objects_optional(n, "schema"@, mv.schema, p);
        lemma_objects_optional(n, "contentHash"@, mv.content_hash, p);
        lemma_objects_optional(n, "crs"@, mv.coordinate_reference_system, p);
        lemma_objects_none(pf, p);
        match mv.coordinate_reference_system {
            Some(x) => {
                assert(objects_with(all, p) =~= seq![ObjView::Literal(x)]);
                assert(seq![ObjView::Literal(x)].drop_first() =~= Seq::<ObjView>::empty());
            },
            None => {
                assert(objects_with(all, p) =~= Seq::<ObjView>::empty());
            },
        }
    }
}

/// Every statement about a member is made of the member's node.
proof fn lemma_member_subjects(u: u128, k: int, mv: MemberView)
    ensures
        forall|i: int|
            0 <= i < member_statements(u, k, mv).len() ==> (#[trigger] member_statements(u, k, mv)[i]).0
                == federation_member_node(u, mv.uuid),
{
    let n = federation_member_node(u, mv.uuid);
    let fixed = seq![
        res_stmt(n, RDF_TYPE@, poing_term("Member"@)),
        lit_stmt(n, poing_term("order"@), decimal(k as nat)),
        lit_stmt(n, poing_term("id"@), mv.id),
        lit_stmt(n, poing_term("uuid"@), uuid_text(mv.uuid)),
        lit_stmt(n, poing_term("name"@), mv.name),
        lit_stmt(n, poing_term("source"@), mv.source),
        lit_stmt(n, poing_term("transform"@), mv.transform),
    ];
    let od = optional_literal(n, "industryDomain"@, mv.industry_domain);
    let os = optional_literal(n, "schema"@, mv.schema);
    let oc = optional_literal(n, "contentHash"@, mv.content_hash);
    let ox = optional_literal(n, "crs"@, mv.coordinate_reference_system);
    let all = member_statements(u, k, mv);
    assert(all == fixed + od + os + oc + ox);
    assert forall|i: int| 0 <= i < all.len() implies (#[trigger] all[i]).0 == n by {
        let a = fixed.len() as int;
        let b = a + od.len();
        let c = b + os.len();
        let d = c + oc.len();
        if i < a {
            assert(all[i] == fixed[i]);
        } else if i < b {
            assert(all[i] == od[i - a]);
        } else if i < c {
            assert(all[i] == os[i - b]);
        } else if i < d {
            assert(all[i] == oc[i - c]);
        } else {
            assert(all[i] == ox[i - d]);
        }
    }
}

/// The statements about member `k`'s node among those of the first `count`
/// members are member `k`'s own, when the members' nodes are distinct.
proof fn lemma_members_about(m: ManifestView, count: nat, k: int)
    requires
        count <= m.members.len(),
        0 <= k < m.members.len(),
        forall|i: int, j: int|
            0 <= i < m.members.len() && 0 <= j < m.members.len() && i != j ==> federation_member_node(
                m.uuid,
                #[trigger] m.members[i].uuid,
            ) != federation_member_node(m.uuid, #[trigger] m.members[j].uuid),
    ensures
        pairs_about(federation_members(m, count), federation_member_node(m.uuid, m.members[k].uuid)) == (
        if k < count {
            statement_pairs(member_statements(m.uuid, k, m.members[k]))
        } else {
            Seq::<PairView>::empty()
        }),
    decreases count,
{
    let node = federation_member_node(m.uuid, m.members[k].uuid);
    if count == 0 {
        assert(federation_members(m, 0) =~= Seq::<Statement>::empty());
    } else {
        let j = count - 1;
        lemma_members_about(m, (count - 1) as nat, k);
        let block = member_statements(m.uuid, j, m.members[j]);
        lemma_pairs_about_concat(federation_members(m, (count - 1) as nat), block, node);
        lemma_member_subjects(m.uuid, j, m.members[j]);
        if j == k {
            lemma_pairs_about_all(block, node);
            assert(Seq::<PairView>::empty() + statement_pairs(block) =~= statement_pairs(block));
        } else {
            assert forall|i: int| 0 <= i < block.len() implies (#[trigger] block[i]).0 != node by {
                assert(block[i].0 == federation_member_node(m.uuid, m.members[j].uuid));
            }
            lemma_pairs_about_none(block, node);
            assert(pairs_about(federation_members(m, (count - 1) as nat), node) + Seq::<PairView>::empty()
                =~= pairs_about(federation_members(m, (count - 1) as nat), node));
        }
    }
}

/// Members with distinct UUIDs, each read back from its text, have distinct
/// nodes in the federation graph.
proof fn lemma_member_nodes_distinct(m: ManifestView)
    requires
        forall|i: int, j: int| 0 <= i < j < m.members.len() ==> #[trigger] m.members[i].uuid != #[trigger] m.members[j].uuid,
        forall|i: int|
            0 <= i < m.members.len() ==> uuid_parse(uuid_text(#[trigger] m.members[i].uuid)) == Some(
                m.members[i].uuid,
            ),
    ensures
        forall|i: int, j: int|
            0 <= i < m.members.len() && 0 <= j < m.members.len() && i != j ==> federation_member_node(
                m.uuid,
                #[trigger] m.members[i].uuid,
            ) != federation_member_node(m.uuid, #[trigger] m.members[j].uuid),
{
    let base = federation_base(m.uuid);
    reveal_strlit("member-");
    assert forall|i: int, j: int|
        0 <= i < m.members.len() && 0 <= j < m.members.len() && i != j implies federation_member_node(
        m.uuid,
        #[trigger] m.members[i].uuid,
    ) != federation_member_node(m.uuid, #[trigger] m.members[j].uuid) by {
        let a = federation_member_node(m.uuid, m.members[i].uuid);
        let b = federation_member_node(m.uuid, m.members[j].uuid);
        if a == b {
            let start = base.len() + "member-"@.len();
            assert(uuid_text(m.members[i].uuid) =~= a.subrange(start as int, a.len() as int));
            assert(uuid_text(m.members[j].uuid) =~= b.subrange(start as int, b.len() as int));
            if i < j {
                assert(m.members[i].uuid != m.members[j].uuid);
            } else {
                assert(m.members[j].uuid != m.members[i].uuid);
            }
        }
    }
}

/// The federation node and the member nodes differ.
proof fn lemma_root_not_member_node(u: u128, member: u128)
    ensures
        federation_root(u) != federation_member_node(u, member),
{
    let base = federation_base(u);
    reveal_strlit("federation-");
    reveal_strlit("member-");
    assert(federation_root(u)[base.len() as int] == 'f');
    assert(federation_member_node(u, member)[base.len() as int] == 'm');
}

/// In the federation graph, the pairs on a member's node are those of the
/// member's statements.
proof fn lemma_node_pairs(m: ManifestView, k: int)
    requires
        0 <= k < m.members.len(),
        forall|i: int, j: int| 0 <= i < j < m.members.len() ==> #[trigger] m.members[i].uuid != #[trigger] m.members[j].uuid,
        forall|i: int|
            0 <= i < m.members.len() ==> uuid_parse(uuid_text(#[trigger] m.members[i].uuid)) == Some(
                m.members[i].uuid,
            ),
    ensures
        pairs_of(graph_of(federation_statements(m)), federation_member_node(m.uuid, m.members[k].uuid))
            == statement_pairs(member_statements(m.uuid, k, m.members[k])),
{
    let node = federation_member_node(m.uuid, m.members[k].uuid);
    let root = federation_root(m.uuid);
    lemma_member_nodes_distinct(m);
    lemma_root_not_member_node(m.uuid, m.members[k].uuid);
    let header = federation_header(m);
    let crs = optional_literal(root, "crs"@, m.coordinate_reference_system);
    assert forall|i: int| 0 <= i < header.len() implies (#[trigger] header[i]).0 != node by {
        if i >= 5 {
            assert(header[i] == crs[i - 5]);
        }
        assert(header[i].0 == root);
    }
    lemma_pairs_about_none(header, node);
    lemma_members_about(m, m.members.len(), k);
    lemma_pairs_about_concat(header, federation_members(m, m.members.len()), node);
    assert(pairs_about(federation_statements(m), node) =~= statement_pairs(
        member_statements(m.uuid, k, m.members[k]),
    ));
    lemma_graph_of(federation_statements(m));
}

/// In the federation graph, the pairs on the federation node are those of
/// the header statements.
proof fn lemma_root_pairs(m: ManifestView)
    ensures
        pairs_of(graph_of(federation_statements(m)), federation_root(m.uuid)) == statement_pairs(
            federation_header(m),
        ),
{
    let root = federation_root(m.uuid);
    let members = federation_members(m, m.members.len());
    assert forall|i: int| 0 <= i < members.len() implies (#[trigger] members[i]).0 != root by {
        lemma_members_subjects(m, m.members.len(), i);
        let j = choose|j: int| 0 <= j < m.members.len() && members[i].0 == federation_member_node(m.uuid, m.members[j].uuid);
        lemma_root_not_member_node(m.uuid, m.members[j].uuid);
    }
    lemma_pairs_about_none(members, root);
    let header = federation_header(m);
    let crs = optional_literal(root, "crs"@, m.coordinate_reference_system);
    assert forall|i: int| 0 <= i < header.len() implies (#[trigger] header[i]).0 == root by {
        if i >= 5 {
            assert(header[i] == crs[i - 5]);
        }
    }
    lemma_pairs_about_all(header, root);
    lemma_pairs_about_concat(header, members, root);
    assert(pairs_about(federation_statements(m), root) =~= statement_pairs(header));
    lemma_graph_of(federation_statements(m));
}

/// The only type a member's statements give its node is `poing:Member`.
proof fn lemma_member_typed(u: u128, k: int, mv: MemberView)
    ensures
        objects_with(statement_pairs(member_statements(u, k, mv)), RDF_TYPE@) == seq![
            ObjView::Resource(poing_term("Member"@)),
        ],
{
    lemma_poing_terms_distinct();
    let n = federation_member_node(u, mv.uuid);
    let fixed = seq![
        res_stmt(n, RDF_TYPE@, poing_term("Member"@)),
        lit_stmt(n, poing_term("order"@), decimal(k as nat)),
        lit_stmt(n, poing_term("id"@), mv.id),
        lit_stmt(n, poing_term("uuid"@), uuid_text(mv.uuid)),
        lit_stmt(n, poing_term("name"@), mv.name),
        lit_stmt(n, poing_term("source"@), mv.source),
        lit_stmt(n, poing_term("transform"@), mv.transform),
    ];
    let od = optional_literal(n, "industryDomain"@, mv.industry_domain);
    let os = optional_literal(n, "schema"@, mv.schema);
    let oc = optional_literal(n, "contentHash"@, mv.content_hash);
    let ox = optional_literal(n, "crs"@, mv.coordinate_reference_system);
    let pf = statement_pairs(fixed);
    let all = statement_pairs(member_statements(u, k, mv));
    let p = RDF_TYPE@;
    assert(member_statements(u, k, mv) == fixed + od + os + oc + ox);
    assert(all =~= pf + statement_pairs(od) + statement_pairs(os) + statement_pairs(oc) + statement_pairs(ox));
    lemma_objects_concat(pf + statement_pairs(od) + statement_pairs(os) + statement_pairs(oc), statement_pairs(ox), p);
    lemma_objects_concat(pf + statement_pairs(od) + statement_pairs(os), statement_pairs(oc), p);
    lemma_objects_concat(pf + statement_pairs(od), statement_pairs(os), p);
    lemma_objects_concat(pf, statement_pairs(od), p);
    lemma_objects_optional(n, "industryDomain"@, mv.industry_domain, p);
    lemma_objects_optional(n, "schema"@, mv.schema, p);
    lemma_objects_optional(n, "contentHash"@, mv.content_hash, p);
    lemma_objects_optional(n, "crs"@, mv.coordinate_reference_system, p);
    assert(pf[0] == (p, ObjView::Resource(poing_term("Member"@))));
    assert forall|j: int| 0 <= j < pf.len() && j != 0 implies (#[trigger] pf[j]).0 != p by {
        assert(pf[1].0 == poing_term("order"@));
        assert(pf[2].0 == poing_term("id"@));
        assert(pf[3].0 == poing_term("uuid"@));
        assert(pf[4].0 == poing_term("name"@));
        assert(pf[5].0 == poing_term("source"@));
        assert(pf[6].0 == poing_term("transform"@));
    }
    lemma_objects_single(pf, p, 0);
    assert(objects_with(all, p) =~= seq![ObjView::Resource(poing_term("Member"@))]);
}

/// The only type the header statements give the federation node is
/// `poing:Federation`.
proof fn lemma_header_typed(m: ManifestView)
    ensures
        objects_with(statement_pairs(federation_header(m)), RDF_TYPE@) == seq![
            ObjView::Resource(poing_term("Federation"@)),
        ],
{
    lemma_poing_terms_distinct();
    let root = federation_root(m.uuid);
    let fixed = seq![
        res_stmt(root, RDF_TYPE@, poing_term("Federation"@)),
        lit_stmt(root, poing_term("id"@), m.id),
        lit_stmt(root, poing_term("uuid"@), uuid_text(m.uuid)),
        lit_stmt(root, poing_term("name"@), m.name),
        lit_stmt(root, poing_term("primaryMemberId"@), m.primary_member_id),
    ];
    let crs = optional_literal(root, "crs"@, m.coordinate_reference_system);
    let pf = statement_pairs(fixed);
    let pc = statement_pairs(crs);
    let p = RDF_TYPE@;
    assert(federation_header(m) == fixed + crs);
    assert(statement_pairs(federation_header(m)) =~= pf + pc);
    lemma_objects_concat(pf, pc, p);
    lemma_objects_optional(root, "crs"@, m.coordinate_reference_system, p);
    assert(pf[0] == (p, ObjView::Resource(poing_term("Federation"@))));
    assert forall|j: int| 0 <= j < pf.len() && j != 0 implies (#[trigger] pf[j]).0 != p by {
        assert(pf[1].0 == poing_term("id"@));
        assert(pf[2].0 == poing_term("uuid"@));
        assert(pf[3].0 == poing_term("name"@));
        assert(pf[4].0 == poing_term("primaryMemberId"@));
    }
    lemma_objects_single(pf, p, 0);
    assert(objects_with(pf + pc, p) =~= seq![ObjView::Resource(poing_term("Federation"@))]);
}

/// Each pair list is typed as `iri` exactly when its one type is `iri`.
proof fn lemma_single_type(pairs: Seq<PairView>, ty: Seq<char>, iri: Seq<char>)
    requires
        objects_with(pairs, RDF_TYPE@) == seq![ObjView::Resource(ty)],
    ensures
        typed_as(pairs, iri) <==> ty == iri,
{
    let objs = objects_with(pairs, RDF_TYPE@);
    assert(objs[0] == ObjView::Resource(ty));
}

/// Every subject of the federation graph is the federation node, typed
/// `poing:Federation` and not `poing:Member`, or a member's node, typed
/// `poing:Member` and not `poing:Federation`.
proof fn lemma_federation_subject_kinds(m: ManifestView, j: int)
    requires
        0 <= j < graph_of(federation_statements(m)).len(),
        forall|i: int, k: int| 0 <= i < k < m.members.len() ==> #[trigger] m.members[i].uuid != #[trigger] m.members[k].uuid,
        forall|i: int|
            0 <= i < m.members.len() ==> uuid_parse(uuid_text(#[trigger] m.members[i].uuid)) == Some(
                m.members[i].uuid,
            ),
    ensures
        ({
            let e = graph_of(federation_statements(m))[j];
            ||| e.0 == federation_root(m.uuid) && typed_as(e.1, poing_term("Federation"@)) && !typed_as(
                e.1,
                poing_term("Member"@),
            )
            ||| exists|k: int|
                0 <= k < m.members.len() && e.0 == federation_member_node(m.uuid, m.members[k].uuid)
                    && typed_as(e.1, poing_term("Member"@)) && !typed_as(e.1, poing_term("Federation"@))
        }),
{
    let fs = federation_statements(m);
    let g = graph_of(fs);
    let fed = poing_term("Federation"@);
    let mem = poing_term("Member"@);
    let root = federation_root(m.uuid);
    let header = federation_header(m);
    let members = federation_members(m, m.members.len());
    lemma_graph_of(fs);
    lemma_poing_terms_distinct();
    reveal_strlit("Federation");
    reveal_strlit("Member");
    assert("Federation"@[0] != "Member"@[0]);
    assert(fed != mem);
    let t = g[j].0;
    assert(keys_of(g)[j] == t);
    assert(keys_of(g).contains(t));
    lemma_pairs_of_at(g, j);
    let i = choose|i: int| 0 <= i < fs.len() && fs[i].0 == t;
    assert(fs == header + members);
    if i < header.len() {
        let crs = optional_literal(root, "crs"@, m.coordinate_reference_system);
        if i >= 5 {
            assert(header[i] == crs[i - 5]);
        }
        assert(fs[i] == header[i]);
        assert(t == root);
        lemma_root_pairs(m);
        lemma_header_typed(m);
        lemma_single_type(g[j].1, fed, fed);
        lemma_single_type(g[j].1, fed, mem);
    } else {
        assert(fs[i] == members[i - header.len()]);
        lemma_members_subjects(m, m.members.len(), i - header.len());
        let k = choose|k: int| 0 <= k < m.members.len() && members[i - header.len()].0 == federation_member_node(m.uuid, m.members[k].uuid);
        lemma_node_pairs(m, k);
        lemma_member_typed(m.uuid, k, m.members[k]);
        lemma_single_type(g[j].1, mem, mem);
        lemma_single_type(g[j].1, mem, fed);
    }
}

/// `f` takes the value `i` somewhere on `0..n`.
pub open spec fn takes_value(f: spec_fn(int) -> int, n: int, i: int) -> bool {
    exists|k: int| 0 <= k < n && #[trigger] f(k) == i
}

/// A map of `0..n` into itself that takes no value twice takes every value.
pub proof fn lemma_injective_onto(n: int, f: spec_fn(int) -> int)
    requires
        0 <= n,
        forall|k: int| 0 <= k < n ==> 0 <= #[trigger] f(k) < n,
        forall|a: int, b: int| 0 <= a < n && 0 <= b < n && #[trigger] f(a) == #[trigger] f(b) ==> a == b,
    ensures
        forall|i: int| 0 <= i < n ==> #[trigger] takes_value(f, n, i),
{
    let range = vstd::set_lib::set_int_range(0, n);
    vstd::set_lib::lemma_int_range(0, n);
    let image = range.map(f);
    assert(vstd::relations::injective_on(f, range));
    vstd::set_lib::lemma_map_size(range, image, f);
    assert(image.subset_of(range)) by {
        assert forall|i: int| image.contains(i) implies range.contains(i) by {
            let k = choose|k: int| range.contains(k) && i == f(k);
        }
    }
    vstd::set_lib::lemma_subset_equality(image, range);
    assert forall|i: int| 0 <= i < n implies #[trigger] takes_value(f, n, i) by {
        assert(range.contains(i));
        assert(image.contains(i));
        let k = choose|k: int| range.contains(k) && i == f(k);
    }
}

/// What the parser reads from a graph is determined by the graph: two
/// manifests that both read from one graph ([`read_from_graph`]) are equal.
pub proof fn lemma_read_from_graph_unique(m1: ManifestView, m2: ManifestView, g: Seq<EntryView>)
    requires
        read_from_graph(m1, g),
        read_from_graph(m2, g),
    ensures
        m1 == m2,
{
    let roots = subjects_typed(g, poing_term("Federation"@));
    let subjects = subjects_typed(g, poing_term("Member"@));
    let n = subjects.len() as int;
    let t = poing_literal(g, roots[0], "uuid"@)->Some_0;
    assert(uuid_parse(t) == Some(m1.uuid) && uuid_parse(t) == Some(m2.uuid));
    let f1 = |k: int| choose|i: int| 0 <= i < n && reads_member(g, subjects[i], k, m1.members[k]);
    let f2 = |k: int| choose|i: int| 0 <= i < n && reads_member(g, subjects[i], k, m2.members[k]);
    assert forall|k: int| 0 <= k < n implies 0 <= #[trigger] f1(k) < n && reads_member(g, subjects[f1(k)], k, m1.members[k]) by {
        assert(read_at(g, subjects, k, m1.members[k]));
    }
    assert forall|k: int| 0 <= k < n implies 0 <= #[trigger] f2(k) < n && reads_member(g, subjects[f2(k)], k, m2.members[k]) by {
        assert(read_at(g, subjects, k, m2.members[k]));
    }
    assert forall|a: int, b: int| 0 <= a < n && 0 <= b < n && #[trigger] f1(a) == #[trigger] f1(b) implies a == b by {
        assert(reads_member(g, subjects[f1(a)], a, m1.members[a]));
        assert(reads_member(g, subjects[f1(b)], b, m1.members[b]));
    }
    lemma_injective_onto(n, f1);
    assert forall|k: int| 0 <= k < n implies m1.members[k] == m2.members[k] by {
        let i = f2(k);
        assert(0 <= i < n);
        assert(takes_value(f1, n, i));
        let j = choose|j: int| 0 <= j < n && #[trigger] f1(j) == i;
        assert(reads_member(g, subjects[i], j, m1.members[j]));
        assert(reads_member(g, subjects[i], k, m2.members[k]));
    }
    assert(m1.members =~= m2.members);
}

/// The federation graph the writer builds for a manifest reads back as that
/// manifest, in the sense in which [`parse_poing_federation_icdd`] reads one
/// ([`read_from_graph`]): the one node typed as a Poing federation carries the
/// manifest's own fields, and the nodes typed as Poing members are its
/// members, each read at its position. This holds of manifests whose UUIDs
/// (the federation's and each member's) read back from their text, with
/// members of distinct UUIDs.
pub proof fn lemma_federation_graph_reads_back(m: ManifestView)
    requires
        m.members.len() <= usize::MAX,
        uuid_parse(uuid_text(m.uuid)) == Some(m.uuid),
        forall|i: int, j: int| 0 <= i < j < m.members.len() ==> #[trigger] m.members[i].uuid != #[trigger] m.members[j].uuid,
        forall|i: int|
            0 <= i < m.members.len() ==> uuid_parse(uuid_text(#[trigger] m.members[i].uuid)) == Some(
                m.members[i].uuid,
            ),
    ensures
        read_from_graph(m, graph_of(federation_statements(m))),
{
    let fs = federation_statements(m);
    let g = graph_of(fs);
    let fed = poing_term("Federation"@);
    let mem = poing_term("Member"@);
    let root = federation_root(m.uuid);
    let n = m.members.len();
    lemma_graph_of(fs);
    lemma_subjects_typed(g, fed);
    lemma_subjects_typed(g, mem);
    lemma_member_nodes_distinct(m);
    let st_f = subjects_typed(g, fed);
    let st_m = subjects_typed(g, mem);
    // The federation node is the one subject typed as a federation.
    assert(federation_header(m)[0].0 == root);
    assert(fs[0] == federation_header(m)[0]);
    assert(keys_of(g).contains(root));
    let jr = choose|jr: int| 0 <= jr < g.len() && keys_of(g)[jr] == root;
    lemma_federation_subject_kinds(m, jr);
    assert(g[jr].0 == root);
    assert(typed_as(g[jr].1, fed)) by {
        if !typed_as(g[jr].1, fed) {
            let k = choose|k: int|
                0 <= k < m.members.len() && g[jr].0 == federation_member_node(m.uuid, m.members[k].uuid)
                    && typed_as(g[jr].1, mem) && !typed_as(g[jr].1, fed);
            lemma_root_not_member_node(m.uuid, m.members[k].uuid);
        }
    }
    assert(st_f.contains(root));
    assert forall|x: int| 0 <= x < st_f.len() implies st_f[x] == root by {
        assert(st_f.contains(st_f[x]));
        let j = choose|j: int| 0 <= j < g.len() && g[j].0 == st_f[x] && typed_as(g[j].1, fed);
        lemma_federation_subject_kinds(m, j);
    }
    if st_f.len() >= 2 {
        assert(seq_lt(st_f[0], st_f[1]));
        lemma_seq_lt_irreflexive(root);
    }
    assert(st_f.len() == 1);
    assert(st_f[0] == root);
    lemma_federation_fields_round_trip(m);
    assert(federation_read(m, g, st_f));
    // The subjects typed as members are the members' nodes.
    let nodes = Seq::new(n, |k: int| federation_member_node(m.uuid, m.members[k].uuid));
    assert forall|k: int| 0 <= k < n implies st_m.contains(#[trigger] nodes[k]) by {
        let node = federation_member_node(m.uuid, m.members[k].uuid);
        lemma_node_pairs(m, k);
        lemma_member_typed(m.uuid, k, m.members[k]);
        let pairs = statement_pairs(member_statements(m.uuid, k, m.members[k]));
        assert(pairs.len() > 0);
        let at = lower_bound(keys_of(g), node);
        crate::rdfgraph::lemma_lower_bound(keys_of(g), node);
        assert(at < g.len() && g[at].0 == node);
        lemma_pairs_of_at(g, at);
        lemma_single_type(g[at].1, mem, mem);
    }
    assert forall|x: int| 0 <= x < st_m.len() implies nodes.contains(#[trigger] st_m[x]) by {
        assert(st_m.contains(st_m[x]));
        let j = choose|j: int| 0 <= j < g.len() && g[j].0 == st_m[x] && typed_as(g[j].1, mem);
        lemma_federation_subject_kinds(m, j);
        if g[j].0 == root && typed_as(g[j].1, fed) && !typed_as(g[j].1, mem) {
        } else {
            let k = choose|k: int|
                0 <= k < m.members.len() && g[j].0 == federation_member_node(m.uuid, m.members[k].uuid)
                    && typed_as(g[j].1, mem) && !typed_as(g[j].1, fed);
            assert(nodes[k] == st_m[x]);
        }
    }
    assert(st_m.no_duplicates()) by {
        assert forall|a: int, b: int| 0 <= a < st_m.len() && 0 <= b < st_m.len() && a != b implies st_m[a] != st_m[b] by {
            if a < b {
                assert(seq_lt(st_m[a], st_m[b]));
                if st_m[a] == st_m[b] {
                    lemma_seq_lt_irreflexive(st_m[a]);
                }
            } else {
                assert(seq_lt(st_m[b], st_m[a]));
                if st_m[a] == st_m[b] {
                    lemma_seq_lt_irreflexive(st_m[a]);
                }
            }
        }
    }
    assert(nodes.no_duplicates()) by {
        assert forall|a: int, b: int| 0 <= a < nodes.len() && 0 <= b < nodes.len() && a != b implies nodes[a] != nodes[b] by {
            assert(nodes[a] == federation_member_node(m.uuid, m.members[a].uuid));
            assert(nodes[b] == federation_member_node(m.uuid, m.members[b].uuid));
        }
    }
    assert(st_m.to_set() =~= nodes.to_set()) by {
        assert forall|t: Seq<char>| st_m.to_set().contains(t) <==> nodes.to_set().contains(t) by {
            if st_m.contains(t) {
                let x = choose|x: int| 0 <= x < st_m.len() && st_m[x] == t;
                assert(nodes.contains(st_m[x]));
            }
            if nodes.contains(t) {
                let k = choose|k: int| 0 <= k < nodes.len() && nodes[k] == t;
                assert(st_m.contains(nodes[k]));
            }
        }
    }
    st_m.unique_seq_to_set();
    nodes.unique_seq_to_set();
    assert(st_m.len() == n);
    assert forall|k: int| 0 <= k < m.members.len() implies #[trigger] read_at(g, st_m, k, m.members[k]) by {
        assert(st_m.contains(nodes[k]));
        let x = choose|x: int| 0 <= x < st_m.len() && st_m[x] == nodes[k];
        lemma_member_round_trip(m, k);
        assert(reads_member(g, st_m[x], k, m.members[k]));
    }
    assert(members_read(m.members, g, st_m));
}

/// A member written into a federation graph reads back as itself, at its
/// position: the statements the writer makes about the member's node are
/// parsed into exactly that member and order. This holds of manifests whose
/// members have distinct UUIDs, each read back from its text by the UUID
/// parser.
pub proof fn lemma_member_round_trip(m: ManifestView, k: int)
    requires
        0 <= k < m.members.len(),
        m.members.len() <= usize::MAX,
        forall|i: int, j: int| 0 <= i < j < m.members.len() ==> #[trigger] m.members[i].uuid != #[trigger] m.members[j].uuid,
        forall|i: int|
            0 <= i < m.members.len() ==> uuid_parse(uuid_text(#[trigger] m.members[i].uuid)) == Some(
                m.members[i].uuid,
            ),
    ensures
        spec_member(graph_of(federation_statements(m)), federation_member_node(m.uuid, m.members[k].uuid))
            == Ok::<(nat, MemberView), Seq<char>>((k as nat, m.members[k])),
{
    let base = federation_base(m.uuid);
    let mv = m.members[k];
    let node = federation_member_node(m.uuid, mv.uuid);
    let root = federation_root(m.uuid);
    reveal_strlit("federation-");
    reveal_strlit("member-");
    // The members' nodes are distinct, and none is the federation's.
    assert forall|i: int, j: int|
        0 <= i < m.members.len() && 0 <= j < m.members.len() && i != j implies federation_member_node(
        m.uuid,
        #[trigger] m.members[i].uuid,
    ) != federation_member_node(m.uuid, #[trigger] m.members[j].uuid) by {
        let a = federation_member_node(m.uuid, m.members[i].uuid);
        let b = federation_member_node(m.uuid, m.members[j].uuid);
        if a == b {
            let start = base.len() + "member-"@.len();
            assert(uuid_text(m.members[i].uuid) =~= a.subrange(start as int, a.len() as int));
            assert(uuid_text(m.members[j].uuid) =~= b.subrange(start as int, b.len() as int));
            if i < j {
                assert(m.members[i].uuid != m.members[j].uuid);
            } else {
                assert(m.members[j].uuid != m.members[i].uuid);
            }
        }
    }
    assert(root[base.len() as int] == 'f');
    assert(node[base.len() as int] == 'm');
    // The statements about the member's node are the member's own.
    let header = federation_header(m);
    let crs = optional_literal(root, "crs"@, m.coordinate_reference_system);
    assert forall|i: int| 0 <= i < header.len() implies (#[trigger] header[i]).0 != node by {
        if i >= 5 {
            assert(header[i] == crs[i - 5]);
        }
        assert(header[i].0 == root);
    }
    lemma_pairs_about_none(header, node);
    lemma_members_about(m, m.members.len(), k);
    lemma_pairs_about_concat(header, federation_members(m, m.members.len()), node);
    let pairs = statement_pairs(member_statements(m.uuid, k, mv));
    assert(pairs_about(federation_statements(m), node) =~= pairs);
    lemma_graph_of(federation_statements(m));
    assert(crate::rdfgraph::pairs_of(graph_of(federation_statements(m)), node) == pairs);
    lemma_member_reads(m.uuid, k, mv);
    lemma_decimal_parses(k as nat);
}

/// The federation's own fields read back from a federation graph: the
/// statements the writer makes about the federation node give its id, UUID
/// text, name, primary member and coordinate reference system.
#[verifier::rlimit(40)]
pub proof fn lemma_federation_fields_round_trip(m: ManifestView)
    ensures
        poing_literal(graph_of(federation_statements(m)), federation_root(m.uuid), "id"@) == Some(m.id),
        poing_literal(graph_of(federation_statements(m)), federation_root(m.uuid), "uuid"@) == Some(
            uuid_text(m.uuid),
        ),
        poing_literal(graph_of(federation_statements(m)), federation_root(m.uuid), "name"@) == Some(m.name),
        poing_literal(graph_of(federation_statements(m)), federation_root(m.uuid), "primaryMemberId"@)
            == Some(m.primary_member_id),
        poing_literal(graph_of(federation_statements(m)), federation_root(m.uuid), "crs"@)
            == m.coordinate_reference_system,
{
    let base = federation_base(m.uuid);
    let root = federation_root(m.uuid);
    reveal_strlit("federation-");
    reveal_strlit("member-");
    lemma_poing_terms_distinct();
    reveal_strlit("Federation");
    reveal_strlit("id");
    reveal_strlit("uuid");
    reveal_strlit("name");
    reveal_strlit("primaryMemberId");
    reveal_strlit("crs");
    assert("uuid"@[0] != "name"@[0]);
    // No member's statement is about the federation node.
    let members = federation_members(m, m.members.len());
    assert forall|i: int| 0 <= i < members.len() implies (#[trigger] members[i]).0 != root by {
        lemma_members_subjects(m, m.members.len(), i);
        let j = choose|j: int| 0 <= j < m.members.len() && members[i].0 == federation_member_node(m.uuid, m.members[j].uuid);
        assert(members[i].0[base.len() as int] == 'm');
        assert(root[base.len() as int] == 'f');
    }
    lemma_pairs_about_none(members, root);
    let header = federation_header(m);
    let fixed = seq![
        res_stmt(root, RDF_TYPE@, poing_term("Federation"@)),
        lit_stmt(root, poing_term("id"@), m.id),
        lit_stmt(root, poing_term("uuid"@), uuid_text(m.uuid)),
        lit_stmt(root, poing_term("name"@), m.name),
        lit_stmt(root, poing_term("primaryMemberId"@), m.primary_member_id),
    ];
    let crs = optional_literal(root, "crs"@, m.coordinate_reference_system);
    assert(header == fixed + crs);
    assert forall|i: int| 0 <= i < header.len() implies (#[trigger] header[i]).0 == root by {
        if i >= 5 {
            assert(header[i] == crs[i - 5]);
        }
    }
    lemma_pairs_about_all(header, root);
    lemma_pairs_about_concat(header, members, root);
    let pf = statement_pairs(fixed);
    let pc = statement_pairs(crs);
    assert(pairs_about(federation_statements(m), root) =~= pf + pc);
    lemma_graph_of(federation_statements(m));
    assert(crate::rdfgraph::pairs_of(graph_of(federation_statements(m)), root) == pf + pc);
    assert(pf.len() == 5);
    assert(pf[0].0 == RDF_TYPE@);
    assert(pf[1] == (poing_term("id"@), ObjView::Literal(m.id)));
    assert(pf[2] == (poing_term("uuid"@), ObjView::Literal(uuid_text(m.uuid))));
    assert(pf[3] == (poing_term("name"@), ObjView::Literal(m.name)));
    assert(pf[4] == (poing_term("primaryMemberId"@), ObjView::Literal(m.primary_member_id)));
    assert(first_literal(objects_with(pf + pc, poing_term("id"@))) == Some(m.id)) by {
        let p = poing_term("id"@);
        lemma_objects_concat(pf, pc, p);
        lemma_objects_optional(root, "crs"@, m.coordinate_reference_system, p);
        lemma_objects_single(pf, p, 1);
        assert(objects_with(pf + pc, p) =~= seq![ObjView::Literal(m.id)]);
        assert(seq![ObjView::Literal(m.id)].drop_first() =~= Seq::<ObjView>::empty());
    }
    assert(first_literal(objects_with(pf + pc, poing_term("uuid"@))) == Some(uuid_text(m.uuid))) by {
        let p = poing_term("uuid"@);
        lemma_objects_concat(pf, pc, p);
        lemma_objects_optional(root, "crs"@, m.coordinate_reference_system, p);
        lemma_objects_single(pf, p, 2);
        assert(objects_with(pf + pc, p) =~= seq![ObjView::Literal(uuid_text(m.uuid))]);
        assert(seq![ObjView::Literal(uuid_text(m.uuid))].drop_first() =~= Seq::<ObjView>::empty());
    }
    assert(first_literal(objects_with(pf + pc, poing_term("name"@))) == Some(m.name)) by {
        let p = poing_term("name"@);
        lemma_objects_concat(pf, pc, p);
        lemma_objects_optional(root, "crs"@, m.coordinate_reference_system, p);
        lemma_objects_single(pf, p, 3);
        assert(objects_with(pf + pc, p) =~= seq![ObjView::Literal(m.name)]);
        assert(seq![ObjView::Literal(m.name)].drop_first() =~= Seq::<ObjView>::empty());
    }
    assert(first_literal(objects_with(pf + pc, poing_term("primaryMemberId"@))) == Some(m.primary_member_id)) by {
        let p = poing_term("primaryMemberId"@);
        lemma_objects_concat(pf, pc, p);
        lemma_objects_optional(root, "crs"@, m.coordinate_reference_system, p);
        lemma_objects_single(pf, p, 4);
        assert(objects_with(pf + pc, p) =~= seq![ObjView::Literal(m.primary_member_id)]);
        assert(seq![ObjView::Literal(m.primary_member_id)].drop_first() =~= Seq::<ObjView>::empty());
    }
    assert(first_literal(objects_with(pf + pc, poing_term("crs"@))) == m.coordinate_reference_system) by {
        let p = poing_term("crs"@);
        lemma_objects_concat(pf, pc, p);
        lemma_objects_optional(root, "crs"@, m.coordinate_reference_system, p);
        lemma_objects_none(pf, p);
        match m.coordinate_reference_system {
            Some(x) => {
                assert(objects_with(pf + pc, p) =~= seq![ObjView::Literal(x)]);
                assert(seq![ObjView::Literal(x)].drop_first() =~= Seq::<ObjView>::empty());
            },
            None => {
                assert(objects_with(pf + pc, p) =~= Seq::<ObjView>::empty());
            },
        }
    }
}

/// Every statement about the first `count` members is made of one of their
/// nodes.
proof fn lemma_members_subjects(m: ManifestView, count: nat, i: int)
    requires
        count <= m.members.len(),
        0 <= i < federation_members(m, count).len(),
    ensures
        exists|j: int| 0 <= j < m.members.len() && federation_members(m, count)[i].0 == federation_member_node(m.uuid, m.members[j].uuid),
    decreases count,
{
    if count > 0 {
        let prev = federation_members(m, (count - 1) as nat);
        let block = member_statements(m.uuid, count - 1, m.members[count - 1]);
        assert(federation_members(m, count) == prev + block);
        if i < prev.len() {
            lemma_members_subjects(m, (count - 1) as nat, i);
            assert(federation_members(m, count)[i] == prev[i]);
        } else {
            lemma_member_subjects(m.uuid, count - 1, m.members[count - 1]);
            assert(federation_members(m, count)[i] == block[i - prev.len()]);
        }
    }
}

// ---------------------------------------------------------------------------
// Reading back the federation index
/// Two terms of the Container ontology are equal only for equal local names.
proof fn lemma_ct_terms_distinct()
    ensures
        forall|a: Seq<char>, b: Seq<char>| #[trigger] ct_term(a) == #[trigger] ct_term(b) ==> a == b,
        forall|a: Seq<char>| #[trigger] ct_term(a) != RDF_TYPE@,
{
    assert forall|a: Seq<char>, b: Seq<char>| #[trigger] ct_term(a) == #[trigger] ct_term(b) implies a == b by {
        if ct_term(a) == ct_term(b) {
            assert(a =~= ct_term(a).subrange(CT@.len() as int, ct_term(a).len() as int));
            assert(b =~= ct_term(b).subrange(CT@.len() as int, ct_term(b).len() as int));
        }
    }
    reveal_strlit("https://standards.iso.org/iso/21597/-1/ed-1/en/Container#");
    reveal_strlit("http://www.w3.org/1999/02/22-rdf-syntax-ns#type");
    assert forall|a: Seq<char>| #[trigger] ct_term(a) != RDF_TYPE@ by {
        assert(ct_term(a)[4] == CT@[4]);
    }
}

/// The index statements a member document is described by: its class and
/// location, then its name.
pub open spec fn member_document_pairs(member: MemberView, p: PayloadView) -> Seq<PairView> {
    match p {
        PayloadView::Internal { filename, .. } => seq![
            (RDF_TYPE@, ObjView::Resource(ct_term("InternalDocument"@))),
            (ct_term("filename"@), ObjView::Literal(filename)),
            (ct_term("name"@), ObjView::Literal(member.name)),
        ],
        PayloadView::External { url, .. } => seq![
            (RDF_TYPE@, ObjView::Resource(ct_term("ExternalDocument"@))),
            (ct_term("url"@), ObjView::Literal(url)),
            (ct_term("name"@), ObjView::Literal(member.name)),
        ],
    }
}

/// The statements about member `k`'s index node among those of the first
/// `count` members are its document description, when the members' nodes are
/// distinct from each other and from the container's.
proof fn lemma_index_members_about(m: ManifestView, ps: Seq<PayloadView>, binding: Seq<usize>, count: nat, k: int)
    requires
        count <= m.members.len(),
        binding.len() == m.members.len(),
        0 <= k < m.members.len(),
        forall|i: int| 0 <= i < m.members.len() ==> index_member_node(m.uuid, #[trigger] m.members[i].uuid)
            != container_node(m.uuid),
        forall|i: int, j: int|
            0 <= i < m.members.len() && 0 <= j < m.members.len() && i != j ==> index_member_node(
                m.uuid,
                #[trigger] m.members[i].uuid,
            ) != index_member_node(m.uuid, #[trigger] m.members[j].uuid),
    ensures
        pairs_about(index_members(m, ps, binding, count), index_member_node(m.uuid, m.members[k].uuid)) == (
        if k < count {
            member_document_pairs(m.members[k], ps[binding[k] as int])
        } else {
            Seq::<PairView>::empty()
        }),
    decreases count,
{
    let node = index_member_node(m.uuid, m.members[k].uuid);
    if count == 0 {
        assert(index_members(m, ps, binding, 0) =~= Seq::<Statement>::empty());
    } else {
        let j = count - 1;
        lemma_index_members_about(m, ps, binding, (count - 1) as nat, k);
        let nj = index_member_node(m.uuid, m.members[j].uuid);
        let c = container_node(m.uuid);
        let block = index_member_block(m, m.members[j], ps[binding[j] as int]);
        lemma_pairs_about_concat(index_members(m, ps, binding, (count - 1) as nat), block, node);
        let first = seq![res_stmt(c, ct_term("containsDocument"@), nj)];
        let rest = block.subrange(1, block.len() as int);
        assert(block =~= first + rest);
        lemma_pairs_about_concat(first, rest, node);
        lemma_pairs_about_none(first, node);
        assert forall|i: int| 0 <= i < rest.len() implies (#[trigger] rest[i]).0 == nj by {
            assert(rest[i] == block[i + 1]);
        }
        if j == k {
            lemma_pairs_about_all(rest, node);
            assert(statement_pairs(rest) =~= member_document_pairs(m.members[k], ps[binding[k] as int]));
            assert(Seq::<PairView>::empty() + (Seq::<PairView>::empty() + statement_pairs(rest)) =~= statement_pairs(rest));
        } else {
            assert forall|i: int| 0 <= i < rest.len() implies (#[trigger] rest[i]).0 != node by {
                assert(rest[i].0 == nj);
            }
            lemma_pairs_about_none(rest, node);
            assert(pairs_about(index_members(m, ps, binding, (count - 1) as nat), node) + (Seq::<PairView>::empty()
                + Seq::<PairView>::empty()) =~= pairs_about(index_members(m, ps, binding, (count - 1) as nat), node));
        }
    }
}

/// A member document written into the federation's `Index.rdf` reads back as
/// the document the member's payload stands for: internal with the payload's
/// file name, or external with its URL, named after the member, neither
/// secured, encrypted nor merely requested. This holds of manifests whose
/// members have distinct UUIDs, each read back from its text by the UUID
/// parser.
#[verifier::rlimit(60)]
pub proof fn lemma_member_document_round_trip(m: ManifestView, ps: Seq<PayloadView>, binding: Seq<usize>, k: int)
    requires
        0 <= k < m.members.len(),
        binding.len() == m.members.len(),
        forall|i: int, j: int| 0 <= i < j < m.members.len() ==> #[trigger] m.members[i].uuid != #[trigger] m.members[j].uuid,
        forall|i: int|
            0 <= i < m.members.len() ==> uuid_parse(uuid_text(#[trigger] m.members[i].uuid)) == Some(
                m.members[i].uuid,
            ),
    ensures
        spec_document(graph_of(index_statements(m, ps, binding)), index_member_node(m.uuid, m.members[k].uuid))
            == (DocumentView {
            id: index_member_node(m.uuid, m.members[k].uuid),
            kind: match ps[binding[k] as int] {
                PayloadView::Internal { filename, .. } => DocumentKindView::Internal { filename },
                PayloadView::External { url, .. } => DocumentKindView::External { url },
            },
            name: Some(m.members[k].name),
            description: None,
            filetype: None,
            format: None,
            checksum: None,
            encrypted: false,
            requested: false,
        }),
{
    let base = icdd_base(m.uuid);
    let c = container_node(m.uuid);
    let d = metadata_node(m.uuid);
    let node = index_member_node(m.uuid, m.members[k].uuid);
    let p = ps[binding[k] as int];
    reveal_strlit("container-");
    reveal_strlit("member-");
    reveal_strlit("federation-metadata");
    // The member nodes are distinct from each other and from the container's
    // and the metadata document's.
    assert forall|i: int, j: int|
        0 <= i < m.members.len() && 0 <= j < m.members.len() && i != j implies index_member_node(
        m.uuid,
        #[trigger] m.members[i].uuid,
    ) != index_member_node(m.uuid, #[trigger] m.members[j].uuid) by {
        let a = index_member_node(m.uuid, m.members[i].uuid);
        let b = index_member_node(m.uuid, m.members[j].uuid);
        if a == b {
            let start = base.len() + "member-"@.len();
            assert(uuid_text(m.members[i].uuid) =~= a.subrange(start as int, a.len() as int));
            assert(uuid_text(m.members[j].uuid) =~= b.subrange(start as int, b.len() as int));
            if i < j {
                assert(m.members[i].uuid != m.members[j].uuid);
            } else {
                assert(m.members[j].uuid != m.members[i].uuid);
            }
        }
    }
    assert forall|i: int| 0 <= i < m.members.len() implies index_member_node(m.uuid, #[trigger] m.members[i].uuid)
        != container_node(m.uuid) by {
        assert(index_member_node(m.uuid, m.members[i].uuid)[base.len() as int] == 'm');
        assert(c[base.len() as int] == 'c');
    }
    assert(node[base.len() as int] == 'm');
    assert(d[base.len() as int] == 'f');
    // The statements about the node are its document description.
    let header = index_header(m);
    assert forall|i: int| 0 <= i < header.len() implies (#[trigger] header[i]).0 != node by {
        assert(header[i].0 == c || header[i].0 == d);
    }
    lemma_pairs_about_none(header, node);
    lemma_index_members_about(m, ps, binding, m.members.len(), k);
    lemma_pairs_about_concat(header, index_members(m, ps, binding, m.members.len()), node);
    let pairs = member_document_pairs(m.members[k], p);
    assert(pairs_about(index_statements(m, ps, binding), node) =~= pairs);
    lemma_graph_of(index_statements(m, ps, binding));
    let g = graph_of(index_statements(m, ps, binding));
    assert(crate::rdfgraph::pairs_of(g, node) == pairs);
    // Reading the description.
    lemma_ct_terms_distinct();
    reveal_strlit("InternalDocument");
    reveal_strlit("ExternalDocument");
    reveal_strlit("EncryptedDocument");
    reveal_strlit("FolderDocument");
    reveal_strlit("filename");
    reveal_strlit("url");
    reveal_strlit("foldername");
    reveal_strlit("name");
    reveal_strlit("description");
    reveal_strlit("filetype");
    reveal_strlit("format");
    reveal_strlit("checksum");
    reveal_strlit("checksumAlgorithm");
    reveal_strlit("requested");
    assert("filename"@[4] != "filetype"@[4]);
    assert("filename"@[0] != "checksum"@[0]);
    assert("filetype"@[0] != "checksum"@[0]);
    assert(pairs.len() == 3);
    assert(pairs[0].0 == RDF_TYPE@);
    assert(ct_term("InternalDocument"@).len() != (CT@ + "EncryptedDocument"@).len());
    assert(ct_term("ExternalDocument"@).len() != (CT@ + "EncryptedDocument"@).len());
    lemma_objects_single(pairs, RDF_TYPE@, 0);
    lemma_objects_single(pairs, ct_term("name"@), 2);
    assert(seq![ObjView::Literal(m.members[k].name)].drop_first() =~= Seq::<ObjView>::empty());
    lemma_objects_none(pairs, ct_term("description"@));
    lemma_objects_none(pairs, ct_term("filetype"@));
    lemma_objects_none(pairs, ct_term("format"@));
    lemma_objects_none(pairs, ct_term("checksum"@));
    lemma_objects_none(pairs, ct_term("checksumAlgorithm"@));
    lemma_objects_none(pairs, ct_term("requested"@));
    match p {
        PayloadView::Internal { filename, .. } => {
            lemma_objects_single(pairs, ct_term("filename"@), 1);
            assert(seq![ObjView::Literal(filename)].drop_first() =~= Seq::<ObjView>::empty());
        },
        PayloadView::External { url, .. } => {
            lemma_objects_none(pairs, ct_term("filename"@));
            lemma_objects_single(pairs, ct_term("url"@), 1);
            assert(seq![ObjView::Literal(url)].drop_first() =~= Seq::<ObjView>::empty());
        },
    }
}

/// Every statement about the container among those of the first `count`
/// members says that it contains a document.
#[verifier::rlimit(30)]
proof fn lemma_index_members_container(m: ManifestView, ps: Seq<PayloadView>, binding: Seq<usize>, count: nat)
    requires
        count <= m.members.len(),
        binding.len() == m.members.len(),
        forall|i: int| 0 <= i < m.members.len() ==> index_member_node(m.uuid, #[trigger] m.members[i].uuid)
            != container_node(m.uuid),
    ensures
        forall|i: int|
            0 <= i < pairs_about(index_members(m, ps, binding, count), container_node(m.uuid)).len()
                ==> (#[trigger] pairs_about(index_members(m, ps, binding, count), container_node(m.uuid))[i]).0
                == ct_term("containsDocument"@),
    decreases count,
{
    let c = container_node(m.uuid);
    if count == 0 {
        assert(index_members(m, ps, binding, 0) =~= Seq::<Statement>::empty());
    } else {
        let j = count - 1;
        lemma_index_members_container(m, ps, binding, (count - 1) as nat);
        let nj = index_member_node(m.uuid, m.members[j].uuid);
        let block = index_member_block(m, m.members[j], ps[binding[j] as int]);
        let prev = index_members(m, ps, binding, (count - 1) as nat);
        lemma_pairs_about_concat(prev, block, c);
        let first = seq![res_stmt(c, ct_term("containsDocument"@), nj)];
        let rest = block.subrange(1, block.len() as int);
        assert(block =~= first + rest);
        lemma_pairs_about_concat(first, rest, c);
        lemma_pairs_about_all(first, c);
        assert forall|i: int| 0 <= i < rest.len() implies (#[trigger] rest[i]).0 != c by {
            assert(rest[i] == block[i + 1]);
        }
        lemma_pairs_about_none(rest, c);
        let all = pairs_about(index_members(m, ps, binding, count), c);
        assert(all =~= pairs_about(prev, c) + statement_pairs(first));
        assert forall|i: int| 0 <= i < all.len() implies (#[trigger] all[i]).0 == ct_term("containsDocument"@) by {
            if i < pairs_about(prev, c).len() {
                assert(all[i] == pairs_about(prev, c)[i]);
            } else {
                assert(all[i] == statement_pairs(first)[i - pairs_about(prev, c).len()]);
            }
        }
    }
}

/// The container and the federation metadata document read back from the
/// federation's `Index.rdf`: the container carries the Part-1 conformance
/// indicator and the federation's name as its description, and the metadata
/// document is the internal RDF/XML file `poing-federation.rdf`.
#[verifier::rlimit(60)]
pub proof fn lemma_index_description_round_trip(m: ManifestView, ps: Seq<PayloadView>, binding: Seq<usize>)
    requires
        binding.len() == m.members.len(),
    ensures
        crate::index::ct_literal(graph_of(index_statements(m, ps, binding)), container_node(m.uuid), "conformanceIndicator"@)
            == Some("ICDD-Part1-Container"@),
        crate::index::ct_literal(graph_of(index_statements(m, ps, binding)), container_node(m.uuid), "description"@)
            == Some(m.name),
        spec_document(graph_of(index_statements(m, ps, binding)), metadata_node(m.uuid)) == (DocumentView {
            id: metadata_node(m.uuid),
            kind: DocumentKindView::Internal { filename: FEDERATION_RDF@ },
            name: Some("Poing federation manifest"@),
            description: None,
            filetype: Some("rdf"@),
            format: Some("application/rdf+xml"@),
            checksum: None,
            encrypted: false,
            requested: false,
        }),
{
    let base = icdd_base(m.uuid);
    let c = container_node(m.uuid);
    let d = metadata_node(m.uuid);
    reveal_strlit("container-");
    reveal_strlit("member-");
    reveal_strlit("federation-metadata");
    assert(c[base.len() as int] == 'c');
    assert(d[base.len() as int] == 'f');
    assert forall|i: int| 0 <= i < m.members.len() implies index_member_node(m.uuid, #[trigger] m.members[i].uuid)
        != container_node(m.uuid) && index_member_node(m.uuid, m.members[i].uuid) != d by {
        assert(index_member_node(m.uuid, m.members[i].uuid)[base.len() as int] == 'm');
    }
    let header = index_header(m);
    let members = index_members(m, ps, binding, m.members.len());
    let all = index_statements(m, ps, binding);
    lemma_graph_of(all);
    let g = graph_of(all);
    lemma_pairs_about_concat(header, members, c);
    lemma_pairs_about_concat(header, members, d);
    lemma_ct_terms_distinct();
    reveal_strlit("ContainerDescription");
    reveal_strlit("conformanceIndicator");
    reveal_strlit("description");
    reveal_strlit("containsDocument");
    reveal_strlit("InternalDocument");
    reveal_strlit("EncryptedDocument");
    reveal_strlit("FolderDocument");
    reveal_strlit("filename");
    reveal_strlit("url");
    reveal_strlit("foldername");
    reveal_strlit("name");
    reveal_strlit("filetype");
    reveal_strlit("format");
    reveal_strlit("checksum");
    reveal_strlit("checksumAlgorithm");
    reveal_strlit("requested");
    assert("filename"@[4] != "filetype"@[4]);
    assert("filename"@[0] != "checksum"@[0]);
    assert("filetype"@[0] != "checksum"@[0]);
    assert(ct_term("InternalDocument"@).len() != (CT@ + "EncryptedDocument"@).len());
    // The container.
    let hc = header.subrange(0, 4);
    let hd = header.subrange(4, 9);
    assert(header =~= hc + hd);
    lemma_pairs_about_concat(hc, hd, c);
    lemma_pairs_about_concat(hc, hd, d);
    assert forall|i: int| 0 <= i < hc.len() implies (#[trigger] hc[i]).0 == c by {
        assert(hc[i] == header[i]);
    }
    assert forall|i: int| 0 <= i < hd.len() implies (#[trigger] hd[i]).0 == d by {
        assert(hd[i] == header[i + 4]);
    }
    assert forall|i: int| 0 <= i < hc.len() implies (#[trigger] hc[i]).0 != d by {
        assert(hc[i] == header[i]);
    }
    assert forall|i: int| 0 <= i < hd.len() implies (#[trigger] hd[i]).0 != c by {
        assert(hd[i] == header[i + 4]);
    }
    lemma_pairs_about_all(hc, c);
    lemma_pairs_about_none(hd, c);
    lemma_pairs_about_all(hd, d);
    lemma_pairs_about_none(hc, d);
    lemma_index_members_container(m, ps, binding, m.members.len());
    assert forall|i: int| 0 <= i < members.len() implies (#[trigger] members[i]).0 != d by {
        lemma_index_members_subjects(m, ps, binding, m.members.len(), i);
    }
    lemma_pairs_about_none(members, d);
    let pc = statement_pairs(hc);
    let pm = pairs_about(members, c);
    assert(crate::rdfgraph::pairs_of(g, c) == pc + pm);
    assert(pc[1] == (ct_term("conformanceIndicator"@), ObjView::Literal("ICDD-Part1-Container"@)));
    assert(pc[2] == (ct_term("description"@), ObjView::Literal(m.name)));
    assert(pc[0].0 == RDF_TYPE@);
    assert(pc[3].0 == ct_term("containsDocument"@));
    lemma_objects_concat(pc, pm, ct_term("conformanceIndicator"@));
    lemma_objects_concat(pc, pm, ct_term("description"@));
    lemma_objects_single(pc, ct_term("conformanceIndicator"@), 1);
    lemma_objects_single(pc, ct_term("description"@), 2);
    lemma_objects_none(pm, ct_term("conformanceIndicator"@));
    lemma_objects_none(pm, ct_term("description"@));
    assert(objects_with(pc + pm, ct_term("conformanceIndicator"@)) =~= seq![ObjView::Literal("ICDD-Part1-Container"@)]);
    assert(objects_with(pc + pm, ct_term("description"@)) =~= seq![ObjView::Literal(m.name)]);
    assert(seq![ObjView::Literal("ICDD-Part1-Container"@)].drop_first() =~= Seq::<ObjView>::empty());
    assert(seq![ObjView::Literal(m.name)].drop_first() =~= Seq::<ObjView>::empty());
    // The metadata document.
    let pd = statement_pairs(hd);
    assert(crate::rdfgraph::pairs_of(g, d) =~= pd);
    assert(pd.len() == 5);
    assert(pd[0] == (RDF_TYPE@, ObjView::Resource(ct_term("InternalDocument"@))));
    assert(pd[1] == (ct_term("name"@), ObjView::Literal("Poing federation manifest"@)));
    assert(pd[2] == (ct_term("filename"@), ObjView::Literal(FEDERATION_RDF@)));
    assert(pd[3] == (ct_term("filetype"@), ObjView::Literal("rdf"@)));
    assert(pd[4] == (ct_term("format"@), ObjView::Literal("application/rdf+xml"@)));
    lemma_objects_single(pd, RDF_TYPE@, 0);
    lemma_objects_single(pd, ct_term("name"@), 1);
    lemma_objects_single(pd, ct_term("filename"@), 2);
    lemma_objects_single(pd, ct_term("filetype"@), 3);
    lemma_objects_single(pd, ct_term("format"@), 4);
    lemma_objects_none(pd, ct_term("description"@));
    lemma_objects_none(pd, ct_term("checksum"@));
    lemma_objects_none(pd, ct_term("checksumAlgorithm"@));
    lemma_objects_none(pd, ct_term("requested"@));
    assert(seq![ObjView::Literal("Poing federation manifest"@)].drop_first() =~= Seq::<ObjView>::empty());
    assert(seq![ObjView::Literal(FEDERATION_RDF@)].drop_first() =~= Seq::<ObjView>::empty());
    assert(seq![ObjView::Literal("rdf"@)].drop_first() =~= Seq::<ObjView>::empty());
    assert(seq![ObjView::Literal("application/rdf+xml"@)].drop_first() =~= Seq::<ObjView>::empty());
}

/// Every statement about the first `count` members is made of the container
/// or of one of the members' nodes.
proof fn lemma_index_members_subjects(m: ManifestView, ps: Seq<PayloadView>, binding: Seq<usize>, count: nat, i: int)
    requires
        count <= m.members.len(),
        binding.len() == m.members.len(),
        0 <= i < index_members(m, ps, binding, count).len(),
    ensures
        index_members(m, ps, binding, count)[i].0 == container_node(m.uuid) || exists|j: int|
            0 <= j < m.members.len() && index_members(m, ps, binding, count)[i].0 == index_member_node(
                m.uuid,
                #[trigger] m.members[j].uuid,
            ),
    decreases count,
{
    if count > 0 {
        let j = count - 1;
        let prev = index_members(m, ps, binding, (count - 1) as nat);
        let block = index_member_block(m, m.members[j], ps[binding[j] as int]);
        assert(index_members(m, ps, binding, count) == prev + block);
        if i < prev.len() {
            lemma_index_members_subjects(m, ps, binding, (count - 1) as nat, i);
            assert(index_members(m, ps, binding, count)[i] == prev[i]);
        } else {
            assert(index_members(m, ps, binding, count)[i] == block[i - prev.len()]);
            assert(block[i - prev.len()].0 == container_node(m.uuid) || block[i - prev.len()].0
                == index_member_node(m.uuid, m.members[j].uuid));
        }
    }
}

} // verus!
