//! IRI constants for the two ISO 21597-1 ontologies (Container and Linkset)
//! and the RDF vocabulary terms the container graphs use.

use vstd::prelude::*;
use vstd::string::*;

use crate::text::{chars_of, chars_last_pos, concat, last_pos, lemma_last_pos_bounds, seq_starts_with, str_starts_with};

verus! {

/// Container ontology namespace (`ct:`).
pub const CT: &'static str = "https://standards.iso.org/iso/21597/-1/ed-1/en/Container#";

/// Linkset ontology namespace (`ls:`).
pub const LS: &'static str = "https://standards.iso.org/iso/21597/-1/ed-1/en/Linkset#";

/// RDF syntax namespace.
pub const RDF: &'static str = "http://www.w3.org/1999/02/22-rdf-syntax-ns#";

/// `rdf:type`.
pub const RDF_TYPE: &'static str = "http://www.w3.org/1999/02/22-rdf-syntax-ns#type";

/// The mandatory value of `ct:conformanceIndicator` for a Part-1 container.
pub const CONFORMANCE_INDICATOR: &'static str = "ICDD-Part1-Container";

/// Build a `ct:` term IRI.
pub fn ct(local: &str) -> (r: String)
    ensures
        r@ == CT@ + local@,
{
    concat(CT, local)
}

/// Build an `ls:` term IRI.
pub fn ls(local: &str) -> (r: String)
    ensures
        r@ == LS@ + local@,
{
    concat(LS, local)
}

/// The local name of an IRI: the part after the last `#` or `/`, whichever
/// comes later, else the whole IRI.
pub open spec fn spec_local_name(iri: Seq<char>) -> Seq<char> {
    let h = last_pos(iri, '#');
    let s = last_pos(iri, '/');
    let cut = if h > s {
        h
    } else {
        s
    };
    if cut >= 0 {
        iri.subrange(cut + 1, iri.len() as int)
    } else {
        iri
    }
}

/// The local name of a `ct:`/`ls:`/other IRI (segment after the last `#` or `/`).
pub fn local_name(iri: &str) -> (r: &str)
    requires
        iri@.len() < 0x7fff_ffff_ffff_ffff,
    ensures
        r@ == spec_local_name(iri@),
{
    let cs = chars_of(iri);
    proof {
        lemma_last_pos_bounds(iri@, '#');
        lemma_last_pos_bounds(iri@, '/');
    }
    let h = chars_last_pos(cs.as_slice(), '#');
    let s = chars_last_pos(cs.as_slice(), '/');
    let cut = if h > s {
        h
    } else {
        s
    };
    if cut >= 0 {
        let from = (cut + 1) as usize;
        return iri.substring_char(from, cs.len());
    }
    iri
}

/// True if `iri` is a term in the Container ontology namespace.
pub fn is_ct(iri: &str) -> (r: bool)
    ensures
        r == seq_starts_with(iri@, CT@),
{
    str_starts_with(iri, CT)
}

/// True if `iri` is a term in the Linkset ontology namespace.
pub fn is_ls(iri: &str) -> (r: bool)
    ensures
        r == seq_starts_with(iri@, LS@),
{
    str_starts_with(iri, LS)
}

} // verus!
