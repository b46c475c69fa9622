//! ICDD container reader: the parsed index and linksets of a container, and
//! the paths under which its payloads may be written out.

use vstd::prelude::*;

use crate::container::{
    cur_dir, declared_path_ok, entry_readable, lemma_resolved_listed, lemma_root_indexes_listed,
    names_ok, root_indexes, slashes_normalized, zip_reading, MAX_ARCHIVE_ENTRIES, folded_unique, is_top_folder, parent_dir, reads_back, spec_resolve,
    linkset_entries, names_refusal, over_limit_detail, unsafe_path_detail, ContainerZip, ContainerZipView,
    MAX_INDEX_RDF_BYTES, MAX_LINKSET_RDF_BYTES, MAX_IN_MEMORY_PAYLOAD_BYTES,
    ONTOLOGY_DIR, PAYLOAD_DOCS_DIR, PAYLOAD_TRIPLES_DIR,
};
use crate::error::{not_conformant, IcddError};
use crate::index::{contains_id, parse_index, spec_index};
use crate::linkset::{parse_linkset, spec_linkset};
use crate::rdf::MAX_RDF_TRIPLES;
use crate::rdfgraph::{graph_of, graph_read, graph_read_error, parses_within_limit, strictly_sorted, EntryView, PairView};
use crate::schema::{
    spec_internal_path, spec_is_ifc, ContainerIndex, Document, DocumentView, IndexView, LinkSet,
    LinkSetView, LinksetRefView,
};
use crate::text::{
    chars_occur_at, chars_of, concat, join_chars, join_with, lemma_join_first, lemma_split_join,
    lemma_split_on_pieces, occurs_at, owned, seq_starts_with, split_chars,
    split_on, str_eq, string_of,
};
use crate::vocab::CONFORMANCE_INDICATOR;

verus! {


/// The segments that name something: neither empty nor `.`.
pub open spec fn named_segments(segs: Seq<Seq<char>>) -> Seq<Seq<char>>
    decreases segs.len(),
{
    if segs.len() == 0 {
        Seq::<Seq<char>>::empty()
    } else {
        let init = named_segments(segs.drop_last());
        if segs.last().len() > 0 && segs.last() != cur_dir() {
            init.push(segs.last())
        } else {
            init
        }
    }
}

/// What [`safe_relative_payload_path`] returns for `path`: the relative path
/// made of its normal components joined by `/`, or the error detail.
pub open spec fn spec_safe_relative_payload_path(path: Seq<char>) -> Result<Seq<char>, Seq<char>> {
    let n = slashes_normalized(path);
    let segs = split_on(n, '/');
    if seq_starts_with(n, seq!['/']) || exists|i: int| 0 <= i < segs.len() && segs[i] == parent_dir() {
        Err("unsafe payload path: "@ + path)
    } else if named_segments(segs).len() == 0 {
        Err("empty payload path"@)
    } else {
        Ok(join_with(named_segments(segs), '/'))
    }
}

/// Each named segment is one of the segments, neither empty nor `.`.
proof fn lemma_named_segments(segs: Seq<Seq<char>>)
    ensures
        forall|i: int|
            0 <= i < named_segments(segs).len() ==> {
                &&& segs.contains(#[trigger] named_segments(segs)[i])
                &&& named_segments(segs)[i].len() > 0
                &&& named_segments(segs)[i] != cur_dir()
            },
    decreases segs.len(),
{
    if segs.len() > 0 {
        let init = segs.drop_last();
        lemma_named_segments(init);
        assert forall|i: int| 0 <= i < named_segments(segs).len() implies {
            &&& segs.contains(#[trigger] named_segments(segs)[i])
            &&& named_segments(segs)[i].len() > 0
            &&& named_segments(segs)[i] != cur_dir()
        } by {
            if i < named_segments(init).len() {
                assert(named_segments(segs)[i] == named_segments(init)[i]);
                let k = choose|k: int| 0 <= k < init.len() && init[k] == named_segments(init)[i];
                assert(segs[k] == init[k]);
            } else {
                assert(named_segments(segs)[i] == segs.last());
                assert(segs[segs.len() - 1] == segs.last());
            }
        }
    }
}

/// A payload path that extraction accepts stays below the extraction
/// directory: it is not rooted, and its `/`-separated segments are the named
/// segments of the input (backslashes counting as separators), none of them
/// empty, `.` or `..`, and none holding a backslash.
pub proof fn lemma_safe_payload_path_contained(path: Seq<char>)
    requires
        spec_safe_relative_payload_path(path) is Ok,
    ensures
        ({
            let p = spec_safe_relative_payload_path(path)->Ok_0;
            let segs = split_on(p, '/');
            &&& p.len() > 0 && p[0] != '/'
            &&& segs == named_segments(split_on(slashes_normalized(path), '/'))
            &&& forall|i: int|
                0 <= i < segs.len() ==> {
                    &&& (#[trigger] segs[i]).len() > 0
                    &&& segs[i] != cur_dir()
                    &&& segs[i] != parent_dir()
                    &&& !segs[i].contains('\\')
                }
        }),
{
    let n = slashes_normalized(path);
    let all = split_on(n, '/');
    let named = named_segments(all);
    lemma_named_segments(all);
    lemma_split_on_pieces(n, '/');
    assert forall|i: int, j: int| 0 <= i < named.len() && 0 <= j < named[i].len() implies #[trigger] named[i][j]
        != '/' && named[i][j] != '\\' by {
        let k = choose|k: int| 0 <= k < all.len() && all[k] == named[i];
        assert(all[k][j] == named[i][j]);
        assert(n.contains(all[k][j]));
        let m = choose|m: int| 0 <= m < n.len() && n[m] == all[k][j];
        assert(n[m] == (if path[m] == '\\' { '/' } else { path[m] }));
    }
    lemma_split_join(named, '/');
    lemma_join_first(named, '/');
    assert(named[0].len() > 0);
    assert(named[0][0] != '/');
    assert forall|i: int| 0 <= i < named.len() implies (#[trigger] named[i]) != parent_dir() && !named[i].contains('\\') by {
        let k = choose|k: int| 0 <= k < all.len() && all[k] == named[i];
        if named[i].contains('\\') {
            let j = choose|j: int| 0 <= j < named[i].len() && named[i][j] == '\\';
            assert(named[i][j] != '\\');
        }
    }
}

/// The relative path (normal components joined by `/`) under which a payload
/// may be written below an extraction directory; rooted paths and paths with
/// `..` are refused. Backslashes count as separators.
pub fn safe_relative_payload_path(path: &str) -> (r: Result<String, IcddError>)
    ensures
        match spec_safe_relative_payload_path(path@) {
            Ok(p) => r matches Ok(s) && s@ == p,
            Err(d) => r matches Err(e) && e.is_not_conformant(d),
        },
{
    let cs = chars_of(path);
    let mut n: Vec<char> = Vec::new();
    let mut i: usize = 0;
    while i < cs.len()
        invariant
            i <= cs.len(),
            cs@ == path@,
            n@ == slashes_normalized(path@).take(i as int),
        decreases cs.len() - i,
    {
        let c = cs[i];
        if c == '\\' {
            n.push('/');
        } else {
            n.push(c);
        }
        i = i + 1;
        assert(n@ =~= slashes_normalized(path@).take(i as int));
    }
    let ghost norm = slashes_normalized(path@);
    assert(n@ =~= norm);
    if n.len() > 0 && n[0] == '/' {
        assert(norm.subrange(0, 1) =~= seq!['/']);
        return Err(not_conformant(concat("unsafe payload path: ", path)));
    }
    assert(!seq_starts_with(norm, seq!['/'])) by {
        if norm.len() > 0 {
            assert(norm.subrange(0, 1)[0] == norm[0]);
        }
    }
    let segs = split_chars(n.as_slice(), '/');
    let ghost views = segs@.map_values(|v: Vec<char>| v@);
    let mut kept: Vec<Vec<char>> = Vec::new();
    let mut j: usize = 0;
    while j < segs.len()
        invariant
            j <= segs.len(),
            views == segs@.map_values(|v: Vec<char>| v@),
            views == split_on(norm, '/'),
            norm == slashes_normalized(path@),
            !seq_starts_with(norm, seq!['/']),
            forall|k: int| 0 <= k < j ==> views[k] != parent_dir(),
            kept@.map_values(|v: Vec<char>| v@) == named_segments(views.take(j as int)),
        decreases segs.len() - j,
    {
        let seg = &segs[j];
        assert(views[j as int] == seg@);
        assert(views.take(j + 1).drop_last() =~= views.take(j as int));
        if seg.len() == 2 && seg[0] == '.' && seg[1] == '.' {
            assert(seg@ =~= parent_dir());
            let ghost segs_n = split_on(norm, '/');
            assert(segs_n[j as int] == parent_dir());
            assert(exists|i: int| 0 <= i < segs_n.len() && segs_n[i] == parent_dir());
            return Err(not_conformant(concat("unsafe payload path: ", path)));
        }
        assert(seg@ != parent_dir()) by {
            if seg@ == parent_dir() {
                assert(seg@[0] == '.' && seg@[1] == '.');
            }
        }
        let is_dot = seg.len() == 1 && seg[0] == '.';
        assert(is_dot == (seg@ == cur_dir())) by {
            if seg@ == cur_dir() {
                assert(seg@[0] == '.');
            }
            if is_dot {
                assert(seg@ =~= cur_dir());
            }
        }
        if seg.len() > 0 && !is_dot {
            let ghost before = kept@.map_values(|v: Vec<char>| v@);
            kept.push(seg.clone());
            assert(kept@.map_values(|v: Vec<char>| v@) =~= before.push(seg@));
        }
        j = j + 1;
    }
    assert(views.take(segs.len() as int) =~= views);
    if kept.len() == 0 {
        return Err(not_conformant(owned("empty payload path")));
    }
    let joined = join_chars(&kept, '/');
    Ok(string_of(joined.as_slice()))
}


// ---------------------------------------------------------------------------
// The container
/// The view of an [`IcddContainer`].
pub struct IcddContainerView {
    pub zip: ContainerZipView,
    pub index: IndexView,
    pub linksets: Seq<LinkSetView>,
    pub top_folders: Seq<Seq<char>>,
}

/// A parsed, validated ICDD container held in memory. The RDF (index and
/// linksets) is decoded when the container is opened; payload bytes are read
/// from the archive on request.
pub struct IcddContainer {
    zip: ContainerZip,
    index: ContainerIndex,
    linksets: Vec<LinkSet>,
    top_folders: Vec<String>,
}

impl View for IcddContainer {
    type V = IcddContainerView;

    closed spec fn view(&self) -> IcddContainerView {
        IcddContainerView {
            zip: self.zip@,
            index: self.index.deep_view(),
            linksets: self.linksets.deep_view(),
            top_folders: self.top_folders.deep_view(),
        }
    }
}

/// Every declared internal file name (other than the empty placeholder of a
/// document without a location) is a canonical archive path.
pub open spec fn internal_names_ok(docs: Seq<DocumentView>) -> bool {
    forall|i: int|
        0 <= i < docs.len() ==> (#[trigger] spec_internal_path(docs[i]) matches Some(f) ==> (f.len()
            == 0 || declared_path_ok(f)))
}

/// The linkset file names the index declares, in order.
pub open spec fn declared_linkset_names(files: Seq<LinksetRefView>) -> Seq<Seq<char>>
    decreases files.len(),
{
    if files.len() == 0 {
        Seq::<Seq<char>>::empty()
    } else {
        let init = declared_linkset_names(files.drop_last());
        match files.last().filename {
            Some(f) => init.push(f),
            None => init,
        }
    }
}

/// An archive path below `Payload triples/` made relative to that folder;
/// any other path unchanged.
pub open spec fn triples_relative(path: Seq<char>) -> Seq<char> {
    let prefix = PAYLOAD_TRIPLES_DIR@ + "/"@;
    if occurs_at(path, prefix, 0) {
        path.subrange(prefix.len() as int, path.len() as int)
    } else {
        path
    }
}

/// `names` followed by the relative name of each present linkset file that
/// is listed neither by its relative name nor by its full path.
pub open spec fn with_present_linksets(names: Seq<Seq<char>>, present: Seq<Seq<char>>) -> Seq<Seq<char>>
    decreases present.len(),
{
    if present.len() == 0 {
        names
    } else {
        let init = with_present_linksets(names, present.drop_last());
        let p = present.last();
        if !init.contains(triples_relative(p)) && !init.contains(p) {
            init.push(triples_relative(p))
        } else {
            init
        }
    }
}

/// The linkset files a container is read with: those its index names, then
/// those present below `Payload triples/` that the index does not name.
pub open spec fn linkset_candidates(index: IndexView, entry_names: Seq<Seq<char>>) -> Seq<Seq<char>> {
    with_present_linksets(declared_linkset_names(index.linkset_files), linkset_entries(entry_names))
}

/// The names whose flag is set, in order.
pub open spec fn selected(names: Seq<Seq<char>>, taken: Seq<bool>) -> Seq<Seq<char>>
    decreases names.len(),
{
    if names.len() == 0 || taken.len() == 0 {
        Seq::<Seq<char>>::empty()
    } else {
        let init = selected(names.drop_last(), taken.drop_last());
        if taken.last() {
            init.push(names.last())
        } else {
            init
        }
    }
}

/// Candidate `name` is read as a linkset of the archive read from `source`
/// as `(names, sizes, data)`: it resolves below `Payload triples/` to an
/// entry that reads, and whose size and bytes are within
/// [`MAX_LINKSET_RDF_BYTES`].
pub open spec fn linkset_taken(
    source: Seq<u8>,
    names: Seq<Seq<char>>,
    sizes: Map<Seq<char>, u64>,
    data: Map<Seq<char>, Seq<u8>>,
    name: Seq<char>,
) -> bool {
    spec_resolve(names, PAYLOAD_TRIPLES_DIR@, name) matches Ok(p) && entry_readable(source, p) && sizes[p]
        <= MAX_LINKSET_RDF_BYTES && data[p].len() <= MAX_LINKSET_RDF_BYTES
}

/// Which candidates are read as linksets, in order.
pub open spec fn taken_linksets(z: ContainerZipView, cands: Seq<Seq<char>>) -> Seq<bool> {
    cands.map_values(|n: Seq<char>| linkset_taken(z.source, z.names, z.sizes, z.data, n))
}

/// The linksets read are, in order, exactly the candidates that are read as
/// linksets ([`linkset_taken`]); a candidate that names no entry, one that
/// does not read, or a larger one, is skipped.
pub open spec fn linksets_read(c: IcddContainerView) -> bool {
    let cands = linkset_candidates(c.index, c.zip.names);
    c.linksets.map_values(|l: LinkSetView| l.filename) == selected(cands, taken_linksets(c.zip, cands))
}

/// The entry of the first candidate from position `k` on that is read as a
/// linkset but does not parse within the triple limit.
pub open spec fn first_unparsed_linkset(
    source: Seq<u8>,
    names: Seq<Seq<char>>,
    sizes: Map<Seq<char>, u64>,
    data: Map<Seq<char>, Seq<u8>>,
    cands: Seq<Seq<char>>,
    k: nat,
) -> Option<Seq<char>>
    decreases cands.len() - k,
{
    if k >= cands.len() {
        None
    } else if linkset_taken(source, names, sizes, data, cands[k as int]) && !parses_within_limit(
        data[spec_resolve(names, PAYLOAD_TRIPLES_DIR@, cands[k as int])->Ok_0],
    ) {
        Some(spec_resolve(names, PAYLOAD_TRIPLES_DIR@, cands[k as int])->Ok_0)
    } else {
        first_unparsed_linkset(source, names, sizes, data, cands, k + 1)
    }
}

/// The linkset was read from the archive: its file name resolves below
/// `Payload triples/` to an entry whose bytes read as a graph that
/// describes it.
pub open spec fn linkset_from_archive(z: ContainerZipView, l: LinkSetView) -> bool {
    spec_resolve(z.names, PAYLOAD_TRIPLES_DIR@, l.filename) matches Ok(p) && exists|g: Seq<EntryView>|
        #[trigger] graph_read(z.data[p], g) && l == spec_linkset(g, l.filename)
}

/// The index was read from the archive: the root index entry's bytes read
/// as a graph that describes it.
pub open spec fn index_from_archive(z: ContainerZipView, index: IndexView) -> bool {
    exists|g: Seq<EntryView>|
        #[trigger] graph_read(z.data[z.index_path], g) && spec_index(g) == Ok::<IndexView, Seq<char>>(index)
}

/// Every linkset file a container with index `index` is read with, that
/// names an entry, holds RDF/XML that parses within the triple limit.
pub open spec fn linksets_parse(index: IndexView, names: Seq<Seq<char>>, data: Map<Seq<char>, Seq<u8>>) -> bool {
    let cands = linkset_candidates(index, names);
    forall|k: int|
        0 <= k < cands.len() ==> (spec_resolve(names, PAYLOAD_TRIPLES_DIR@, #[trigger] cands[k]) matches Ok(p)
            ==> parses_within_limit(data[p]))
}

/// The root index entry `ip` of the archive in `bytes` reads within the
/// metadata limit and parses, and under every reading it describes a
/// container whose declared internal file names are canonical and whose
/// linkset files parse.
pub open spec fn index_opens(
    bytes: Seq<u8>,
    names: Seq<Seq<char>>,
    sizes: Map<Seq<char>, u64>,
    data: Map<Seq<char>, Seq<u8>>,
    ip: Seq<char>,
) -> bool {
    &&& entry_readable(bytes, ip)
    &&& sizes[ip] <= MAX_INDEX_RDF_BYTES
    &&& data[ip].len() <= MAX_INDEX_RDF_BYTES
    &&& parses_within_limit(data[ip])
    &&& forall|g: Seq<EntryView>|
        #[trigger] graph_read(data[ip], g) ==> (spec_index(g) matches Ok(iv) && internal_names_ok(iv.documents)
            && linksets_parse(iv, names, data))
}

/// The bytes open as a container: the `zip` crate reads them, every entry
/// name is a canonical path, no two are equal ignoring ASCII case,
/// exactly one root entry is the index, and the index opens
/// ([`index_opens`]).
pub open spec fn opens_successfully(bytes: Seq<u8>) -> bool {
    zip_reading(bytes) matches Some((names, sizes, data)) && {
        &&& names.len() <= MAX_ARCHIVE_ENTRIES
        &&& names_ok(names)
        &&& index_opens(bytes, names, sizes, data, root_indexes(names)[0])
    }
}

/// The linkset is what some RDF graph of at most [`MAX_RDF_TRIPLES`]
/// statements describes, recorded under its file name.
pub open spec fn is_parsed_linkset(l: LinkSetView) -> bool {
    exists|ts: Seq<(Seq<char>, PairView)>|
        ts.len() <= MAX_RDF_TRIPLES && l == spec_linkset(graph_of(ts), l.filename)
}

/// The documents that are IFC payloads available in the container: IFC,
/// internal, and not merely requested.
pub open spec fn available_ifc(docs: Seq<DocumentView>) -> Seq<DocumentView>
    decreases docs.len(),
{
    if docs.len() == 0 {
        Seq::<DocumentView>::empty()
    } else if spec_is_ifc(docs.last()) && !docs.last().requested && spec_internal_path(docs.last()) is Some {
        available_ifc(docs.drop_last()).push(docs.last())
    } else {
        available_ifc(docs.drop_last())
    }
}

/// A document is an available IFC payload: IFC, internal, and not a
/// `ct:requested` slot.
pub open spec fn is_available_ifc(d: DocumentView) -> bool {
    spec_is_ifc(d) && !d.requested && spec_internal_path(d) is Some
}

/// The available IFC documents are exactly the documents that are IFC,
/// internal and not requested: no requested slot, external reference or
/// non-IFC document is among them, and every such document of the index is.
pub proof fn lemma_available_ifc(docs: Seq<DocumentView>)
    ensures
        forall|k: int|
            0 <= k < available_ifc(docs).len() ==> {
                &&& !(#[trigger] available_ifc(docs)[k]).requested
                &&& spec_is_ifc(available_ifc(docs)[k])
                &&& spec_internal_path(available_ifc(docs)[k]) is Some
            },
        forall|d: DocumentView| #[trigger]
            available_ifc(docs).contains(d) <==> docs.contains(d) && is_available_ifc(d),
        available_ifc(docs).len() <= docs.len(),
    decreases docs.len(),
{
    if docs.len() > 0 {
        let init = docs.drop_last();
        let x = docs.last();
        lemma_available_ifc(init);
        let ai = available_ifc(init);
        assert forall|d: DocumentView| docs.contains(d) <==> init.contains(d) || d == x by {
            if init.contains(d) {
                let i = choose|i: int| 0 <= i < init.len() && init[i] == d;
                assert(docs[i] == d);
            }
            if d == x {
                assert(docs[docs.len() - 1] == d);
            }
            if docs.contains(d) {
                let i = choose|i: int| 0 <= i < docs.len() && docs[i] == d;
                if i < init.len() {
                    assert(init[i] == d);
                }
            }
        }
        if is_available_ifc(x) {
            assert(available_ifc(docs) == ai.push(x));
            assert forall|d: DocumentView| ai.push(x).contains(d) <==> ai.contains(d) || d == x by {
                if ai.contains(d) {
                    let j = choose|j: int| 0 <= j < ai.len() && ai[j] == d;
                    assert(ai.push(x)[j] == d);
                }
                if d == x {
                    assert(ai.push(x)[ai.len() as int] == d);
                }
                if ai.push(x).contains(d) {
                    let j = choose|j: int| 0 <= j < ai.len() + 1 && ai.push(x)[j] == d;
                    if j < ai.len() {
                        assert(ai[j] == d);
                    }
                }
            }
            assert forall|k: int| 0 <= k < available_ifc(docs).len() implies {
                &&& !(#[trigger] available_ifc(docs)[k]).requested
                &&& spec_is_ifc(available_ifc(docs)[k])
                &&& spec_internal_path(available_ifc(docs)[k]) is Some
            } by {
                if k < ai.len() {
                    assert(available_ifc(docs)[k] == ai[k]);
                }
            }
        } else {
            assert(available_ifc(docs) == ai);
        }
        assert forall|d: DocumentView| #[trigger]
            available_ifc(docs).contains(d) <==> docs.contains(d) && is_available_ifc(d) by {
            assert(ai.contains(d) <==> init.contains(d) && is_available_ifc(d));
            assert(docs.contains(d) <==> init.contains(d) || d == x);
            if is_available_ifc(x) {
                assert(ai.push(x).contains(d) <==> ai.contains(d) || d == x);
            }
        }
    }
}

/// The documents that are IFC payloads, requested slots and external ones
/// included.
pub open spec fn all_ifc(docs: Seq<DocumentView>) -> Seq<DocumentView>
    decreases docs.len(),
{
    if docs.len() == 0 {
        Seq::<DocumentView>::empty()
    } else if spec_is_ifc(docs.last()) {
        all_ifc(docs.drop_last()).push(docs.last())
    } else {
        all_ifc(docs.drop_last())
    }
}

/// The IFC documents, requested slots and external ones included, are
/// exactly the IFC-typed documents of the index.
pub proof fn lemma_all_ifc(docs: Seq<DocumentView>)
    ensures
        forall|k: int|
            0 <= k < all_ifc(docs).len() ==> spec_is_ifc(#[trigger] all_ifc(docs)[k]),
        forall|d: DocumentView| #[trigger]
            all_ifc(docs).contains(d) <==> docs.contains(d) && spec_is_ifc(d),
        all_ifc(docs).len() <= docs.len(),
    decreases docs.len(),
{
    if docs.len() > 0 {
        let init = docs.drop_last();
        let x = docs.last();
        lemma_all_ifc(init);
        let ai = all_ifc(init);
        assert forall|d: DocumentView| docs.contains(d) <==> init.contains(d) || d == x by {
            if init.contains(d) {
                let i = choose|i: int| 0 <= i < init.len() && init[i] == d;
                assert(docs[i] == d);
            }
            if d == x {
                assert(docs[docs.len() - 1] == d);
            }
            if docs.contains(d) {
                let i = choose|i: int| 0 <= i < docs.len() && docs[i] == d;
                if i < init.len() {
                    assert(init[i] == d);
                }
            }
        }
        if spec_is_ifc(x) {
            assert(all_ifc(docs) == ai.push(x));
            assert forall|d: DocumentView| ai.push(x).contains(d) <==> ai.contains(d) || d == x by {
                if ai.contains(d) {
                    let j = choose|j: int| 0 <= j < ai.len() && ai[j] == d;
                    assert(ai.push(x)[j] == d);
                }
                if d == x {
                    assert(ai.push(x)[ai.len() as int] == d);
                }
                if ai.push(x).contains(d) {
                    let j = choose|j: int| 0 <= j < ai.len() + 1 && ai.push(x)[j] == d;
                    if j < ai.len() {
                        assert(ai[j] == d);
                    }
                }
            }
            assert forall|k: int| 0 <= k < all_ifc(docs).len() implies spec_is_ifc(#[trigger] all_ifc(docs)[k]) by {
                if k < ai.len() {
                    assert(all_ifc(docs)[k] == ai[k]);
                }
            }
        } else {
            assert(all_ifc(docs) == ai);
        }
        assert forall|d: DocumentView| #[trigger]
            all_ifc(docs).contains(d) <==> docs.contains(d) && spec_is_ifc(d) by {
            assert(ai.contains(d) <==> init.contains(d) && spec_is_ifc(d));
            assert(docs.contains(d) <==> init.contains(d) || d == x);
            if spec_is_ifc(x) {
                assert(ai.push(x).contains(d) <==> ai.contains(d) || d == x);
            }
        }
    }
}

/// The detail text of the error for reading a document that is not internal.
pub open spec fn not_internal_detail(id: Seq<char>) -> Seq<char> {
    "document "@ + id + " is not an internal document (no in-container bytes)"@
}

/// The issue reported when a mandatory top-level folder is missing.
pub open spec fn folder_issue(tops: Seq<Seq<char>>, folder: Seq<char>) -> Seq<Seq<char>> {
    if tops.contains(folder) {
        Seq::<Seq<char>>::empty()
    } else {
        seq!["missing top-level folder '"@ + folder + "'"@]
    }
}

/// The issue reported about the conformance indicator, if any.
pub open spec fn indicator_issue(indicator: Option<Seq<char>>) -> Seq<Seq<char>> {
    match indicator {
        Some(v) => if v == CONFORMANCE_INDICATOR@ {
            Seq::<Seq<char>>::empty()
        } else {
            seq![
                "ct:conformanceIndicator is '"@ + v + "', expected '"@ + CONFORMANCE_INDICATOR@
                    + "'"@,
            ]
        },
        None => seq!["ct:conformanceIndicator is absent"@],
    }
}

/// The unmet requirements of ISO 21597-1 Clause 5 that a container reports:
/// the missing mandatory folders, in the order ontology resources, payload
/// documents, payload triples, then the conformance indicator.
pub open spec fn spec_conformance_issues(tops: Seq<Seq<char>>, indicator: Option<Seq<char>>) -> Seq<Seq<char>> {
    folder_issue(tops, ONTOLOGY_DIR@) + folder_issue(tops, PAYLOAD_DOCS_DIR@) + folder_issue(
        tops,
        PAYLOAD_TRIPLES_DIR@,
    ) + indicator_issue(indicator)
}

/// A container reports no issue exactly when its three mandatory folders are
/// present and its conformance indicator is `ICDD-Part1-Container`.
pub proof fn lemma_conformant_iff(tops: Seq<Seq<char>>, indicator: Option<Seq<char>>)
    ensures
        spec_conformance_issues(tops, indicator).len() == 0 <==> (tops.contains(ONTOLOGY_DIR@)
            && tops.contains(PAYLOAD_DOCS_DIR@) && tops.contains(PAYLOAD_TRIPLES_DIR@)
            && indicator == Some(CONFORMANCE_INDICATOR@)),
{
}

/// The issue reported when `folder` is missing, if it is.
/// The first declared internal file name, in document order, that is not
/// empty and not a canonical path.
pub open spec fn first_unsafe_internal(docs: Seq<DocumentView>) -> Option<Seq<char>>
    decreases docs.len(),
{
    if docs.len() == 0 {
        None
    } else {
        match first_unsafe_internal(docs.drop_last()) {
            Some(f) => Some(f),
            None => match spec_internal_path(docs.last()) {
                Some(f) => if f.len() > 0 && !declared_path_ok(f) {
                    Some(f)
                } else {
                    None
                },
                None => None,
            },
        }
    }
}

/// An unsafe name among the first documents is the first of all of them.
proof fn lemma_unsafe_prefix(docs: Seq<DocumentView>, k: int)
    requires
        0 <= k <= docs.len(),
        first_unsafe_internal(docs.take(k)) is Some,
    ensures
        first_unsafe_internal(docs) == first_unsafe_internal(docs.take(k)),
    decreases docs.len(),
{
    if k == docs.len() {
        assert(docs.take(k) =~= docs);
    } else {
        assert(docs.drop_last().take(k) =~= docs.take(k));
        lemma_unsafe_prefix(docs.drop_last(), k);
    }
}

/// What opening gives where the index reads as graph `g`: the index's error
/// if it does not describe a container, else the refusal of the first
/// unsafe declared internal file name, where there is one.
pub open spec fn index_refusal<T>(g: Seq<EntryView>, r: Result<T, IcddError>) -> bool {
    match spec_index(g) {
        Err(d) => r matches Err(e) && e.is_not_conformant(d),
        Ok(iv) => match first_unsafe_internal(iv.documents) {
            Some(f) => r matches Err(e) && e.is_not_conformant(unsafe_path_detail(f)),
            None => true,
        },
    }
}

/// The outcome of opening an archive read as `(names, sizes, data)` from
/// `bytes` whose names are accepted: refused for an index entry over the
/// metadata limit, an index that does not parse, an index that does not
/// describe a container or declares an unsafe internal file name, or the
/// first linkset read that does not parse; otherwise opened with the index
/// `iv` read, where `opened(iv)` says what follows.
pub open spec fn open_outcome<T>(
    bytes: Seq<u8>,
    names: Seq<Seq<char>>,
    sizes: Map<Seq<char>, u64>,
    data: Map<Seq<char>, Seq<u8>>,
    r: Result<T, IcddError>,
    opened: spec_fn(IndexView) -> bool,
) -> bool {
    let ip = root_indexes(names)[0];
    &&& entry_readable(bytes, ip) && sizes[ip] > MAX_INDEX_RDF_BYTES ==> (r matches Err(e)
        && e.is_not_conformant(over_limit_detail(ip, MAX_INDEX_RDF_BYTES, "metadata"@)))
    &&& entry_readable(bytes, ip) && sizes[ip] <= MAX_INDEX_RDF_BYTES && data[ip].len() <= MAX_INDEX_RDF_BYTES
        ==> {
        &&& !parses_within_limit(data[ip]) ==> (r matches Err(e) && graph_read_error(data[ip], e))
        &&& parses_within_limit(data[ip]) ==> exists|g: Seq<EntryView>|
            #[trigger] graph_read(data[ip], g) && index_refusal(g, r) && (spec_index(g) is Ok
                && first_unsafe_internal(spec_index(g)->Ok_0.documents) is None ==> match first_unparsed_linkset(
                bytes,
                names,
                sizes,
                data,
                linkset_candidates(spec_index(g)->Ok_0, names),
                0,
            ) {
                Some(p) => r matches Err(e) && graph_read_error(data[p], e),
                None => opened(spec_index(g)->Ok_0),
            })
    }
}

/// What opening gives for an archive whose names are accepted
/// ([`open_outcome`]): where it is not refused, a container with the index
/// read.
pub open spec fn open_refusal(
    bytes: Seq<u8>,
    names: Seq<Seq<char>>,
    sizes: Map<Seq<char>, u64>,
    data: Map<Seq<char>, Seq<u8>>,
    r: Result<IcddContainer, IcddError>,
) -> bool {
    open_outcome(bytes, names, sizes, data, r, |iv: IndexView| r matches Ok(c) && c@.index == iv)
}

fn check_folder(tops: &Vec<String>, folder: &str) -> (r: Vec<String>)
    ensures
        r.deep_view() == folder_issue(tops.deep_view(), folder@),
{
    let mut r: Vec<String> = Vec::new();
    if contains_id(tops, folder) {
        assert(r.deep_view() =~= Seq::<Seq<char>>::empty());
    } else {
        let a = concat("missing top-level folder '", folder);
        r.push(concat(a.as_str(), "'"));
        assert(r.deep_view() =~= folder_issue(tops.deep_view(), folder@));
    }
    r
}

impl IcddContainer {
    /// Open and parse a container held in memory.
    ///
    /// The archive's entry names are validated, `Index.rdf` is read (at most
    /// 16 MiB) and parsed, the declared internal file names are checked, and
    /// every linkset named by the index or present below `Payload triples/`
    /// is parsed (a named linkset that cannot be read is skipped).
    pub fn open(bytes: Vec<u8>) -> (r: Result<IcddContainer, IcddError>)
        ensures
            r matches Ok(c) ==> forall|k: int| 0 <= k < c@.linksets.len() ==> is_parsed_linkset(#[trigger] c@.linksets[k]),
            r matches Ok(c) ==> linksets_read(c@),
            r matches Ok(c) ==> index_from_archive(c@.zip, c@.index),
            r matches Ok(c) ==> root_indexes(c@.zip.names) == seq![c@.zip.index_path],
            opens_successfully(bytes@) ==> r is Ok,
            match zip_reading(bytes@) {
                None => r matches Err(e) && e is Zip,
                Some((names, sizes, data)) => {
                    &&& r matches Ok(c) ==> c@.zip.names == names && c@.zip.sizes == sizes && c@.zip.data == data
                        && c@.zip.source == bytes@
                    &&& names_refusal(names) matches Some(d) ==> (r matches Err(e) && e.is_not_conformant(d))
                    &&& names_refusal(names) is None ==> open_refusal(bytes@, names, sizes, data, r)
                },
            },
            r matches Ok(c) ==> forall|k: int| 0 <= k < c@.linksets.len() ==> linkset_from_archive(c@.zip, #[trigger] c@.linksets[k]),
            r matches Ok(c) ==> internal_names_ok(c@.index.documents) && strictly_sorted(
                c@.top_folders,
            ) && (forall|t: Seq<char>| #[trigger] c@.top_folders.contains(t) <==> is_top_folder(
                c@.zip.names,
                t,
            )),
            r matches Ok(c) ==> reads_back(bytes@, c@.zip.names, c@.zip.sizes, c@.zip.data)
                && folded_unique(c@.zip.names),
            r matches Ok(c) ==> c@.zip.sizes[c@.zip.index_path] <= MAX_INDEX_RDF_BYTES && exists|
                ts: Seq<(Seq<char>, PairView)>,
            |
                ts.len() <= MAX_RDF_TRIPLES && spec_index(graph_of(ts)) == Ok::<IndexView, Seq<char>>(
                    c@.index,
                ),
    {
        let ghost input = bytes@;
        let ghost good = opens_successfully(input);
        let mut zip = ContainerZip::open(bytes)?;
        proof {
            lemma_root_indexes_listed(zip@.names);
            assert(seq![zip@.index_path][0] == zip@.index_path);
        }
        let top_folders = zip.top_folders();
        let index_bytes = zip.index_bytes()?;
        let index = parse_index(index_bytes.as_slice())?;
        let ghost z0 = zip@;
        let ghost docs = index.documents.deep_view();
        let ghost gi = choose|g: Seq<EntryView>|
            #[trigger] graph_read(index_bytes@, g) && spec_index(g) == Ok::<IndexView, Seq<char>>(index.deep_view());
        assert(graph_read(z0.data[z0.index_path], gi));
        assert(spec_index(gi) == Ok::<IndexView, Seq<char>>(index.deep_view()));
        assert(parses_within_limit(z0.data[z0.index_path]));
        assert(good ==> internal_names_ok(docs) && linksets_parse(index.deep_view(), z0.names, z0.data));
        let mut i: usize = 0;
        assert(docs.take(0) =~= Seq::<DocumentView>::empty());
        while i < index.documents.len()
            invariant
                i <= index.documents.len(),
                docs == index.documents.deep_view(),
                input == bytes@,
                zip_reading(input) is Some,
                good == opens_successfully(input),
                good ==> internal_names_ok(docs),
                forall|k: int|
                    0 <= k < i ==> (#[trigger] spec_internal_path(docs[k]) matches Some(f) ==> (f.len()
                        == 0 || declared_path_ok(f))),
                first_unsafe_internal(docs.take(i as int)) is None,
                graph_read(z0.data[z0.index_path], gi),
                spec_index(gi) == Ok::<IndexView, Seq<char>>(index.deep_view()),
                zip_reading(input) == Some((z0.names, z0.sizes, z0.data)),
                root_indexes(z0.names)[0] == z0.index_path,
                names_refusal(z0.names) is None,
                z0.sizes[z0.index_path] <= MAX_INDEX_RDF_BYTES,
                parses_within_limit(z0.data[z0.index_path]),
            decreases index.documents.len() - i,
        {
            assert(docs[i as int] == index.documents@[i as int].deep_view());
            assert(docs.take(i + 1).drop_last() =~= docs.take(i as int));
            assert(docs.take(i + 1).last() == docs[i as int]);
            if let Some(path) = index.documents[i].internal_path() {
                if chars_of(path).len() > 0 {
                    let checked = zip.validate_payload_reference(path);
                    if checked.is_err() {
                        proof {
                            assert(spec_internal_path(docs[i as int]) == Some(path@));
                            assert(first_unsafe_internal(docs.take(i + 1)) == Some(path@));
                            lemma_unsafe_prefix(docs, i + 1);
                        }
                        return Err(checked.unwrap_err());
                    }
                }
            }
            i = i + 1;
        }
        assert(docs.take(i as int) =~= docs);
        let ghost files = index.linkset_files.deep_view();
        let mut linkset_names: Vec<String> = Vec::new();
        let mut j: usize = 0;
        assert(files.take(0) =~= Seq::<LinksetRefView>::empty());
        while j < index.linkset_files.len()
            invariant
                j <= index.linkset_files.len(),
                files == index.linkset_files.deep_view(),
                linkset_names.deep_view() == declared_linkset_names(files.take(j as int)),
            decreases index.linkset_files.len() - j,
        {
            assert(files.take(j + 1).drop_last() =~= files.take(j as int));
            assert(files.take(j + 1).last() == index.linkset_files[j as int].deep_view());
            if let Some(f) = &index.linkset_files[j].filename {
                let ghost before = linkset_names.deep_view();
                linkset_names.push(f.clone());
                assert(linkset_names.deep_view() =~= before.push(f@));
            }
            j = j + 1;
        }
        assert(files.take(j as int) =~= files);
        let ghost declared = linkset_names.deep_view();
        let present = zip.linkset_paths();
        let ghost pv = present.deep_view();
        let prefix = concat(PAYLOAD_TRIPLES_DIR, "/");
        let pc = chars_of(prefix.as_str());
        let mut k: usize = 0;
        assert(pv.take(0) =~= Seq::<Seq<char>>::empty());
        while k < present.len()
            invariant
                k <= present.len(),
                pv == present.deep_view(),
                pc@ == PAYLOAD_TRIPLES_DIR@ + "/"@,
                linkset_names.deep_view() == with_present_linksets(declared, pv.take(k as int)),
            decreases present.len() - k,
        {
            let p = &present[k];
            assert(pv[k as int] == p@);
            assert(pv.take(k + 1).drop_last() =~= pv.take(k as int));
            assert(pv.take(k + 1).last() == p@);
            let cs = chars_of(p.as_str());
            let rel = if chars_occur_at(cs.as_slice(), pc.as_slice(), 0) {
                string_of(vstd::slice::slice_subrange(cs.as_slice(), pc.len(), cs.len()))
            } else {
                p.clone()
            };
            assert(rel@ == triples_relative(p@));
            if !contains_id(&linkset_names, rel.as_str()) && !contains_id(&linkset_names, p.as_str()) {
                let ghost before = linkset_names.deep_view();
                linkset_names.push(rel);
                assert(linkset_names.deep_view() =~= before.push(triples_relative(p@)));
            }
            k = k + 1;
        }
        assert(pv.take(k as int) =~= pv);
        let ghost cands = linkset_names.deep_view();
        assert(cands == linkset_candidates(index.deep_view(), z0.names));
        let mut linksets: Vec<LinkSet> = Vec::new();
        let ghost mut taken: Seq<bool> = Seq::empty();
        let mut m: usize = 0;
        assert(taken =~= taken_linksets(z0, cands).take(0));
        while m < linkset_names.len()
            invariant
                m <= linkset_names.len(),
                cands == linkset_names.deep_view(),
                cands == linkset_candidates(index.deep_view(), z0.names),
                good == opens_successfully(input),
                good ==> linksets_parse(index.deep_view(), z0.names, z0.data),
                taken.len() == m,
                zip@ == z0,
                input == bytes@,
                zip_reading(input) is Some,
                reads_back(input, z0.names, z0.sizes, z0.data),
                folded_unique(z0.names),
                names_ok(z0.names) && z0.names.len() <= MAX_ARCHIVE_ENTRIES,
                zip_reading(input) matches Some((rn, rs, rd)) ==> rn == z0.names,
                zip_reading(input) == Some((z0.names, z0.sizes, z0.data)),
                root_indexes(z0.names)[0] == z0.index_path,
                graph_read(z0.data[z0.index_path], gi),
                spec_index(gi) == Ok::<IndexView, Seq<char>>(index.deep_view()),
                first_unsafe_internal(index.documents.deep_view()) is None,
                z0.sizes[z0.index_path] <= MAX_INDEX_RDF_BYTES,
                parses_within_limit(z0.data[z0.index_path]),
                names_refusal(z0.names) is None,
                forall|k: int| 0 <= k < linksets.len() ==> is_parsed_linkset(#[trigger] linksets.deep_view()[k]),
                forall|k: int| 0 <= k < linksets.len() ==> linkset_from_archive(z0, #[trigger] linksets.deep_view()[k]),
                linksets.deep_view().map_values(|l: LinkSetView| l.filename) == selected(cands.take(m as int), taken),
                taken == taken_linksets(z0, cands).take(m as int),
                first_unparsed_linkset(z0.source, z0.names, z0.sizes, z0.data, cands, 0)
                    == first_unparsed_linkset(z0.source, z0.names, z0.sizes, z0.data, cands, m as nat),
                z0.source == input,
            decreases linkset_names.len() - m,
        {
            let ghost before = linksets.deep_view();
            let ghost taken_before = taken;
            assert(cands.take(m + 1).drop_last() =~= cands.take(m as int));
            assert(cands.take(m + 1).last() == cands[m as int]);
            assert(cands[m as int] == linkset_names[m as int]@);
            match zip.linkset_bytes(linkset_names[m].as_str()) {
                Ok(bytes) => {
                    let parsed = match parse_linkset(linkset_names[m].as_str(), bytes.as_slice()) {
                        Ok(l) => l,
                        Err(e) => {
                            assert(!parses_within_limit(bytes@));
                            assert(!linksets_parse(index.deep_view(), z0.names, z0.data));
                            assert(linkset_taken(z0.source, z0.names, z0.sizes, z0.data, cands[m as int]));
                            return Err(e);
                        },
                    };
                    let ghost lv = parsed.deep_view();
                    linksets.push(parsed);
                    assert(linksets.deep_view() =~= before.push(lv));
                    proof {
                        taken = taken.push(true);
                        assert(linkset_taken(z0.source, z0.names, z0.sizes, z0.data, cands[m as int]));
                    }
                    assert(lv.filename == cands[m as int]);
                    assert(linksets.deep_view().map_values(|l: LinkSetView| l.filename) =~= before.map_values(
                        |l: LinkSetView| l.filename,
                    ).push(lv.filename));
                },
                Err(_) => {
                    proof {
                        if spec_resolve(z0.names, PAYLOAD_TRIPLES_DIR@, cands[m as int]) is Ok {
                            lemma_resolved_listed(z0.names, PAYLOAD_TRIPLES_DIR@, cands[m as int]);
                        }
                        assert(!linkset_taken(z0.source, z0.names, z0.sizes, z0.data, cands[m as int]));
                        taken = taken.push(false);
                    }
                },
            }
            assert(taken =~= taken_linksets(z0, cands).take(m + 1));
            assert(taken.drop_last() =~= taken_before);
            assert(selected(cands.take(m + 1), taken) == if taken.last() {
                selected(cands.take(m as int), taken_before).push(cands[m as int])
            } else {
                selected(cands.take(m as int), taken_before)
            });
            m = m + 1;
        }
        assert(cands.take(m as int) =~= cands);
        assert(selected(cands, taken) == linksets.deep_view().map_values(|l: LinkSetView| l.filename));
        let c = IcddContainer { zip, index, linksets, top_folders };
        assert(c@.zip == z0);
        assert(linkset_candidates(c@.index, c@.zip.names) == cands);
        assert(taken =~= taken_linksets(z0, cands));
        assert(c@.linksets.map_values(|l: LinkSetView| l.filename) == selected(cands, taken));
        assert(linksets_read(c@));
        Ok(c)
    }

    /// Open a container from an in-memory byte buffer (e.g. an HTTP upload).
    pub fn open_bytes(bytes: Vec<u8>) -> (r: Result<IcddContainer, IcddError>)
        ensures
            r matches Ok(c) ==> forall|k: int| 0 <= k < c@.linksets.len() ==> is_parsed_linkset(#[trigger] c@.linksets[k]),
            r matches Ok(c) ==> linksets_read(c@),
            r matches Ok(c) ==> index_from_archive(c@.zip, c@.index),
            r matches Ok(c) ==> root_indexes(c@.zip.names) == seq![c@.zip.index_path],
            opens_successfully(bytes@) ==> r is Ok,
            match zip_reading(bytes@) {
                None => r matches Err(e) && e is Zip,
                Some((names, sizes, data)) => {
                    &&& r matches Ok(c) ==> c@.zip.names == names && c@.zip.sizes == sizes && c@.zip.data == data
                        && c@.zip.source == bytes@
                    &&& names_refusal(names) matches Some(d) ==> (r matches Err(e) && e.is_not_conformant(d))
                    &&& names_refusal(names) is None ==> open_refusal(bytes@, names, sizes, data, r)
                },
            },
            r matches Ok(c) ==> forall|k: int| 0 <= k < c@.linksets.len() ==> linkset_from_archive(c@.zip, #[trigger] c@.linksets[k]),
            r matches Ok(c) ==> internal_names_ok(c@.index.documents) && strictly_sorted(
                c@.top_folders,
            ) && (forall|t: Seq<char>| #[trigger] c@.top_folders.contains(t) <==> is_top_folder(
                c@.zip.names,
                t,
            )),
            r matches Ok(c) ==> reads_back(bytes@, c@.zip.names, c@.zip.sizes, c@.zip.data)
                && folded_unique(c@.zip.names),
            r matches Ok(c) ==> c@.zip.sizes[c@.zip.index_path] <= MAX_INDEX_RDF_BYTES && exists|
                ts: Seq<(Seq<char>, PairView)>,
            |
                ts.len() <= MAX_RDF_TRIPLES && spec_index(graph_of(ts)) == Ok::<IndexView, Seq<char>>(
                    c@.index,
                ),
    {
        IcddContainer::open(bytes)
    }

    /// Read the `Index.rdf` bytes as stored, including unknown extension triples.
    pub fn index_rdf_bytes(&mut self) -> (r: Result<Vec<u8>, IcddError>)
        ensures
            final(self)@ == old(self)@,
            r matches Ok(b) ==> b@ == old(self)@.zip.data[old(self)@.zip.index_path] && b@.len()
                <= MAX_INDEX_RDF_BYTES,
            old(self)@.zip.sizes[old(self)@.zip.index_path] > MAX_INDEX_RDF_BYTES ==> r is Err,
            entry_readable(old(self)@.zip.source, old(self)@.zip.index_path)
                && old(self)@.zip.sizes[old(self)@.zip.index_path] <= MAX_INDEX_RDF_BYTES
                && old(self)@.zip.data[old(self)@.zip.index_path].len() <= MAX_INDEX_RDF_BYTES ==> r is Ok,
    {
        self.zip.index_bytes()
    }

    /// Read one linkset RDF/XML file as stored, by its relative filename.
    pub fn linkset_rdf_bytes(&mut self, filename: &str) -> (r: Result<Vec<u8>, IcddError>)
        ensures
            final(self)@ == old(self)@,
            r matches Ok(b) ==> spec_resolve(old(self)@.zip.names, PAYLOAD_TRIPLES_DIR@, filename@) matches Ok(
                p,
            ) && b@ == old(self)@.zip.data[p],
            spec_resolve(old(self)@.zip.names, PAYLOAD_TRIPLES_DIR@, filename@) matches Err(d) ==> r matches Err(
                e,
            ) && e.is_not_conformant(d),
            spec_resolve(old(self)@.zip.names, PAYLOAD_TRIPLES_DIR@, filename@) matches Ok(p) ==> {
                &&& old(self)@.zip.sizes[p] > MAX_LINKSET_RDF_BYTES ==> r is Err
                &&& entry_readable(old(self)@.zip.source, p) && old(self)@.zip.sizes[p] <= MAX_LINKSET_RDF_BYTES
                    && old(self)@.zip.data[p].len() <= MAX_LINKSET_RDF_BYTES ==> r is Ok
            },
    {
        self.zip.linkset_bytes(filename)
    }

    /// The parsed container index (manifest, documents and linkset references).
    pub fn index(&self) -> (r: &ContainerIndex)
        ensures
            r.deep_view() == self@.index,
    {
        &self.index
    }

    /// The parsed linksets.
    pub fn linksets(&self) -> (r: &[LinkSet])
        ensures
            r@.map_values(|l: LinkSet| l.deep_view()) == self@.linksets,
    {
        let r = self.linksets.as_slice();
        assert(r@.map_values(|l: LinkSet| l.deep_view()) =~= self.linksets.deep_view());
        r
    }

    /// The top-level ZIP folders present, in ascending order.
    pub fn top_folders(&self) -> (r: &[String])
        ensures
            r@.map_values(|s: String| s@) == self@.top_folders,
    {
        let r = self.top_folders.as_slice();
        assert(r@.map_values(|s: String| s@) =~= self.top_folders.deep_view());
        r
    }

    /// The IFC payload documents that are available: internal and not a
    /// `ct:requested` slot.
    pub fn ifc_documents(&self) -> (r: Vec<&Document>)
        ensures
            r@.map_values(|d: &Document| d.deep_view()) == available_ifc(self@.index.documents),
            forall|k: int|
                0 <= k < r.len() ==> !(#[trigger] r@[k]).requested && is_available_ifc(r@[k].deep_view())
                    && self@.index.documents.contains(r@[k].deep_view()),
            forall|d: DocumentView|
                #[trigger] self@.index.documents.contains(d) && is_available_ifc(d) ==> exists|k: int|
                    0 <= k < r.len() && (#[trigger] r@[k]).deep_view() == d,
    {
        proof {
            lemma_available_ifc(self@.index.documents);
        }
        let ghost docs = self.index.documents.deep_view();
        let mut r: Vec<&Document> = Vec::new();
        let mut i: usize = 0;
        assert(r@.map_values(|d: &Document| d.deep_view()) =~= available_ifc(docs.take(0)));
        while i < self.index.documents.len()
            invariant
                i <= self.index.documents.len(),
                docs == self.index.documents.deep_view(),
                r@.map_values(|d: &Document| d.deep_view()) == available_ifc(docs.take(i as int)),
            decreases self.index.documents.len() - i,
        {
            let d = &self.index.documents[i];
            assert(docs.take(i + 1).drop_last() =~= docs.take(i as int));
            assert(docs.take(i + 1).last() == d.deep_view());
            if d.is_ifc() && !d.requested && d.internal_path().is_some() {
                let ghost before = r@.map_values(|d: &Document| d.deep_view());
                r.push(d);
                assert(r@.map_values(|d: &Document| d.deep_view()) =~= before.push(d.deep_view()));
            }
            i = i + 1;
        }
        assert(docs.take(i as int) =~= docs);
        proof {
            let rv = r@.map_values(|d: &Document| d.deep_view());
            assert forall|k: int| 0 <= k < r.len() implies !(#[trigger] r@[k]).requested && is_available_ifc(
                r@[k].deep_view(),
            ) && docs.contains(r@[k].deep_view()) by {
                assert(rv[k] == r@[k].deep_view());
                assert(available_ifc(docs).contains(rv[k]));
            }
            assert forall|d: DocumentView| #[trigger] docs.contains(d) && is_available_ifc(d) implies exists|k: int|
                0 <= k < r.len() && (#[trigger] r@[k]).deep_view() == d by {
                assert(available_ifc(docs).contains(d));
                let j = choose|j: int| 0 <= j < available_ifc(docs).len() && available_ifc(docs)[j] == d;
                assert(rv[j] == r@[j].deep_view());
            }
        }
        r
    }

    /// Every IFC-typed document, including `ct:requested` slots and external
    /// references.
    pub fn ifc_documents_including_requested(&self) -> (r: Vec<&Document>)
        ensures
            r@.map_values(|d: &Document| d.deep_view()) == all_ifc(self@.index.documents),
            forall|k: int|
                0 <= k < r.len() ==> spec_is_ifc((#[trigger] r@[k]).deep_view()) && self@.index.documents.contains(
                    r@[k].deep_view(),
                ),
            forall|d: DocumentView|
                #[trigger] self@.index.documents.contains(d) && spec_is_ifc(d) ==> exists|k: int|
                    0 <= k < r.len() && (#[trigger] r@[k]).deep_view() == d,
    {
        proof {
            lemma_all_ifc(self@.index.documents);
        }
        let ghost docs = self.index.documents.deep_view();
        let mut r: Vec<&Document> = Vec::new();
        let mut i: usize = 0;
        assert(r@.map_values(|d: &Document| d.deep_view()) =~= all_ifc(docs.take(0)));
        while i < self.index.documents.len()
            invariant
                i <= self.index.documents.len(),
                docs == self.index.documents.deep_view(),
                r@.map_values(|d: &Document| d.deep_view()) == all_ifc(docs.take(i as int)),
            decreases self.index.documents.len() - i,
        {
            let d = &self.index.documents[i];
            assert(docs.take(i + 1).drop_last() =~= docs.take(i as int));
            assert(docs.take(i + 1).last() == d.deep_view());
            if d.is_ifc() {
                let ghost before = r@.map_values(|d: &Document| d.deep_view());
                r.push(d);
                assert(r@.map_values(|d: &Document| d.deep_view()) =~= before.push(d.deep_view()));
            }
            i = i + 1;
        }
        assert(docs.take(i as int) =~= docs);
        proof {
            let rv = r@.map_values(|d: &Document| d.deep_view());
            assert forall|k: int| 0 <= k < r.len() implies spec_is_ifc((#[trigger] r@[k]).deep_view())
                && docs.contains(r@[k].deep_view()) by {
                assert(rv[k] == r@[k].deep_view());
                assert(all_ifc(docs).contains(rv[k]));
            }
            assert forall|d: DocumentView| #[trigger] docs.contains(d) && spec_is_ifc(d) implies exists|k: int|
                0 <= k < r.len() && (#[trigger] r@[k]).deep_view() == d by {
                assert(all_ifc(docs).contains(d));
                let j = choose|j: int| 0 <= j < all_ifc(docs).len() && all_ifc(docs)[j] == d;
                assert(rv[j] == r@[j].deep_view());
            }
        }
        r
    }

    /// Read the bytes of an internal payload document.
    pub fn payload_bytes(&mut self, doc: &Document) -> (r: Result<Vec<u8>, IcddError>)
        ensures
            final(self)@ == old(self)@,
            spec_internal_path(doc.deep_view()) is None ==> (r matches Err(e) && e.is_not_conformant(
                not_internal_detail(doc.id@),
            )),
            r matches Ok(b) ==> spec_internal_path(doc.deep_view()) matches Some(f)
                && spec_resolve(old(self)@.zip.names, PAYLOAD_DOCS_DIR@, f) matches Ok(p) && b@
                == old(self)@.zip.data[p],
            spec_internal_path(doc.deep_view()) matches Some(f) ==> match spec_resolve(
                old(self)@.zip.names,
                PAYLOAD_DOCS_DIR@,
                f,
            ) {
                Err(d) => r matches Err(e) && e.is_not_conformant(d),
                Ok(p) => {
                    &&& old(self)@.zip.sizes[p] > MAX_IN_MEMORY_PAYLOAD_BYTES ==> r is Err
                    &&& entry_readable(old(self)@.zip.source, p) && old(self)@.zip.sizes[p]
                        <= MAX_IN_MEMORY_PAYLOAD_BYTES && old(self)@.zip.data[p].len()
                        <= MAX_IN_MEMORY_PAYLOAD_BYTES ==> r is Ok
                },
            },
    {
        let path = match doc.internal_path() {
            Some(p) => p,
            None => {
                let a = concat("document ", doc.id.as_str());
                return Err(
                    not_conformant(concat(a.as_str(), " is not an internal document (no in-container bytes)")),
                );
            },
        };
        self.zip.payload_bytes(path)
    }

    /// Whether a declared internal payload resolves to one archive entry.
    pub fn contains_internal_payload(&self, filename: &str) -> (r: bool)
        ensures
            r == spec_resolve(self@.zip.names, PAYLOAD_DOCS_DIR@, filename@) is Ok,
    {
        self.zip.contains_payload(filename)
    }

    /// Conformance check per ISO 21597-1 Clause 5: the unmet-requirement
    /// messages (empty when conformant). Opening succeeds on a lenient parse;
    /// this reports conformance.
    pub fn conformance_issues(&self) -> (r: Vec<String>)
        ensures
            r.deep_view() == spec_conformance_issues(
                self@.top_folders,
                self@.index.description.conformance_indicator,
            ),
    {
        let mut issues = check_folder(&self.top_folders, ONTOLOGY_DIR);
        let mut b = check_folder(&self.top_folders, PAYLOAD_DOCS_DIR);
        let mut c = check_folder(&self.top_folders, PAYLOAD_TRIPLES_DIR);
        let ghost a0 = issues.deep_view();
        let ghost b0 = b.deep_view();
        let ghost c0 = c.deep_view();
        issues.append(&mut b);
        issues.append(&mut c);
        assert(issues.deep_view() =~= a0 + b0 + c0);
        let ghost abc = issues.deep_view();
        match &self.index.description.conformance_indicator {
            Some(v) => {
                if !str_eq(v.as_str(), CONFORMANCE_INDICATOR) {
                    let x = concat("ct:conformanceIndicator is '", v.as_str());
                    let y = concat(x.as_str(), "', expected '");
                    let z = concat(y.as_str(), CONFORMANCE_INDICATOR);
                    issues.push(concat(z.as_str(), "'"));
                    assert(issues.deep_view() =~= abc + indicator_issue(Some(v@)));
                } else {
                    assert(issues.deep_view() =~= abc + indicator_issue(Some(v@)));
                }
            },
            None => {
                issues.push(owned("ct:conformanceIndicator is absent"));
                assert(issues.deep_view() =~= abc + indicator_issue(None));
            },
        }
        issues
    }
}

} // verus!
