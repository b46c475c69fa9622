//! Archive-path rules of an ICDD container, and the validated view over the
//! ZIP entries of a container held in memory.

use std::io::{Cursor, Read};
use vstd::prelude::*;
use zip::ZipArchive;

use crate::error::{debug_quoted, debug_text, not_conformant, IcddError};
use crate::rdfgraph::{lemma_lower_bound, lemma_lower_bound_at, lower_bound, strictly_sorted};
use crate::text::{
    chars_ascii_lower, chars_contain, chars_end_with, chars_eq_ignore_ascii_case, chars_of,
    chars_occur_at, concat, decimal, decimal_string, eq_ignore_ascii_case, lemma_split_on_nonempty,
    occurs_at, owned, seq_ascii_lower, seq_contains, seq_ends_with, seq_starts_with, split_chars, split_on,
    str_eq, str_less, string_of,
};
use crate::writer::{lemma_sorted_insert, zip_archive_bytes, ZipEntryView};

verus! {

/// Folder of ontology resources (ISO 21597-1 Clause 6).
pub const ONTOLOGY_DIR: &'static str = "Ontology resources";

/// Folder of payload documents.
pub const PAYLOAD_DOCS_DIR: &'static str = "Payload documents";

/// Folder of payload triples (linksets).
pub const PAYLOAD_TRIPLES_DIR: &'static str = "Payload triples";

/// Maximum number of ZIP entries accepted in one container.
pub const MAX_ARCHIVE_ENTRIES: usize = 100_000;

/// Maximum uncompressed size returned by one in-memory payload read.
pub const MAX_IN_MEMORY_PAYLOAD_BYTES: u64 = 1024 * 1024 * 1024;

/// Maximum uncompressed size streamed for one extracted payload.
pub const MAX_STREAMED_PAYLOAD_BYTES: u64 = 16 * 1024 * 1024 * 1024;

/// Maximum total uncompressed payload bytes extracted by one call.
pub const MAX_TOTAL_EXTRACTED_BYTES: u64 = 64 * 1024 * 1024 * 1024;

/// Maximum uncompressed size accepted for `Index.rdf`.
pub const MAX_INDEX_RDF_BYTES: u64 = 16 * 1024 * 1024;

/// Maximum number of linkset RDF graphs parsed from one container.
pub const MAX_LINKSET_COUNT: usize = 10_000;

/// Maximum aggregate uncompressed bytes of eagerly parsed RDF metadata.
pub const MAX_TOTAL_RDF_BYTES: u64 = 256 * 1024 * 1024;

/// Maximum uncompressed size accepted for one linkset RDF graph.
pub const MAX_LINKSET_RDF_BYTES: u64 = 64 * 1024 * 1024;

/// The one-character path `.` (the current directory).
pub open spec fn cur_dir() -> Seq<char> {
    seq!['.']
}

/// The two-character path `..` (the parent directory).
pub open spec fn parent_dir() -> Seq<char> {
    seq!['.', '.']
}

/// Every component of `path`, as `std::path::Path::components` yields them on
/// Unix, is a normal name: the path is not rooted, does not start with a `.`
/// segment, and has no `..` segment. Empty and interior `.` segments are
/// normalized away by `components` and so do not count.
pub open spec fn only_normal_components(path: Seq<char>) -> bool {
    let segs = split_on(path, '/');
    &&& !seq_starts_with(path, seq!['/'])
    &&& segs[0] != cur_dir()
    &&& forall|i: int| 0 <= i < segs.len() ==> segs[i] != parent_dir()
}

/// The path has the canonical shape of an archive path: not empty, no
/// backslash, no leading or trailing `/`, and no `//`.
pub open spec fn canonical_shape(path: Seq<char>) -> bool {
    &&& path.len() > 0
    &&& !seq_contains(path, seq!['\\'])
    &&& !seq_starts_with(path, seq!['/'])
    &&& !seq_ends_with(path, seq!['/'])
    &&& !seq_contains(path, seq!['/', '/'])
}

/// A declared path that the container accepts.
pub open spec fn declared_path_ok(path: Seq<char>) -> bool {
    canonical_shape(path) && only_normal_components(path)
}

/// The detail text of the error for a rejected declared path.
pub open spec fn unsafe_path_detail(path: Seq<char>) -> Seq<char> {
    "unsafe or noncanonical archive path: "@ + debug_text(path)
}

/// Whether the components of `path` are all normal names (see
/// [`only_normal_components`]).
pub fn has_only_normal_components(path: &[char]) -> (r: bool)
    ensures
        r == only_normal_components(path@),
{
    let segs = split_chars(path, '/');
    let ghost views = segs@.map_values(|v: Vec<char>| v@);
    proof {
        lemma_split_on_nonempty(path@, '/');
    }
    if path.len() > 0 && path[0] == '/' {
        assert(path@.subrange(0, 1) =~= seq!['/']);
        return false;
    }
    assert(!seq_starts_with(path@, seq!['/'])) by {
        if path@.len() > 0 {
            assert(path@.subrange(0, 1)[0] == path@[0]);
        }
    }
    let first = &segs[0];
    assert(views[0] == first@);
    if first.len() == 1 && first[0] == '.' {
        assert(first@ =~= cur_dir());
        return false;
    }
    assert(first@ != cur_dir()) by {
        if first@ == cur_dir() {
            assert(first@[0] == '.');
        }
    }
    let mut i: usize = 0;
    while i < segs.len()
        invariant
            i <= segs.len(),
            views == segs@.map_values(|v: Vec<char>| v@),
            views == split_on(path@, '/'),
            forall|k: int| 0 <= k < i ==> views[k] != parent_dir(),
        decreases segs.len() - i,
    {
        let seg = &segs[i];
        assert(views[i as int] == seg@);
        if seg.len() == 2 && seg[0] == '.' && seg[1] == '.' {
            assert(seg@ =~= parent_dir());
            assert(views[i as int] == parent_dir());
            return false;
        }
        assert(seg@ != parent_dir()) by {
            if seg@ == parent_dir() {
                assert(seg@[0] == '.' && seg@[1] == '.');
            }
        }
        i = i + 1;
    }
    true
}

/// Whether a declared path has the accepted shape (see [`declared_path_ok`]).
pub fn is_declared_path_ok(path: &[char]) -> (r: bool)
    ensures
        r == declared_path_ok(path@),
{
    if path.len() == 0 {
        return false;
    }
    let backslash = ['\\'];
    let double_slash = ['/', '/'];
    let slash = ['/'];
    assert(backslash@ =~= seq!['\\']);
    assert(double_slash@ =~= seq!['/', '/']);
    assert(slash@ =~= seq!['/']);
    if chars_contain(path, &backslash) {
        return false;
    }
    if path[0] == '/' {
        assert(path@.subrange(0, 1) =~= seq!['/']);
        return false;
    }
    assert(!seq_starts_with(path@, seq!['/'])) by {
        assert(path@.subrange(0, 1)[0] == path@[0]);
    }
    if chars_end_with(path, &slash) {
        return false;
    }
    if chars_contain(path, &double_slash) {
        return false;
    }
    has_only_normal_components(path)
}

/// Validate a declared archive path (an entry name or a `ct:filename`).
pub fn validate_declared_path(name: &str) -> (r: Result<(), IcddError>)
    ensures
        r is Ok <==> declared_path_ok(name@),
        r matches Err(e) ==> e.is_not_conformant(unsafe_path_detail(name@)),
{
    let cs = chars_of(name);
    if is_declared_path_ok(cs.as_slice()) {
        Ok(())
    } else {
        let q = debug_quoted(name);
        Err(not_conformant(concat("unsafe or noncanonical archive path: ", q.as_str())))
    }
}

/// A ZIP entry name with at most one trailing `/` (a directory marker) removed.
pub open spec fn entry_path(name: Seq<char>) -> Seq<char> {
    if seq_ends_with(name, seq!['/']) {
        name.drop_last()
    } else {
        name
    }
}

/// The detail text of the error for a rejected ZIP entry name.
pub open spec fn unsafe_entry_detail(name: Seq<char>) -> Seq<char> {
    "unsafe or noncanonical ZIP entry path: "@ + debug_text(name)
}

/// Validate one ZIP entry name; directory entries may end with one `/`.
pub fn validate_entry_name(name: &str) -> (r: Result<(), IcddError>)
    ensures
        r is Ok <==> declared_path_ok(entry_path(name@)),
        r matches Err(e) ==> e.is_not_conformant(unsafe_entry_detail(name@)),
{
    let cs = chars_of(name);
    let slash = ['/'];
    assert(slash@ =~= seq!['/']);
    let ok = if chars_end_with(cs.as_slice(), &slash) {
        let mut trimmed = cs.clone();
        trimmed.pop();
        assert(trimmed@ =~= name@.drop_last());
        is_declared_path_ok(trimmed.as_slice())
    } else {
        is_declared_path_ok(cs.as_slice())
    };
    if ok {
        Ok(())
    } else {
        let q = debug_quoted(name);
        Err(not_conformant(concat("unsafe or noncanonical ZIP entry path: ", q.as_str())))
    }
}


// ---------------------------------------------------------------------------
// The archive
#[verifier::external_type_specification]
#[verifier::external_body]
#[verifier::reject_recursive_types(T)]
pub struct ExCursor<T>(std::io::Cursor<T>);

#[verifier::external_type_specification]
#[verifier::external_body]
#[verifier::reject_recursive_types(R)]
pub struct ExZipArchive<R>(zip::ZipArchive<R>);

/// A ZIP archive read from memory.
pub type MemoryArchive = ZipArchive<Cursor<Vec<u8>>>;

/// The names of the archive's entries, in central-directory order, as
/// `ZipFile::name` decodes them.
pub uninterp spec fn archive_names(z: MemoryArchive) -> Seq<Seq<char>>;

/// The uncompressed size that `ZipFile::size` reports for each entry, by name.
pub uninterp spec fn archive_sizes(z: MemoryArchive) -> Map<Seq<char>, u64>;

/// The bytes that reading each entry to its end yields, by name.
pub uninterp spec fn archive_data(z: MemoryArchive) -> Map<Seq<char>, Seq<u8>>;

/// The bytes the archive was read from.
pub uninterp spec fn archive_source(z: MemoryArchive) -> Seq<u8>;

/// What the `zip` crate reads from the bytes of an archive: `None` when
/// `ZipArchive::new` refuses them, else the entry names in central-directory
/// order, the uncompressed size each entry reports, and the bytes reading
/// each entry to its end yields.
pub uninterp spec fn zip_reading(bytes: Seq<u8>) -> Option<
    (Seq<Seq<char>>, Map<Seq<char>, u64>, Map<Seq<char>, Seq<u8>>),
>;

/// Whether the entry `name` of the archive in `bytes` is found
/// (`ZipArchive::by_name`) and reads to its end without an error.
pub uninterp spec fn entry_readable(bytes: Seq<u8>, name: Seq<char>) -> bool;

/// The views of an archive, and the bytes it was read from, are kept by an
/// operation.
pub open spec fn same_archive(a: MemoryArchive, b: MemoryArchive) -> bool {
    archive_names(a) == archive_names(b) && archive_sizes(a) == archive_sizes(b) && archive_data(a)
        == archive_data(b) && archive_source(a) == archive_source(b)
}

/// The names of written entries, in order.
pub open spec fn written_names(es: Seq<ZipEntryView>) -> Seq<Seq<char>> {
    es.map_values(|e: ZipEntryView| e.0)
}

/// No two written entries share a name.
pub open spec fn distinct_names(es: Seq<ZipEntryView>) -> bool {
    forall|i: int, j: int| 0 <= i < j < es.len() ==> es[i].0 != es[j].0
}

/// An archive holds the written entries `es`: their names, in order, and for
/// each file entry its bytes and their number as its size.
pub open spec fn holds_entries(
    names: Seq<Seq<char>>,
    sizes: Map<Seq<char>, u64>,
    data: Map<Seq<char>, Seq<u8>>,
    es: Seq<ZipEntryView>,
) -> bool {
    &&& names == written_names(es)
    &&& forall|i: int|
        0 <= i < es.len() && !es[i].1 ==> data[#[trigger] es[i].0] == es[i].4 && sizes[es[i].0]
            == es[i].4.len()
}

/// The `zip` crate reads `bytes` as an archive of exactly the written entries
/// `es`: `ZipArchive::new` accepts the bytes, the names are those written,
/// in order, each file's size and bytes are those written, and every entry
/// is found and reads to its end.
pub open spec fn reads_written(bytes: Seq<u8>, es: Seq<ZipEntryView>) -> bool {
    &&& zip_reading(bytes) matches Some((names, sizes, data)) && holds_entries(names, sizes, data, es)
    &&& forall|i: int| 0 <= i < es.len() ==> #[trigger] entry_readable(bytes, es[i].0)
}

/// An archive read from `bytes` holds whatever entries, with distinct names,
/// a `ZipWriter` wrote to produce exactly those bytes.
pub open spec fn reads_back(
    bytes: Seq<u8>,
    names: Seq<Seq<char>>,
    sizes: Map<Seq<char>, u64>,
    data: Map<Seq<char>, Seq<u8>>,
) -> bool {
    forall|es: Seq<ZipEntryView>|
        #[trigger] zip_archive_bytes(es) == bytes && distinct_names(es) ==> holds_entries(names, sizes, data, es)
}

/// How reading an entry failed: looking it up, or reading its bytes.
pub enum ReadFailure {
    Zip(String),
    Io(String),
}

/// Reads the central directory of a ZIP archive held in memory
/// (`ZipArchive::new(Cursor::new(bytes))`). An archive that `ZipWriter`
/// wrote reads back with the entries written: their names in the order
/// written, and each file's bytes and uncompressed size.
#[verifier::external_body]
fn zip_open(bytes: Vec<u8>) -> (r: Result<MemoryArchive, String>)
    ensures
        r matches Ok(z) ==> reads_back(bytes@, archive_names(z), archive_sizes(z), archive_data(z)),
        match zip_reading(bytes@) {
            None => r is Err,
            Some((names, sizes, data)) => r matches Ok(z) && archive_names(z) == names && archive_sizes(z)
                == sizes && archive_data(z) == data && archive_source(z) == bytes@,
        },
{
    match ZipArchive::new(Cursor::new(bytes)) {
        Ok(archive) => Ok(archive),
        Err(error) => Err(error.to_string()),
    }
}

/// The number of entries (`ZipArchive::len`).
#[verifier::external_body]
fn zip_len(z: &MemoryArchive) -> (n: usize)
    ensures
        n == archive_names(*z).len(),
{
    z.len()
}

/// The name of entry `i` (`ZipArchive::name_for_index`): `None` past the
/// last entry. The raw name decodes as UTF-8, or else as CP437, which
/// accepts every byte, so a name is there for every entry.
#[verifier::external_body]
fn zip_entry_name(z: &MemoryArchive, i: usize) -> (r: Option<String>)
    ensures
        r is Some <==> i < archive_names(*z).len(),
        r matches Some(name) ==> name@ == archive_names(*z)[i as int],
{
    match z.name_for_index(i) {
        Some(Ok(name)) => Some(name.into_owned()),
        _ => None,
    }
}

/// The uncompressed size of the entry `name` (`ZipArchive::by_name`, then
/// `ZipFile::size`). Both report a failure as an error value and return.
#[verifier::external_body]
fn zip_entry_size(z: &mut MemoryArchive, name: &str) -> (r: Result<u64, String>)
    ensures
        same_archive(*final(z), *old(z)),
        r matches Ok(n) ==> n == archive_sizes(*old(z))[name@],
        archive_names(*old(z)).contains(name@) && entry_readable(archive_source(*old(z)), name@) ==> r is Ok,
    no_unwind
{
    match z.by_name(name) {
        Ok(file) => Ok(file.size()),
        Err(error) => Err(error.to_string()),
    }
}

/// The bytes of the entry `name` (`ZipArchive::by_name`, then
/// `Read::read_to_end`). Both report a failure as an error value and return.
#[verifier::external_body]
fn zip_read_entry(z: &mut MemoryArchive, name: &str) -> (r: Result<Vec<u8>, ReadFailure>)
    ensures
        same_archive(*final(z), *old(z)),
        r matches Ok(bytes) ==> bytes@ == archive_data(*old(z))[name@] && entry_readable(
            archive_source(*old(z)),
            name@,
        ),
        archive_names(*old(z)).contains(name@) && entry_readable(archive_source(*old(z)), name@) ==> r is Ok,
    no_unwind
{
    let mut file = match z.by_name(name) {
        Ok(file) => file,
        Err(error) => {
            return Err(ReadFailure::Zip(error.to_string()));
        },
    };
    let mut bytes = Vec::new();
    match file.read_to_end(&mut bytes) {
        Ok(_) => Ok(bytes),
        Err(error) => Err(ReadFailure::Io(error.to_string())),
    }
}

/// A root-level entry named `Index.rdf` ignoring ASCII case.
pub open spec fn is_root_index(name: Seq<char>) -> bool {
    !seq_contains(name, seq!['/']) && eq_ignore_ascii_case(name, "index.rdf"@)
}

/// The root-level index entries among the names, in order.
pub open spec fn root_indexes(names: Seq<Seq<char>>) -> Seq<Seq<char>>
    decreases names.len(),
{
    if names.len() == 0 {
        Seq::<Seq<char>>::empty()
    } else if is_root_index(names.last()) {
        root_indexes(names.drop_last()).push(names.last())
    } else {
        root_indexes(names.drop_last())
    }
}

/// Every root index entry is one of the names.
pub proof fn lemma_root_indexes_listed(names: Seq<Seq<char>>)
    ensures
        forall|k: int| 0 <= k < root_indexes(names).len() ==> names.contains(#[trigger] root_indexes(names)[k]),
    decreases names.len(),
{
    if names.len() > 0 {
        let init = names.drop_last();
        lemma_root_indexes_listed(init);
        assert forall|k: int| 0 <= k < root_indexes(names).len() implies names.contains(
            #[trigger] root_indexes(names)[k],
        ) by {
            if k < root_indexes(init).len() {
                assert(root_indexes(names)[k] == root_indexes(init)[k]);
                let j = choose|j: int| 0 <= j < init.len() && init[j] == root_indexes(init)[k];
                assert(names[j] == init[j]);
            } else {
                assert(root_indexes(names)[k] == names.last());
                assert(names[names.len() - 1] == names.last());
            }
        }
    }
}

/// No two names are equal ignoring ASCII case.
pub open spec fn folded_unique(names: Seq<Seq<char>>) -> bool {
    forall|i: int, j: int|
        0 <= i < names.len() && 0 <= j < names.len() && i != j ==> !eq_ignore_ascii_case(
            names[i],
            names[j],
        )
}

/// The names of an archive that a container accepts: each a canonical entry
/// path, no two equal ignoring ASCII case, and exactly one root index.
pub open spec fn names_ok(names: Seq<Seq<char>>) -> bool {
    &&& forall|i: int| 0 <= i < names.len() ==> declared_path_ok(entry_path(#[trigger] names[i]))
    &&& folded_unique(names)
    &&& root_indexes(names).len() == 1
}

/// The view of a [`ContainerZip`]: the entry names, the root index entry, and
/// the sizes and bytes of the entries.
pub struct ContainerZipView {
    pub source: Seq<u8>,
    pub names: Seq<Seq<char>>,
    pub index_path: Seq<char>,
    pub sizes: Map<Seq<char>, u64>,
    pub data: Map<Seq<char>, Seq<u8>>,
}

/// A validated view over the ZIP entries of an ICDD container held in memory.
pub struct ContainerZip {
    zip: MemoryArchive,
    /// The entry names, in archive order.
    names: Vec<String>,
    /// The archive path of the root index (`index.rdf` / `Index.rdf`).
    index_path: String,
}

impl View for ContainerZip {
    type V = ContainerZipView;

    closed spec fn view(&self) -> ContainerZipView {
        ContainerZipView {
            source: archive_source(self.zip),
            names: archive_names(self.zip),
            index_path: self.index_path@,
            sizes: archive_sizes(self.zip),
            data: archive_data(self.zip),
        }
    }
}

/// The detail text of the error for an entry over a size limit.
pub open spec fn over_limit_detail(path: Seq<char>, limit: u64, purpose: Seq<char>) -> Seq<char> {
    "archive entry "@ + debug_text(path) + " exceeds the "@ + decimal(limit as nat) + "-byte "@ + purpose
        + " limit"@
}

/// `name` begins with `prefix` ignoring ASCII case.
pub open spec fn has_folder_prefix(name: Seq<char>, prefix: Seq<char>) -> bool {
    prefix.len() <= name.len() && eq_ignore_ascii_case(name.subrange(0, prefix.len() as int), prefix)
}

/// The archive path a declared name stands for below `folder`: the name
/// itself when it already begins with `folder/` (ignoring ASCII case), else
/// `folder/name`.
pub open spec fn candidate_path(folder: Seq<char>, name: Seq<char>) -> Seq<char> {
    let prefixed = folder + "/"@;
    if has_folder_prefix(name, prefixed) {
        name
    } else {
        prefixed + name
    }
}

/// The entry whose name equals `candidate` ignoring ASCII case, if any.
pub open spec fn matching_entry(names: Seq<Seq<char>>, candidate: Seq<char>) -> Option<Seq<char>> {
    if exists|i: int| 0 <= i < names.len() && eq_ignore_ascii_case(names[i], candidate) {
        Some(
            names[choose|i: int| 0 <= i < names.len() && eq_ignore_ascii_case(names[i], candidate)],
        )
    } else {
        None
    }
}

/// What resolving the declared `name` below `folder` gives: the archive entry
/// it names, or the detail of the error.
pub open spec fn spec_resolve(names: Seq<Seq<char>>, folder: Seq<char>, name: Seq<char>) -> Result<Seq<char>, Seq<char>> {
    let n = slashes_normalized(name);
    if !declared_path_ok(n) {
        Err(unsafe_path_detail(n))
    } else {
        match matching_entry(names, candidate_path(folder, n)) {
            Some(entry) => Ok(entry),
            None => Err("payload entry not found: "@ + candidate_path(folder, n)),
        }
    }
}

/// A declared name resolves only to an entry of the archive.
pub proof fn lemma_resolved_listed(names: Seq<Seq<char>>, folder: Seq<char>, name: Seq<char>)
    requires
        spec_resolve(names, folder, name) is Ok,
    ensures
        names.contains(spec_resolve(names, folder, name)->Ok_0),
{
    let c = candidate_path(folder, slashes_normalized(name));
    let i = choose|i: int| 0 <= i < names.len() && eq_ignore_ascii_case(names[i], c);
    assert(names[i] == spec_resolve(names, folder, name)->Ok_0);
}

/// Every `\\` of the path replaced by `/`.
pub open spec fn slashes_normalized(path: Seq<char>) -> Seq<char> {
    path.map_values(|c: char| if c == '\\' { '/' } else { c })
}

/// A path without a backslash is its own normalization.
pub proof fn lemma_no_backslash_normalized(path: Seq<char>)
    requires
        !seq_contains(path, seq!['\\']),
    ensures
        slashes_normalized(path) == path,
{
    assert forall|i: int| 0 <= i < path.len() implies path[i] != '\\' by {
        if path[i] == '\\' {
            assert(path.subrange(i, i + 1) =~= seq!['\\']);
            assert(occurs_at(path, seq!['\\'], i));
        }
    }
    assert(slashes_normalized(path) =~= path);
}

/// The path with every `\\` replaced by `/`.
fn normalize_slashes(name: &str) -> (r: String)
    ensures
        r@ == slashes_normalized(name@),
{
    let cs = chars_of(name);
    let mut n: Vec<char> = Vec::new();
    let mut i: usize = 0;
    while i < cs.len()
        invariant
            i <= cs.len(),
            cs@ == name@,
            n@ == slashes_normalized(name@).take(i as int),
        decreases cs.len() - i,
    {
        if cs[i] == '\\' {
            n.push('/');
        } else {
            n.push(cs[i]);
        }
        i = i + 1;
        assert(n@ =~= slashes_normalized(name@).take(i as int));
    }
    assert(n@ =~= slashes_normalized(name@));
    string_of(n.as_slice())
}

/// The top-level folders named by the entries: the part before the first `/`
/// of every name that has one.
pub open spec fn is_top_folder(names: Seq<Seq<char>>, t: Seq<char>) -> bool {
    exists|i: int|
        0 <= i < names.len() && seq_contains(names[i], seq!['/']) && split_on(names[i], '/')[0]
            == t
}

/// Linkset files present below `Payload triples/`: entries whose name starts
/// with that folder and ends with `.rdf` ignoring ASCII case.
pub open spec fn is_linkset_entry(name: Seq<char>) -> bool {
    seq_starts_with(name, PAYLOAD_TRIPLES_DIR@ + "/"@) && seq_ends_with(
        seq_ascii_lower(name),
        ".rdf"@,
    )
}

/// The linkset files present, in archive order.
pub open spec fn linkset_entries(names: Seq<Seq<char>>) -> Seq<Seq<char>>
    decreases names.len(),
{
    if names.len() == 0 {
        Seq::<Seq<char>>::empty()
    } else if is_linkset_entry(names.last()) {
        linkset_entries(names.drop_last()).push(names.last())
    } else {
        linkset_entries(names.drop_last())
    }
}

/// Whether `name` is a root-level index entry (see [`is_root_index`]).
fn root_index_name(name: &str) -> (r: bool)
    ensures
        r == is_root_index(name@),
{
    let slash = ['/'];
    assert(slash@ =~= seq!['/']);
    let cs = chars_of(name);
    if chars_contain(cs.as_slice(), &slash) {
        return false;
    }
    let target = chars_of("index.rdf");
    chars_eq_ignore_ascii_case(cs.as_slice(), target.as_slice())
}

/// The position of the first name, from position `k` on, equal to `name`
/// ignoring ASCII case.
pub open spec fn first_folded_from(names: Seq<Seq<char>>, name: Seq<char>, k: nat) -> Option<int>
    decreases names.len() - k,
{
    if k >= names.len() {
        None
    } else if eq_ignore_ascii_case(names[k as int], name) {
        Some(k as int)
    } else {
        first_folded_from(names, name, k + 1)
    }
}

/// The position of the first entry whose name equals `name` ignoring ASCII
/// case.
fn find_folded(names: &Vec<String>, name: &str) -> (r: Option<usize>)
    ensures
        match r {
            Some(j) => j < names.len() && eq_ignore_ascii_case(names.deep_view()[j as int], name@),
            None => forall|j: int|
                0 <= j < names.len() ==> !eq_ignore_ascii_case(names.deep_view()[j], name@),
        },
        first_folded_from(names.deep_view(), name@, 0) == match r {
            Some(j) => Some(j as int),
            None => None::<int>,
        },
{
    let target = chars_of(name);
    let ghost nv = names.deep_view();
    let mut i: usize = 0;
    while i < names.len()
        invariant
            i <= names.len(),
            target@ == name@,
            nv == names.deep_view(),
            forall|j: int| 0 <= j < i ==> !eq_ignore_ascii_case(names.deep_view()[j], name@),
            first_folded_from(nv, name@, 0) == first_folded_from(nv, name@, i as nat),
        decreases names.len() - i,
    {
        let cs = chars_of(names[i].as_str());
        if chars_eq_ignore_ascii_case(cs.as_slice(), target.as_slice()) {
            return Some(i);
        }
        i = i + 1;
    }
    None
}

/// The detail of the error for two entry names equal ignoring ASCII case.
pub open spec fn duplicate_entry_detail(previous: Seq<char>, current: Seq<char>) -> Seq<char> {
    "duplicate case-folded ZIP entry names: "@ + debug_text(previous) + " and "@ + debug_text(current)
}

/// The detail of the refusal of the first entry name, in archive order,
/// that is refused: one that is not a canonical path, or one equal ignoring
/// ASCII case to an earlier one.
pub open spec fn first_name_refusal(names: Seq<Seq<char>>) -> Option<Seq<char>>
    decreases names.len(),
{
    if names.len() == 0 {
        None
    } else {
        match first_name_refusal(names.drop_last()) {
            Some(d) => Some(d),
            None => if !declared_path_ok(entry_path(names.last())) {
                Some(unsafe_entry_detail(names.last()))
            } else {
                match first_folded_from(names.drop_last(), names.last(), 0) {
                    Some(j) => Some(duplicate_entry_detail(names[j], names.last())),
                    None => None,
                }
            },
        }
    }
}

/// A refusal among the first names is the refusal of all of them.
proof fn lemma_refusal_prefix(names: Seq<Seq<char>>, k: int)
    requires
        0 <= k <= names.len(),
        first_name_refusal(names.take(k)) is Some,
    ensures
        first_name_refusal(names) == first_name_refusal(names.take(k)),
    decreases names.len(),
{
    if k == names.len() {
        assert(names.take(k) =~= names);
    } else {
        assert(names.drop_last().take(k) =~= names.take(k));
        lemma_refusal_prefix(names.drop_last(), k);
    }
}

/// The detail of the error for an archive of too many entries.
pub open spec fn entry_count_detail(n: nat) -> Seq<char> {
    "archive contains "@ + decimal(n) + " entries, exceeding the "@ + decimal(MAX_ARCHIVE_ENTRIES as nat)
        + "-entry limit"@
}

/// The detail of the error for an archive without exactly one root index.
pub open spec fn index_count_detail(n: nat) -> Seq<char> {
    "expected exactly one case-insensitive Index.rdf at the container root, found "@ + decimal(n)
}

/// The refusal of an archive read as `names`, if it is refused: too many
/// entries, a refused name, or other than one root index.
pub open spec fn names_refusal(names: Seq<Seq<char>>) -> Option<Seq<char>> {
    if names.len() > MAX_ARCHIVE_ENTRIES {
        Some(entry_count_detail(names.len()))
    } else {
        match first_name_refusal(names) {
            Some(d) => Some(d),
            None => if root_indexes(names).len() != 1 {
                Some(index_count_detail(root_indexes(names).len()))
            } else {
                None
            },
        }
    }
}

/// Equality ignoring ASCII case is an equivalence.
pub proof fn lemma_eq_ignore_case_equivalence(a: Seq<char>, b: Seq<char>, c: Seq<char>)
    ensures
        eq_ignore_ascii_case(a, a),
        eq_ignore_ascii_case(a, b) ==> eq_ignore_ascii_case(b, a),
        eq_ignore_ascii_case(a, b) && eq_ignore_ascii_case(b, c) ==> eq_ignore_ascii_case(a, c),
{
}

impl ContainerZip {
    /// The archive's names are the ones recorded, accepted by the container,
    /// and `index_path` is its one root index.
    #[verifier::type_invariant]
    spec fn wf(&self) -> bool {
        &&& self.names.deep_view() == archive_names(self.zip)
        &&& names_ok(archive_names(self.zip))
        &&& root_indexes(archive_names(self.zip)) == seq![self.index_path@]
    }

    /// Open and validate a container held in memory: every entry name must be
    /// a canonical path, no two names may be equal ignoring ASCII case, and
    /// exactly one root entry must be named `Index.rdf` ignoring case.
    pub fn open(bytes: Vec<u8>) -> (r: Result<ContainerZip, IcddError>)
        ensures
            r matches Ok(c) ==> names_ok(c@.names) && root_indexes(c@.names)
                == seq![c@.index_path] && c@.names.len() <= MAX_ARCHIVE_ENTRIES,
            r matches Ok(c) ==> reads_back(bytes@, c@.names, c@.sizes, c@.data),
            r matches Err(e) ==> e is Zip || e is NotConformant,
            match zip_reading(bytes@) {
                None => r matches Err(e) && e is Zip,
                Some((names, sizes, data)) => {
                    &&& r matches Ok(c) ==> c@.names == names && c@.sizes == sizes && c@.data == data
                        && c@.source == bytes@
                    &&& r is Ok <==> names.len() <= MAX_ARCHIVE_ENTRIES && names_ok(names)
                    &&& r is Ok <==> names_refusal(names) is None
                    &&& names_refusal(names) matches Some(d) ==> (r matches Err(e) && e.is_not_conformant(d))
                },
            },
    {
        let ghost input = bytes@;
        let mut zip = match zip_open(bytes) {
            Ok(z) => z,
            Err(message) => {
                return Err(IcddError::Zip(message));
            },
        };
        let ghost z0 = zip;
        let n = zip_len(&zip);
        if n > MAX_ARCHIVE_ENTRIES {
            let count = decimal_string(n as u64);
            let limit = decimal_string(MAX_ARCHIVE_ENTRIES as u64);
            let a = concat("archive contains ", count.as_str());
            let b = concat(a.as_str(), " entries, exceeding the ");
            let c = concat(b.as_str(), limit.as_str());
            return Err(not_conformant(concat(c.as_str(), "-entry limit")));
        }
        let ghost all = archive_names(zip);
        let mut names: Vec<String> = Vec::new();
        let mut index_paths: Vec<String> = Vec::new();
        let mut i: usize = 0;
        assert(all.take(0) =~= Seq::<Seq<char>>::empty());
        assert(names.deep_view() =~= all.take(0));
        assert(index_paths.deep_view() =~= root_indexes(all.take(0)));
        while i < n
            invariant
                i <= n,
                n == all.len(),
                all == archive_names(zip),
                same_archive(zip, z0),
                reads_back(input, archive_names(z0), archive_sizes(z0), archive_data(z0)),
                zip_reading(input) is Some,
                input == bytes@,
                zip_reading(input) matches Some((rn, rs, rd)) ==> archive_names(z0) == rn && archive_sizes(z0)
                    == rs && archive_data(z0) == rd && archive_source(z0) == input,
                names.deep_view() == all.take(i as int),
                index_paths.deep_view() == root_indexes(all.take(i as int)),
                forall|k: int| 0 <= k < i ==> declared_path_ok(entry_path(#[trigger] all[k])),
                folded_unique(all.take(i as int)),
                first_name_refusal(all.take(i as int)) is None,
                n <= MAX_ARCHIVE_ENTRIES,
            decreases n - i,
        {
            let name = zip_entry_name(&zip, i).unwrap();
            assert(name@ == all[i as int]);
            let ghost prefix1 = all.take(i + 1);
            assert(prefix1.drop_last() =~= all.take(i as int));
            match validate_entry_name(name.as_str()) {
                Ok(()) => {},
                Err(e) => {
                    assert(!declared_path_ok(entry_path(all[i as int])));
                    assert(zip_reading(input)->Some_0.0 == all);
                    assert(!names_ok(all));
                    proof {
                        lemma_refusal_prefix(all, i + 1);
                    }
                    return Err(e);
                },
            }
            match find_folded(&names, name.as_str()) {
                Some(j) => {
                    assert(all[j as int] == names.deep_view()[j as int]);
                    assert(eq_ignore_ascii_case(all[j as int], all[i as int]));
                    assert(!folded_unique(all));
                    assert(zip_reading(input)->Some_0.0 == all);
                    let previous = debug_quoted(names[j].as_str());
                    let current = debug_quoted(name.as_str());
                    let a = concat("duplicate case-folded ZIP entry names: ", previous.as_str());
                    let b = concat(a.as_str(), " and ");
                    proof {
                        assert(names.deep_view() == all.take(i as int));
                        assert(first_name_refusal(prefix1) == Some(duplicate_entry_detail(all[j as int], all[i as int])));
                        lemma_refusal_prefix(all, i + 1);
                    }
                    return Err(not_conformant(concat(b.as_str(), current.as_str())));
                },
                None => {},
            }
            let ghost prefix = all.take(i + 1);
            assert(prefix.drop_last() =~= all.take(i as int));
            assert(prefix.last() == name@);
            assert(first_name_refusal(prefix) is None);
            if root_index_name(name.as_str()) {
                let ghost ib = index_paths.deep_view();
                index_paths.push(name.clone());
                assert(index_paths.deep_view() =~= ib.push(name@));
            }
            let ghost nb = names.deep_view();
            names.push(name);
            assert(names.deep_view() =~= nb.push(all[i as int]));
            assert(names.deep_view() =~= prefix);
            assert forall|a: int, b: int|
                0 <= a < prefix.len() && 0 <= b < prefix.len() && a != b implies !eq_ignore_ascii_case(
                prefix[a],
                prefix[b],
            ) by {
                if a == i {
                    assert(prefix[b] == nb[b]);
                    lemma_eq_ignore_case_equivalence(prefix[a], prefix[b], prefix[a]);
                } else if b == i {
                    assert(prefix[a] == nb[a]);
                } else {
                    assert(prefix[a] == all.take(i as int)[a]);
                    assert(prefix[b] == all.take(i as int)[b]);
                }
            }
            i = i + 1;
        }
        assert(all.take(n as int) =~= all);
        if index_paths.len() != 1 {
            let count = decimal_string(index_paths.len() as u64);
            return Err(
                not_conformant(
                    concat(
                        "expected exactly one case-insensitive Index.rdf at the container root, found ",
                        count.as_str(),
                    ),
                ),
            );
        }
        let index_path = index_paths[0].clone();
        assert(root_indexes(all) =~= seq![index_path@]);
        Ok(ContainerZip { zip, names, index_path })
    }

    /// The bytes of entry `path`, refused when the entry reports, or reads
    /// as, more than `limit` uncompressed bytes.
    fn entry_bytes_limited(&mut self, path: &str, limit: u64, purpose: &str) -> (r: Result<Vec<u8>, IcddError>)
        ensures
            final(self)@ == old(self)@,
            r matches Ok(b) ==> b@ == old(self)@.data[path@] && b@.len() <= limit && entry_readable(
                old(self)@.source,
                path@,
            ) && old(self)@.sizes[path@] <= limit,
            old(self)@.sizes[path@] > limit ==> r is Err,
            old(self)@.names.contains(path@) && entry_readable(old(self)@.source, path@) && old(self)@.sizes[path@]
                <= limit && old(self)@.data[path@].len() <= limit ==> r is Ok,
            old(self)@.names.contains(path@) && entry_readable(old(self)@.source, path@) && old(self)@.sizes[path@]
                > limit ==> (r matches Err(e) && e.is_not_conformant(over_limit_detail(path@, limit, purpose@))),
            r matches Err(e) ==> e is Zip || e is Io || e.is_not_conformant(
                over_limit_detail(path@, limit, purpose@),
            ),
    {
        proof {
            use_type_invariant(&*self);
        }
        let size = match zip_entry_size(&mut self.zip, path) {
            Ok(n) => n,
            Err(message) => {
                return Err(IcddError::Zip(message));
            },
        };
        if size > limit {
            return Err(over_limit(path, limit, purpose));
        }
        let bytes = match zip_read_entry(&mut self.zip, path) {
            Ok(b) => b,
            Err(ReadFailure::Zip(message)) => {
                return Err(IcddError::Zip(message));
            },
            Err(ReadFailure::Io(message)) => {
                return Err(IcddError::Io(message));
            },
        };
        if bytes.len() as u64 > limit {
            return Err(over_limit(path, limit, purpose));
        }
        Ok(bytes)
    }

    /// Read the root `Index.rdf` bytes (at most [`MAX_INDEX_RDF_BYTES`]).
    pub fn index_bytes(&mut self) -> (r: Result<Vec<u8>, IcddError>)
        ensures
            final(self)@ == old(self)@,
            r matches Ok(b) ==> b@ == old(self)@.data[old(self)@.index_path] && b@.len()
                <= MAX_INDEX_RDF_BYTES,
            old(self)@.sizes[old(self)@.index_path] > MAX_INDEX_RDF_BYTES ==> r is Err,
            entry_readable(old(self)@.source, old(self)@.index_path) && old(self)@.sizes[old(self)@.index_path]
                <= MAX_INDEX_RDF_BYTES && old(self)@.data[old(self)@.index_path].len() <= MAX_INDEX_RDF_BYTES
                ==> r is Ok,
            entry_readable(old(self)@.source, old(self)@.index_path) && old(self)@.sizes[old(self)@.index_path]
                > MAX_INDEX_RDF_BYTES ==> (r matches Err(e) && e.is_not_conformant(
                over_limit_detail(old(self)@.index_path, MAX_INDEX_RDF_BYTES, "metadata"@),
            )),
    {
        proof {
            use_type_invariant(&*self);
        }
        proof {
            lemma_root_indexes_listed(self@.names);
            assert(root_indexes(self@.names)[0] == self@.index_path);
        }
        let path = self.index_path.clone();
        self.entry_bytes_limited(path.as_str(), MAX_INDEX_RDF_BYTES, "metadata")
    }

    /// Read a payload document by its `ct:filename` (relative to
    /// `Payload documents/`, or already prefixed with it; back slashes count
    /// as forward slashes), at most [`MAX_IN_MEMORY_PAYLOAD_BYTES`].
    pub fn payload_bytes(&mut self, filename: &str) -> (r: Result<Vec<u8>, IcddError>)
        ensures
            final(self)@ == old(self)@,
            spec_resolve(old(self)@.names, PAYLOAD_DOCS_DIR@, filename@) matches Err(d) ==> r matches Err(
                e,
            ) && e.is_not_conformant(d),
            r matches Ok(b) ==> spec_resolve(old(self)@.names, PAYLOAD_DOCS_DIR@, filename@) matches Ok(
                p,
            ) && b@ == old(self)@.data[p] && b@.len() <= MAX_IN_MEMORY_PAYLOAD_BYTES,
            spec_resolve(old(self)@.names, PAYLOAD_DOCS_DIR@, filename@) matches Ok(p) ==> {
                &&& old(self)@.sizes[p] > MAX_IN_MEMORY_PAYLOAD_BYTES ==> r is Err
                &&& entry_readable(old(self)@.source, p) && old(self)@.sizes[p] <= MAX_IN_MEMORY_PAYLOAD_BYTES
                    && old(self)@.data[p].len() <= MAX_IN_MEMORY_PAYLOAD_BYTES ==> r is Ok
                &&& r matches Err(e) ==> e is Zip || e is Io || e.is_not_conformant(
                    over_limit_detail(p, MAX_IN_MEMORY_PAYLOAD_BYTES, "metadata"@),
                )
            },
    {
        proof {
            use_type_invariant(&*self);
        }
        proof {
            if spec_resolve(self@.names, PAYLOAD_DOCS_DIR@, filename@) is Ok {
                lemma_resolved_listed(self@.names, PAYLOAD_DOCS_DIR@, filename@);
            }
        }
        let path = self.resolve(PAYLOAD_DOCS_DIR, filename)?;
        self.entry_bytes_limited(path.as_str(), MAX_IN_MEMORY_PAYLOAD_BYTES, "metadata")
    }

    /// Append a payload document, found by its `ct:filename` as
    /// [`ContainerZip::payload_bytes`] finds it, to `writer`, at most
    /// [`MAX_STREAMED_PAYLOAD_BYTES`], and return how many bytes were written.
    /// The entry is read whole before anything is appended, so on an error
    /// (a missing or unreadable entry, or one over the limit) `writer` is left
    /// as it was; nothing of an oversized entry is written.
    pub fn copy_payload_to(&mut self, filename: &str, writer: &mut Vec<u8>) -> (r: Result<u64, IcddError>)
        ensures
            final(self)@ == old(self)@,
            match spec_resolve(old(self)@.names, PAYLOAD_DOCS_DIR@, filename@) {
                Err(d) => r matches Err(e) && e.is_not_conformant(d),
                Ok(p) => {
                    &&& old(self)@.sizes[p] > MAX_STREAMED_PAYLOAD_BYTES ==> r is Err
                    &&& entry_readable(old(self)@.source, p) && old(self)@.sizes[p] <= MAX_STREAMED_PAYLOAD_BYTES
                        && old(self)@.data[p].len() <= MAX_STREAMED_PAYLOAD_BYTES ==> r is Ok
                    &&& r matches Err(e) ==> e is Zip || e is Io || e.is_not_conformant(
                        over_limit_detail(p, MAX_STREAMED_PAYLOAD_BYTES, "extraction"@),
                    )
                },
            },
            r matches Ok(n) ==> spec_resolve(old(self)@.names, PAYLOAD_DOCS_DIR@, filename@) matches Ok(p)
                && final(writer)@ == old(writer)@ + old(self)@.data[p] && n == old(self)@.data[p].len() && n
                <= MAX_STREAMED_PAYLOAD_BYTES,
            r is Err ==> final(writer)@ == old(writer)@,
    {
        proof {
            use_type_invariant(&*self);
        }
        proof {
            if spec_resolve(self@.names, PAYLOAD_DOCS_DIR@, filename@) is Ok {
                lemma_resolved_listed(self@.names, PAYLOAD_DOCS_DIR@, filename@);
            }
        }
        let path = self.resolve(PAYLOAD_DOCS_DIR, filename)?;
        let mut bytes = self.entry_bytes_limited(path.as_str(), MAX_STREAMED_PAYLOAD_BYTES, "extraction")?;
        let n = bytes.len() as u64;
        writer.append(&mut bytes);
        Ok(n)
    }

    /// Read a linkset file by its `ct:filename` (relative to
    /// `Payload triples/`), at most [`MAX_LINKSET_RDF_BYTES`].
    pub fn linkset_bytes(&mut self, filename: &str) -> (r: Result<Vec<u8>, IcddError>)
        ensures
            final(self)@ == old(self)@,
            spec_resolve(old(self)@.names, PAYLOAD_TRIPLES_DIR@, filename@) matches Err(d) ==> r matches Err(
                e,
            ) && e.is_not_conformant(d),
            r matches Ok(b) ==> spec_resolve(old(self)@.names, PAYLOAD_TRIPLES_DIR@, filename@) matches Ok(
                p,
            ) && b@ == old(self)@.data[p] && b@.len() <= MAX_LINKSET_RDF_BYTES && entry_readable(
                old(self)@.source,
                p,
            ) && old(self)@.sizes[p] <= MAX_LINKSET_RDF_BYTES,
            spec_resolve(old(self)@.names, PAYLOAD_TRIPLES_DIR@, filename@) matches Ok(p) ==> {
                &&& old(self)@.sizes[p] > MAX_LINKSET_RDF_BYTES ==> r is Err
                &&& entry_readable(old(self)@.source, p) && old(self)@.sizes[p] <= MAX_LINKSET_RDF_BYTES
                    && old(self)@.data[p].len() <= MAX_LINKSET_RDF_BYTES ==> r is Ok
                &&& r matches Err(e) ==> e is Zip || e is Io || e.is_not_conformant(
                    over_limit_detail(p, MAX_LINKSET_RDF_BYTES, "metadata"@),
                )
            },
    {
        proof {
            use_type_invariant(&*self);
        }
        proof {
            if spec_resolve(self@.names, PAYLOAD_TRIPLES_DIR@, filename@) is Ok {
                lemma_resolved_listed(self@.names, PAYLOAD_TRIPLES_DIR@, filename@);
            }
        }
        let path = self.resolve(PAYLOAD_TRIPLES_DIR, filename)?;
        self.entry_bytes_limited(path.as_str(), MAX_LINKSET_RDF_BYTES, "metadata")
    }

    /// Resolve a declared name below its ICDD folder to the one archive entry
    /// equal to it ignoring ASCII case, back slashes read as forward slashes;
    /// the name must then be canonical.
    fn resolve(&self, folder: &str, name: &str) -> (r: Result<String, IcddError>)
        ensures
            match spec_resolve(self@.names, folder@, name@) {
                Ok(p) => r matches Ok(s) && s@ == p,
                Err(d) => r matches Err(e) && e.is_not_conformant(d),
            },
    {
        proof {
            use_type_invariant(self);
        }
        let normalized = normalize_slashes(name);
        let name = normalized.as_str();
        validate_declared_path(name)?;
        let prefixed = concat(folder, "/");
        let nc = chars_of(name);
        let pc = chars_of(prefixed.as_str());
        let starts = if pc.len() <= nc.len() {
            let head = vstd::slice::slice_subrange(nc.as_slice(), 0, pc.len());
            chars_eq_ignore_ascii_case(head, pc.as_slice())
        } else {
            false
        };
        let candidate = if starts {
            owned(name)
        } else {
            concat(prefixed.as_str(), name)
        };
        assert(candidate@ == candidate_path(folder@, name@));
        match find_folded(&self.names, candidate.as_str()) {
            Some(j) => {
                let ghost names = self@.names;
                assert(names[j as int] == self.names.deep_view()[j as int]);
                proof {
                    let k = choose|k: int| 0 <= k < names.len() && eq_ignore_ascii_case(names[k], candidate@);
                    if k != j {
                        lemma_eq_ignore_case_equivalence(names[k], candidate@, names[j as int]);
                    }
                }
                Ok(self.names[j].clone())
            },
            None => Err(not_conformant(concat("payload entry not found: ", candidate.as_str()))),
        }
    }

    /// Validate a declared payload path without requiring the entry to exist.
    pub fn validate_payload_reference(&self, filename: &str) -> (r: Result<(), IcddError>)
        ensures
            r is Ok <==> declared_path_ok(filename@),
            r matches Err(e) ==> e.is_not_conformant(unsafe_path_detail(filename@)),
    {
        validate_declared_path(filename)
    }

    /// Whether a declared internal payload resolves to one archive entry.
    pub fn contains_payload(&self, filename: &str) -> (r: bool)
        ensures
            r == spec_resolve(self@.names, PAYLOAD_DOCS_DIR@, filename@) is Ok,
    {
        proof {
            use_type_invariant(self);
        }
        self.resolve(PAYLOAD_DOCS_DIR, filename).is_ok()
    }

    /// The top-level folders present (for conformance reporting), in
    /// ascending order, each once.
    pub fn top_folders(&self) -> (r: Vec<String>)
        ensures
            strictly_sorted(r.deep_view()),
            forall|t: Seq<char>| #[trigger] r.deep_view().contains(t) <==> is_top_folder(self@.names, t),
    {
        proof {
            use_type_invariant(self);
        }
        let ghost names = self@.names;
        let slash = ['/'];
        assert(slash@ =~= seq!['/']);
        let mut set: Vec<String> = Vec::new();
        let mut i: usize = 0;
        while i < self.names.len()
            invariant
                i <= self.names.len(),
                names == self.names.deep_view(),
                slash@ == seq!['/'],
                strictly_sorted(set.deep_view()),
                forall|t: Seq<char>| #[trigger] set.deep_view().contains(t) <==> is_top_folder(
                    names.take(i as int),
                    t,
                ),
            decreases self.names.len() - i,
        {
            let cs = chars_of(self.names[i].as_str());
            assert(cs@ == names[i as int]);
            let ghost seen = names.take(i as int);
            assert(names.take(i + 1) =~= seen.push(names[i as int]));
            if chars_contain(cs.as_slice(), &slash) {
                let pieces = split_chars(cs.as_slice(), '/');
                proof {
                    lemma_split_on_nonempty(cs@, '/');
                }
                assert(pieces@.map_values(|v: Vec<char>| v@)[0] == pieces@[0]@);
                let top = string_of(pieces[0].as_slice());
                insert_sorted_unique(&mut set, top);
                assert forall|t: Seq<char>| #[trigger] set.deep_view().contains(t) <==> is_top_folder(
                    names.take(i + 1),
                    t,
                ) by {
                    let now = names.take(i + 1);
                    if is_top_folder(seen, t) {
                        let k = choose|k: int|
                            0 <= k < seen.len() && seq_contains(seen[k], seq!['/']) && split_on(
                                seen[k],
                                '/',
                            )[0] == t;
                        assert(now[k] == seen[k]);
                    }
                    if is_top_folder(now, t) {
                        let k = choose|k: int|
                            0 <= k < now.len() && seq_contains(now[k], seq!['/']) && split_on(
                                now[k],
                                '/',
                            )[0] == t;
                        if k < i {
                            assert(seen[k] == now[k]);
                        }
                    }
                    if t == split_on(names[i as int], '/')[0] {
                        assert(now[i as int] == names[i as int]);
                    }
                }
            } else {
                assert forall|t: Seq<char>| #[trigger] set.deep_view().contains(t) <==> is_top_folder(
                    names.take(i + 1),
                    t,
                ) by {
                    let now = names.take(i + 1);
                    if is_top_folder(seen, t) {
                        let k = choose|k: int|
                            0 <= k < seen.len() && seq_contains(seen[k], seq!['/']) && split_on(
                                seen[k],
                                '/',
                            )[0] == t;
                        assert(now[k] == seen[k]);
                    }
                    if is_top_folder(now, t) {
                        let k = choose|k: int|
                            0 <= k < now.len() && seq_contains(now[k], seq!['/']) && split_on(
                                now[k],
                                '/',
                            )[0] == t;
                        if k < i {
                            assert(seen[k] == now[k]);
                        }
                    }
                }
            }
            i = i + 1;
        }
        assert(names.take(i as int) =~= names);
        set
    }

    /// The linkset files present below `Payload triples/`, in archive order.
    pub fn linkset_paths(&self) -> (r: Vec<String>)
        ensures
            r.deep_view() == linkset_entries(self@.names),
    {
        proof {
            use_type_invariant(self);
        }
        let ghost names = self@.names;
        let prefix = concat(PAYLOAD_TRIPLES_DIR, "/");
        let suffix = chars_of(".rdf");
        let pc = chars_of(prefix.as_str());
        let mut found: Vec<String> = Vec::new();
        let mut i: usize = 0;
        assert(found.deep_view() =~= linkset_entries(names.take(0)));
        while i < self.names.len()
            invariant
                i <= self.names.len(),
                names == self.names.deep_view(),
                pc@ == PAYLOAD_TRIPLES_DIR@ + "/"@,
                suffix@ == ".rdf"@,
                found.deep_view() == linkset_entries(names.take(i as int)),
            decreases self.names.len() - i,
        {
            let cs = chars_of(self.names[i].as_str());
            assert(cs@ == names[i as int]);
            assert(names.take(i + 1).drop_last() =~= names.take(i as int));
            assert(names.take(i + 1).last() == names[i as int]);
            let lower = chars_ascii_lower(cs.as_slice());
            if chars_occur_at(cs.as_slice(), pc.as_slice(), 0) && chars_end_with(
                lower.as_slice(),
                suffix.as_slice(),
            ) {
                let ghost before = found.deep_view();
                found.push(self.names[i].clone());
                assert(found.deep_view() =~= before.push(names[i as int]));
            }
            i = i + 1;
        }
        assert(names.take(i as int) =~= names);
        found
    }
}

/// The error for an entry over a size limit.
fn over_limit(path: &str, limit: u64, purpose: &str) -> (e: IcddError)
    ensures
        e.is_not_conformant(over_limit_detail(path@, limit, purpose@)),
{
    let q = debug_quoted(path);
    let l = decimal_string(limit);
    let a = concat("archive entry ", q.as_str());
    let b = concat(a.as_str(), " exceeds the ");
    let c = concat(b.as_str(), l.as_str());
    let d = concat(c.as_str(), "-byte ");
    let e = concat(d.as_str(), purpose);
    not_conformant(concat(e.as_str(), " limit"))
}

/// Adds `s` to the ascending list `v` unless it is already there.
fn insert_sorted_unique(v: &mut Vec<String>, s: String)
    requires
        strictly_sorted(old(v).deep_view()),
    ensures
        strictly_sorted(final(v).deep_view()),
        forall|t: Seq<char>| #[trigger] final(v).deep_view().contains(t) <==> (old(v).deep_view().contains(t) || t == s@),
{
    let ghost keys = v.deep_view();
    let mut i: usize = 0;
    assert(keys.skip(0) =~= keys);
    while i < v.len() && str_less(v[i].as_str(), s.as_str())
        invariant
            i <= v.len(),
            keys == v.deep_view(),
            lower_bound(keys, s@) == i + lower_bound(keys.skip(i as int), s@),
        decreases v.len() - i,
    {
        assert(keys.skip(i as int)[0] == v@[i as int]@);
        assert(keys.skip(i as int).drop_first() =~= keys.skip(i + 1));
        i = i + 1;
    }
    if i < v.len() {
        assert(keys.skip(i as int)[0] == v@[i as int]@);
    } else {
        assert(keys.skip(i as int).len() == 0);
    }
    proof {
        lemma_lower_bound(keys, s@);
    }
    if i < v.len() && str_eq(v[i].as_str(), s.as_str()) {
        assert(keys[i as int] == s@);
        return;
    }
    proof {
        if keys.contains(s@) {
            let j = choose|j: int| 0 <= j < keys.len() && keys[j] == s@;
            lemma_lower_bound_at(keys, s@, j);
        }
        lemma_sorted_insert(keys, s@);
    }
    let ghost sv = s@;
    v.insert(i, s);
    assert(v.deep_view() =~= keys.insert(i as int, sv));
    assert forall|t: Seq<char>| #[trigger] v.deep_view().contains(t) <==> (keys.contains(t) || t == sv) by {
        let nv = v.deep_view();
        if keys.contains(t) {
            let j = choose|j: int| 0 <= j < keys.len() && keys[j] == t;
            if j < i {
                assert(nv[j] == t);
            } else {
                assert(nv[j + 1] == t);
            }
        }
        if t == sv {
            assert(nv[i as int] == t);
        }
        if nv.contains(t) {
            let j = choose|j: int| 0 <= j < nv.len() && nv[j] == t;
            if j < i {
                assert(keys[j] == t);
            } else if j > i {
                assert(keys[j - 1] == t);
            }
        }
    }
}

} // verus!
