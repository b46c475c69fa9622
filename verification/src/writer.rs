//! Deterministic ICDD archive construction.
//!
//! RDF/XML is validated before any archive bytes are emitted; payload
//! documents stay opaque and are copied byte for byte. Entries are written in
//! a fixed order with fixed timestamps and permissions, so the same builder
//! always produces the same archive.

use std::io::Cursor;
use vstd::prelude::*;
use vstd::string::*;
use zip::write::SimpleFileOptions;
use zip::{CompressionMethod, DateTime, ZipWriter};

use crate::container::{
    candidate_path, declared_path_ok, distinct_names, folded_unique, has_folder_prefix,
    has_only_normal_components, holds_entries, is_root_index, lemma_no_backslash_normalized, matching_entry, only_normal_components,
    reads_back, reads_written, root_indexes, spec_resolve, written_names, ContainerZipView, ONTOLOGY_DIR, PAYLOAD_DOCS_DIR,
    PAYLOAD_TRIPLES_DIR,
};
use crate::error::{not_conformant, IcddError};
use crate::index::{contains_id, parse_index, spec_index};
use crate::linkset::parse_linkset;
use crate::rdf::MAX_RDF_TRIPLES;
use crate::rdfgraph::{
    graph_of, graph_read, lemma_lower_bound, lemma_lower_bound_sorted, lower_bound, parses_within_limit,
    strictly_sorted, graph_read_error, EntryView, PairView, RdfGraph,
};
use crate::schema::{ContainerIndex, DocumentKind, DocumentView, IndexView, LinksetRefView};
use crate::text::{
    chars_contain, chars_end_with, chars_eq_ignore_ascii_case, chars_of, concat,
    eq_ignore_ascii_case, lemma_seq_lt_asymmetric, lemma_seq_lt_irreflexive, lemma_seq_lt_total,
    lemma_seq_lt_transitive, occurs_at, owned, seq_contains, seq_ends_with, seq_lt, seq_starts_with, str_eq,
    str_less,
};
use crate::INDEX_PATH;

verus! {

/// The path avoids backslashes, a leading or trailing `/`, and `//`.
pub open spec fn forward_slash_shape(path: Seq<char>) -> bool {
    &&& !seq_contains(path, seq!['\\'])
    &&& !seq_starts_with(path, seq!['/'])
    &&& !seq_ends_with(path, seq!['/'])
    &&& !seq_contains(path, seq!['/', '/'])
}

/// What [`normalize_relative_path`] returns for `path`.
pub open spec fn spec_normalize_relative_path(path: Seq<char>) -> Result<Seq<char>, Seq<char>> {
    if !forward_slash_shape(path) {
        Err("archive path must be a canonical relative forward-slash path: "@ + path)
    } else if !only_normal_components(path) {
        Err("unsafe or non-canonical archive path: "@ + path)
    } else if path.len() == 0 {
        Err("empty archive path"@)
    } else {
        Ok(path)
    }
}

/// Check that `path` is a canonical relative archive path and return it.
pub fn normalize_relative_path(path: &str) -> (r: Result<String, IcddError>)
    ensures
        match spec_normalize_relative_path(path@) {
            Ok(p) => r matches Ok(s) && s@ == p,
            Err(d) => r matches Err(e) && e.is_not_conformant(d),
        },
{
    let cs = chars_of(path);
    let backslash = ['\\'];
    let double_slash = ['/', '/'];
    let slash = ['/'];
    assert(backslash@ =~= seq!['\\']);
    assert(double_slash@ =~= seq!['/', '/']);
    assert(slash@ =~= seq!['/']);
    let starts = cs.len() > 0 && cs[0] == '/';
    assert(starts == seq_starts_with(path@, seq!['/'])) by {
        if path@.len() > 0 {
            assert(path@.subrange(0, 1)[0] == path@[0]);
            if path@[0] == '/' {
                assert(path@.subrange(0, 1) =~= seq!['/']);
            }
        }
    }
    if chars_contain(cs.as_slice(), &backslash) || starts || chars_end_with(cs.as_slice(), &slash)
        || chars_contain(cs.as_slice(), &double_slash) {
        return Err(
            not_conformant(
                concat("archive path must be a canonical relative forward-slash path: ", path),
            ),
        );
    }
    if !has_only_normal_components(cs.as_slice()) {
        return Err(not_conformant(concat("unsafe or non-canonical archive path: ", path)));
    }
    if cs.len() == 0 {
        return Err(not_conformant(owned("empty archive path")));
    }
    Ok(owned(path))
}

/// A path is accepted by [`normalize_relative_path`] exactly when it is a valid
/// declared path of the reader, and then it is returned unchanged.
pub proof fn lemma_normalize_accepts_declared_paths(path: Seq<char>)
    ensures
        spec_normalize_relative_path(path) is Ok <==> declared_path_ok(path),
        spec_normalize_relative_path(path) is Ok ==> spec_normalize_relative_path(path)
            == Ok::<Seq<char>, Seq<char>>(path),
{
}


// ---------------------------------------------------------------------------
// Ordered entry maps
/// A `(relative path, bytes)` entry of one of the archive folders.
pub type FileEntryView = (Seq<char>, Seq<u8>);

/// The paths of the entries, in order.
pub open spec fn file_keys(es: Seq<FileEntryView>) -> Seq<Seq<char>> {
    es.map_values(|e: FileEntryView| e.0)
}

/// Some path equals `p` ignoring ASCII case.
pub open spec fn folded_clash(keys: Seq<Seq<char>>, p: Seq<char>) -> bool {
    exists|i: int| 0 <= i < keys.len() && eq_ignore_ascii_case(keys[i], p)
}

/// No two paths are equal ignoring ASCII case.
pub open spec fn no_folded_twins(keys: Seq<Seq<char>>) -> bool {
    forall|i: int, j: int|
        0 <= i < keys.len() && 0 <= j < keys.len() && i != j ==> !eq_ignore_ascii_case(
            keys[i],
            keys[j],
        )
}

/// The entries are ordered by path, and no two paths differ only in ASCII case.
pub open spec fn entries_ok(es: Seq<FileEntryView>) -> bool {
    strictly_sorted(file_keys(es)) && no_folded_twins(file_keys(es))
}

/// The entries with `(p, bytes)` added at its place in the order.
pub open spec fn with_entry(es: Seq<FileEntryView>, p: Seq<char>, bytes: Seq<u8>) -> Seq<FileEntryView> {
    es.insert(lower_bound(file_keys(es), p), (p, bytes))
}

/// Adding a path that is not present at its place keeps the paths ordered.
pub proof fn lemma_sorted_insert(keys: Seq<Seq<char>>, s: Seq<char>)
    requires
        strictly_sorted(keys),
        !keys.contains(s),
    ensures
        strictly_sorted(keys.insert(lower_bound(keys, s), s)),
{
    let k = lower_bound(keys, s);
    lemma_lower_bound(keys, s);
    lemma_lower_bound_sorted(keys, s);
    let nkeys = keys.insert(k, s);
    assert forall|j: int| k <= j < keys.len() implies seq_lt(s, keys[j]) by {
        if keys[j] == s {
            assert(keys.contains(s));
        }
        lemma_seq_lt_total(keys[j], s);
    }
    assert forall|i: int, j: int| 0 <= i < j < nkeys.len() implies seq_lt(
        nkeys[i],
        nkeys[j],
    ) by {
        if j < k {
        } else if j == k {
        } else if i < k {
            assert(seq_lt(s, keys[j - 1]));
            lemma_seq_lt_transitive(keys[i], s, keys[j - 1]);
        } else if i == k {
            assert(seq_lt(s, keys[j - 1]));
        } else {
        }
    }
}

/// Equality ignoring ASCII case is symmetric.
pub proof fn lemma_eq_ignore_case_symmetric(a: Seq<char>, b: Seq<char>)
    ensures
        eq_ignore_ascii_case(a, b) == eq_ignore_ascii_case(b, a),
{
}

/// Whether some path equals `p` ignoring ASCII case.
fn has_folded_clash(es: &Vec<(String, Vec<u8>)>, p: &str) -> (r: bool)
    ensures
        r == folded_clash(file_keys(es.deep_view()), p@),
{
    let ghost keys = file_keys(es.deep_view());
    let pc = chars_of(p);
    let mut i: usize = 0;
    while i < es.len()
        invariant
            i <= es.len(),
            keys == file_keys(es.deep_view()),
            pc@ == p@,
            forall|k: int| 0 <= k < i ==> !eq_ignore_ascii_case(keys[k], p@),
        decreases es.len() - i,
    {
        let kc = chars_of(es[i].0.as_str());
        assert(keys[i as int] == es@[i as int].0@);
        if chars_eq_ignore_ascii_case(kc.as_slice(), pc.as_slice()) {
            return true;
        }
        i = i + 1;
    }
    false
}

/// The position of the first entry whose path does not come before `p`.
fn file_lower_bound(es: &Vec<(String, Vec<u8>)>, p: &str) -> (k: usize)
    ensures
        k == lower_bound(file_keys(es.deep_view()), p@),
{
    let ghost keys = file_keys(es.deep_view());
    let mut i: usize = 0;
    assert(keys.skip(0) =~= keys);
    while i < es.len() && str_less(es[i].0.as_str(), p)
        invariant
            i <= es.len(),
            keys == file_keys(es.deep_view()),
            lower_bound(keys, p@) == i + lower_bound(keys.skip(i as int), p@),
        decreases es.len() - i,
    {
        assert(keys.skip(i as int)[0] == es@[i as int].0@);
        assert(keys.skip(i as int).drop_first() =~= keys.skip(i + 1));
        i = i + 1;
    }
    if i < es.len() {
        assert(keys.skip(i as int)[0] == es@[i as int].0@);
    } else {
        assert(keys.skip(i as int).len() == 0);
    }
    i
}

/// Whether the entries hold exactly the path `p`.
fn has_path(es: &Vec<(String, Vec<u8>)>, p: &str) -> (r: bool)
    ensures
        r == file_keys(es.deep_view()).contains(p@),
{
    let ghost keys = file_keys(es.deep_view());
    let mut i: usize = 0;
    while i < es.len()
        invariant
            i <= es.len(),
            keys == file_keys(es.deep_view()),
            forall|k: int| 0 <= k < i ==> keys[k] != p@,
        decreases es.len() - i,
    {
        assert(keys[i as int] == es@[i as int].0@);
        if str_eq(es[i].0.as_str(), p) {
            return true;
        }
        i = i + 1;
    }
    false
}

/// The detail text of the error for a path that clashes with an entry.
pub open spec fn duplicate_detail(kind: Seq<char>, path: Seq<char>) -> Seq<char> {
    "duplicate case-folded "@ + kind + " path: "@ + path
}

/// Adds `(path, bytes)` unless a path equal to it ignoring ASCII case is
/// already present. The entries stay ordered by path if they were, and no
/// two paths come to differ only in ASCII case.
pub fn insert_unique(entries: &mut Vec<(String, Vec<u8>)>, path: String, bytes: &[u8], kind: &str) -> (r: Result<(), IcddError>)
    ensures
        strictly_sorted(file_keys(old(entries).deep_view())) ==> strictly_sorted(
            file_keys(final(entries).deep_view()),
        ),
        no_folded_twins(file_keys(old(entries).deep_view())) ==> no_folded_twins(
            file_keys(final(entries).deep_view()),
        ),
        r is Err <==> folded_clash(file_keys(old(entries).deep_view()), path@),
        r matches Err(e) ==> e.is_not_conformant(duplicate_detail(kind@, path@))
            && final(entries).deep_view() == old(entries).deep_view(),
        r is Ok ==> final(entries).deep_view() == with_entry(old(entries).deep_view(), path@, bytes@),
{
    let ghost old_view = entries.deep_view();
    let ghost keys = file_keys(old_view);
    if has_folded_clash(entries, path.as_str()) {
        let head = concat("duplicate case-folded ", kind);
        let head = concat(head.as_str(), " path: ");
        return Err(not_conformant(concat(head.as_str(), path.as_str())));
    }
    let k = file_lower_bound(entries, path.as_str());
    proof {
        lemma_lower_bound(keys, path@);
        assert(!keys.contains(path@)) by {
            if keys.contains(path@) {
                let i = choose|i: int| 0 <= i < keys.len() && keys[i] == path@;
                assert(eq_ignore_ascii_case(keys[i], path@));
            }
        }
        if strictly_sorted(keys) {
            lemma_sorted_insert(keys, path@);
        }
    }
    let ghost pv = path@;
    let data = vstd::slice::slice_to_vec(bytes);
    assert(data.deep_view() =~= bytes@);
    entries.insert(k, (path, data));
    assert(entries.deep_view() =~= old_view.insert(k as int, (pv, bytes@)));
    assert(file_keys(entries.deep_view()) =~= keys.insert(k as int, pv));
    proof {
        if no_folded_twins(keys) {
            let nk = file_keys(entries.deep_view());
            assert forall|i: int, j: int|
                0 <= i < nk.len() && 0 <= j < nk.len() && i != j implies !eq_ignore_ascii_case(
                nk[i],
                nk[j],
            ) by {
                if i == k {
                    let jj = if j < k { j } else { j - 1 };
                    assert(nk[j] == keys[jj]);
                    lemma_eq_ignore_case_symmetric(pv, keys[jj]);
                } else if j == k {
                    let ii = if i < k { i } else { i - 1 };
                    assert(nk[i] == keys[ii]);
                } else {
                    let ii = if i < k { i } else { i - 1 };
                    let jj = if j < k { j } else { j - 1 };
                    assert(nk[i] == keys[ii]);
                    assert(nk[j] == keys[jj]);
                }
            }
        }
    }
    Ok(())
}


// ---------------------------------------------------------------------------
// Writing the ZIP archive
/// Unix permissions of file entries.
pub const FILE_PERMISSIONS: u32 = 0o644;

/// Unix permissions of directory entries.
pub const DIRECTORY_PERMISSIONS: u32 = 0o755;

/// How the bytes of a file entry are stored.
pub enum EntryCompression {
    Stored,
    Deflated,
}

/// An entry as written: path, whether it is a directory, whether it is
/// deflated, its Unix permissions, and its bytes.
pub type ZipEntryView = (Seq<char>, bool, bool, u32, Seq<u8>, ZipTime);

/// A modification time as a ZIP entry records it: year, month, day, hour,
/// minute and second.
pub type ZipTime = (u16, u8, u8, u8, u8, u8);

/// The time every entry is written with: 1980-01-01 00:00:00, the earliest
/// a ZIP entry records, so that the archive does not depend on the clock.
pub open spec fn written_time() -> ZipTime {
    (1980, 1, 1, 0, 0, 0)
}

/// The time every entry is written with ([`written_time`]).
pub fn fixed_time() -> (t: ZipTime)
    ensures
        t == written_time(),
{
    (1980, 1, 1, 0, 0, 0)
}

/// The time is one a ZIP entry can record (`DateTime::from_date_and_time`):
/// a year from 1980 to 2107, a day that exists in its month, and an hour,
/// minute and second in range.
pub open spec fn valid_zip_time(t: ZipTime) -> bool {
    let max_day: u8 = if t.1 == 2 {
        if t.0 % 4 == 0 && (t.0 % 100 != 0 || t.0 % 400 == 0) { 29 } else { 28 }
    } else if t.1 == 4 || t.1 == 6 || t.1 == 9 || t.1 == 11 {
        30
    } else {
        31
    };
    &&& 1980 <= t.0 <= 2107
    &&& 1 <= t.1 <= 12
    &&& 1 <= t.2 <= max_day
    &&& t.3 <= 23 && t.4 <= 59 && t.5 <= 60
}

/// A ZIP archive being written into memory (a `zip::ZipWriter` over a
/// `Cursor<Vec<u8>>`), known by the entries written into it; the writer
/// itself is a private field.
#[verifier::external_body]
pub struct ZipSink {
    writer: ZipWriter<Cursor<Vec<u8>>>,
}

/// The entries written so far, in order.
pub uninterp spec fn sink_entries(sink: ZipSink) -> Seq<ZipEntryView>;

/// Whether an operation on the sink has failed; after a failure nothing is
/// stated of what the writer holds.
pub uninterp spec fn sink_failed(sink: ZipSink) -> bool;

/// The archive bytes `ZipWriter::finish` produces for the entries written, in
/// order, each with its recorded modification time.
pub uninterp spec fn zip_archive_bytes(entries: Seq<ZipEntryView>) -> Seq<u8>;

/// The characters of all entry names and the bytes of all entries, together.
pub open spec fn entries_weight(es: Seq<ZipEntryView>) -> nat
    decreases es.len(),
{
    if es.len() == 0 {
        0
    } else {
        entries_weight(es.drop_last()) + es.last().0.len() + es.last().4.len()
    }
}

/// The entries stay far below every limit of a ZIP archive written without
/// ZIP64 records: at most 60000 entries (the format's count field holds
/// 65535), names of at most 1024 characters (4096 bytes of UTF-8; a header
/// holds 65535), and at most 1 GiB of names and bytes together, so that
/// every size and offset, deflate's slight growth and all headers included,
/// stays below 4 GiB.
pub open spec fn sink_fits(es: Seq<ZipEntryView>) -> bool {
    &&& es.len() <= 60000
    &&& forall|i: int| 0 <= i < es.len() ==> #[trigger] es[i].0.len() <= 1024
    &&& entries_weight(es) <= 0x4000_0000
}

/// A prefix of entries weighs no more than the whole.
proof fn lemma_weight_prefix(es: Seq<ZipEntryView>, k: int)
    requires
        0 <= k <= es.len(),
    ensures
        entries_weight(es.take(k)) <= entries_weight(es),
    decreases es.len(),
{
    if k < es.len() {
        lemma_weight_prefix(es.drop_last(), k);
        assert(es.drop_last().take(k) =~= es.take(k));
    } else {
        assert(es.take(k) =~= es);
    }
}

/// Entry `k` of entries that fit, with distinct names, may follow the ones
/// before it: its name is new, and the entries up to it fit.
proof fn lemma_next_entry_fits(es: Seq<ZipEntryView>, k: int)
    requires
        0 <= k < es.len(),
        distinct_names(es),
        sink_fits(es),
    ensures
        !written_names(es.take(k)).contains(es[k].0),
        sink_fits(es.take(k + 1)),
        es.take(k + 1) == es.take(k).push(es[k]),
{
    lemma_weight_prefix(es, k + 1);
    assert(es.take(k + 1) =~= es.take(k).push(es[k]));
    if written_names(es.take(k)).contains(es[k].0) {
        let j = choose|j: int| 0 <= j < written_names(es.take(k)).len() && written_names(es.take(k))[j] == es[k].0;
        assert(es[j].0 == es[k].0);
    }
    assert forall|i: int| 0 <= i < es.take(k + 1).len() implies #[trigger] es.take(k + 1)[i].0.len() <= 1024 by {
        assert(es.take(k + 1)[i] == es[i]);
    }
}

/// An empty in-memory archive (`ZipWriter::new(Cursor::new(Vec::new()))`).
#[verifier::external_body]
fn sink_new() -> (s: ZipSink)
    ensures
        sink_entries(s) == Seq::<ZipEntryView>::empty(),
        !sink_failed(s),
{
    ZipSink { writer: ZipWriter::new(Cursor::new(Vec::new())) }
}

/// Starts a file entry (`ZipWriter::start_file`) with the given compression,
/// permissions and modification time. The time must be one a ZIP entry can
/// record (`DateTime::from_date_and_time`); the writer refuses a name already
/// written (`Duplicate filename`); its other refusals are of sizes past the
/// limits [`sink_fits`] keeps far below, or of options this call does not
/// set.
#[verifier::external_body]
fn sink_start_file(
    sink: &mut ZipSink,
    name: &str,
    compression: EntryCompression,
    permissions: u32,
    modified: ZipTime,
) -> (r: Result<(), String>)
    ensures
        r is Ok ==> sink_entries(*final(sink)) == sink_entries(*old(sink)).push(
            (name@, false, compression is Deflated, permissions, Seq::<u8>::empty(), modified),
        ) && !sink_failed(*final(sink)),
        !sink_failed(*old(sink)) && valid_zip_time(modified) && !written_names(sink_entries(*old(sink))).contains(
            name@,
        ) && sink_fits(
            sink_entries(*old(sink)).push((name@, false, compression is Deflated, permissions, Seq::<u8>::empty(), modified)),
        ) ==> r is Ok,
{
    let method = match compression {
        EntryCompression::Stored => CompressionMethod::Stored,
        EntryCompression::Deflated => CompressionMethod::Deflated,
    };
    let (year, month, day, hour, minute, second) = modified;
    let time = match DateTime::from_date_and_time(year, month, day, hour, minute, second) {
        Ok(time) => time,
        Err(error) => return Err(error.to_string()),
    };
    let options = SimpleFileOptions::default().compression_method(method);
    let options = options.last_modified_time(time).unix_permissions(permissions);
    sink.writer.start_file(name, options).map_err(|error| error.to_string())
}

/// Adds a directory entry (`ZipWriter::add_directory`, which stores it
/// uncompressed) with the given permissions and modification time. It is
/// refused as [`sink_start_file`] is.
#[verifier::external_body]
fn sink_add_directory(sink: &mut ZipSink, name: &str, permissions: u32, modified: ZipTime) -> (r: Result<(), String>)
    requires
        seq_ends_with(name@, seq!['/']),
    ensures
        r is Ok ==> sink_entries(*final(sink)) == sink_entries(*old(sink)).push(
            (name@, true, false, permissions, Seq::<u8>::empty(), modified),
        ) && !sink_failed(*final(sink)),
        !sink_failed(*old(sink)) && valid_zip_time(modified) && !written_names(sink_entries(*old(sink))).contains(
            name@,
        ) && sink_fits(
            sink_entries(*old(sink)).push((name@, true, false, permissions, Seq::<u8>::empty(), modified)),
        ) ==> r is Ok,
{
    let (year, month, day, hour, minute, second) = modified;
    let time = match DateTime::from_date_and_time(year, month, day, hour, minute, second) {
        Ok(time) => time,
        Err(error) => return Err(error.to_string()),
    };
    let options = SimpleFileOptions::default().last_modified_time(time).unix_permissions(permissions);
    sink.writer.add_directory(name, options).map_err(|error| error.to_string())
}

/// The entries with `bytes` appended to the last one.
pub open spec fn with_bytes_appended(es: Seq<ZipEntryView>, bytes: Seq<u8>) -> Seq<ZipEntryView> {
    es.update(es.len() - 1, (es.last().0, es.last().1, es.last().2, es.last().3, es.last().4 + bytes, es.last().5))
}

/// Writes bytes into the file entry last started (`Write::write_all`). No
/// bytes is no write; bytes with no file entry started are refused ("No file
/// has been started"), and otherwise only a file past 4 GiB is.
#[verifier::external_body]
fn sink_write_all(sink: &mut ZipSink, bytes: &[u8]) -> (r: Result<(), String>)
    requires
        sink_entries(*old(sink)).len() > 0 ==> sink_entries(*old(sink)).last().4.len() == 0,
    ensures
        r is Ok ==> !sink_failed(*final(sink)) && {
            let before = sink_entries(*old(sink));
            if bytes@.len() == 0 {
                sink_entries(*final(sink)) == before
            } else {
                &&& before.len() > 0
                &&& !before.last().1
                &&& sink_entries(*final(sink)) == with_bytes_appended(before, bytes@)
            }
        },
        !sink_failed(*old(sink)) && (bytes@.len() == 0 || (sink_entries(*old(sink)).len() > 0
            && !sink_entries(*old(sink)).last().1 && sink_fits(
            with_bytes_appended(sink_entries(*old(sink)), bytes@),
        ))) ==> r is Ok,
{
    match std::io::Write::write_all(&mut sink.writer, bytes) {
        Ok(()) => Ok(()),
        Err(error) => Err(error.to_string()),
    }
}

/// Finishes the archive (`ZipWriter::finish`) and returns its bytes; over an
/// in-memory cursor it fails only on sizes past the limits [`sink_fits`]
/// keeps far below. The `zip` crate's reader reads what its writer wrote:
/// entries of distinct names come back as written, each one readable.
#[verifier::external_body]
fn sink_finish(sink: ZipSink) -> (r: Result<Vec<u8>, String>)
    ensures
        r matches Ok(bytes) ==> bytes@ == zip_archive_bytes(sink_entries(sink)),
        r matches Ok(bytes) ==> (distinct_names(sink_entries(sink)) ==> reads_written(bytes@, sink_entries(sink))),
        !sink_failed(sink) && sink_fits(sink_entries(sink)) ==> r is Ok,
{
    match sink.writer.finish() {
        Ok(cursor) => Ok(cursor.into_inner()),
        Err(error) => Err(error.to_string()),
    }
}

// ---------------------------------------------------------------------------
// The builder
/// The contents of an [`IcddArchiveBuilder`].
pub struct ArchiveBuilderView {
    pub index_rdf: Seq<u8>,
    pub payloads: Seq<FileEntryView>,
    pub linksets: Seq<FileEntryView>,
    pub ontology_resources: Seq<FileEntryView>,
}

/// Every path of the entries is a declared path the reader accepts.
pub open spec fn keys_declared(es: Seq<FileEntryView>) -> bool {
    forall|i: int| 0 <= i < es.len() ==> declared_path_ok(#[trigger] es[i].0)
}

/// Every folder of the builder is ordered by path, without two paths that
/// differ only in ASCII case, and every path is a declared path the reader
/// accepts.
pub open spec fn builder_ok(b: ArchiveBuilderView) -> bool {
    &&& entries_ok(b.payloads) && entries_ok(b.linksets) && entries_ok(b.ontology_resources)
    &&& keys_declared(b.payloads) && keys_declared(b.linksets) && keys_declared(b.ontology_resources)
}

/// The index and every linkset file of the builder parse within the triple
/// limit, as `new` and `add_linkset` check.
pub open spec fn documents_parse(b: ArchiveBuilderView) -> bool {
    &&& parses_within_limit(b.index_rdf)
    &&& forall|i: int| 0 <= i < b.linksets.len() ==> parses_within_limit(#[trigger] b.linksets[i].1)
}

/// Adding an entry whose bytes parse keeps every entry's bytes parsing.
proof fn lemma_with_entry_parses(es: Seq<FileEntryView>, p: Seq<char>, bytes: Seq<u8>)
    requires
        forall|i: int| 0 <= i < es.len() ==> parses_within_limit(#[trigger] es[i].1),
        parses_within_limit(bytes),
    ensures
        forall|i: int| 0 <= i < with_entry(es, p, bytes).len() ==> parses_within_limit(
            #[trigger] with_entry(es, p, bytes)[i].1,
        ),
{
    let k = lower_bound(file_keys(es), p);
    lemma_lower_bound(file_keys(es), p);
    let w = with_entry(es, p, bytes);
    assert forall|i: int| 0 <= i < w.len() implies parses_within_limit(#[trigger] w[i].1) by {
        if i < k {
            assert(w[i] == es[i]);
        } else if i > k {
            assert(w[i] == es[i - 1]);
        }
    }
}

/// Adding a declared path keeps every path declared.
proof fn lemma_with_entry_declared(es: Seq<FileEntryView>, p: Seq<char>, bytes: Seq<u8>)
    requires
        keys_declared(es),
        declared_path_ok(p),
    ensures
        keys_declared(with_entry(es, p, bytes)),
{
    let k = lower_bound(file_keys(es), p);
    lemma_lower_bound(file_keys(es), p);
    let w = with_entry(es, p, bytes);
    assert forall|i: int| 0 <= i < w.len() implies declared_path_ok(#[trigger] w[i].0) by {
        if i < k {
            assert(w[i] == es[i]);
        } else if i > k {
            assert(w[i] == es[i - 1]);
        }
    }
}

/// The builder with payload `(p, bytes)` added.
pub open spec fn with_payload(v: ArchiveBuilderView, p: Seq<char>, bytes: Seq<u8>) -> ArchiveBuilderView {
    ArchiveBuilderView { payloads: with_entry(v.payloads, p, bytes), ..v }
}

/// The builder with linkset `(p, bytes)` added.
pub open spec fn with_linkset(v: ArchiveBuilderView, p: Seq<char>, bytes: Seq<u8>) -> ArchiveBuilderView {
    ArchiveBuilderView { linksets: with_entry(v.linksets, p, bytes), ..v }
}

/// The builder with ontology resource `(p, bytes)` added.
pub open spec fn with_ontology_resource(v: ArchiveBuilderView, p: Seq<char>, bytes: Seq<u8>) -> ArchiveBuilderView {
    ArchiveBuilderView { ontology_resources: with_entry(v.ontology_resources, p, bytes), ..v }
}

/// Builds a deterministic ISO 21597-1 ZIP container.
///
/// RDF/XML is validated before any archive bytes are emitted. Payload
/// documents remain opaque and are copied byte for byte.
#[derive(Debug)]
pub struct IcddArchiveBuilder {
    index_rdf: Vec<u8>,
    payloads: Vec<(String, Vec<u8>)>,
    linksets: Vec<(String, Vec<u8>)>,
    ontology_resources: Vec<(String, Vec<u8>)>,
}

impl View for IcddArchiveBuilder {
    type V = ArchiveBuilderView;

    closed spec fn view(&self) -> ArchiveBuilderView {
        ArchiveBuilderView {
            index_rdf: self.index_rdf@,
            payloads: self.payloads.deep_view(),
            linksets: self.linksets.deep_view(),
            ontology_resources: self.ontology_resources.deep_view(),
        }
    }
}

impl IcddArchiveBuilder {
    #[verifier::type_invariant]
    spec fn folders_ok(self) -> bool {
        builder_ok(self@) && documents_parse(self@)
    }

    /// Start an archive from a complete `Index.rdf` RDF/XML document, which
    /// must parse as a container index.
    pub fn new(index_rdf: &[u8]) -> (r: Result<IcddArchiveBuilder, IcddError>)
        ensures
            parses_within_limit(index_rdf@) ==> exists|g: Seq<EntryView>|
                #[trigger] graph_read(index_rdf@, g) && match spec_index(g) {
                    Ok(_) => r is Ok,
                    Err(d) => r matches Err(e) && e.is_not_conformant(d),
                },
            !parses_within_limit(index_rdf@) ==> (r matches Err(e) && graph_read_error(index_rdf@, e)),
            r is Ok ==> exists|g: Seq<EntryView>| #[trigger] graph_read(index_rdf@, g) && spec_index(g) is Ok,
            r matches Ok(b) ==> {
                &&& b@.index_rdf == index_rdf@
                &&& b@.payloads.len() == 0
                &&& b@.linksets.len() == 0
                &&& b@.ontology_resources.len() == 0
                &&& builder_ok(b@)
            },
            r matches Err(e) ==> e is Rdf || e is NotConformant,
    {
        let parsed = parse_index(index_rdf);
        match parsed {
            Err(e) => Err(e),
            Ok(_) => {
                let b = IcddArchiveBuilder {
                    index_rdf: vstd::slice::slice_to_vec(index_rdf),
                    payloads: Vec::new(),
                    linksets: Vec::new(),
                    ontology_resources: Vec::new(),
                };
                assert(b@.payloads =~= Seq::<FileEntryView>::empty());
                assert(b@.linksets =~= Seq::<FileEntryView>::empty());
                assert(b@.ontology_resources =~= Seq::<FileEntryView>::empty());
                Ok(b)
            },
        }
    }

    /// Add an opaque document below `Payload documents/`.
    pub fn add_payload(self, relative_path: &str, bytes: &[u8]) -> (r: Result<IcddArchiveBuilder, IcddError>)
        ensures
            match spec_normalize_relative_path(relative_path@) {
                Err(d) => r matches Err(e) && e.is_not_conformant(d),
                Ok(p) => if folded_clash(file_keys(self@.payloads), p) {
                    r matches Err(e) && e.is_not_conformant(duplicate_detail("payload document"@, p))
                } else {
                    r matches Ok(b) && b@ == with_payload(self@, p, bytes@) && builder_ok(b@)
                },
            },
    {
        proof {
            use_type_invariant(&self);
        }
        let path = normalize_relative_path(relative_path)?;
        proof {
            lemma_normalize_accepts_declared_paths(relative_path@);
            lemma_with_entry_declared(self@.payloads, path@, bytes@);
        }
        let IcddArchiveBuilder { index_rdf, mut payloads, linksets, ontology_resources } = self;
        insert_unique(&mut payloads, path, bytes, "payload document")?;
        Ok(IcddArchiveBuilder { index_rdf, payloads, linksets, ontology_resources })
    }

    /// Add and validate an RDF/XML linkset below `Payload triples/`.
    pub fn add_linkset(self, relative_path: &str, rdf_xml: &[u8]) -> (r: Result<IcddArchiveBuilder, IcddError>)
        ensures
            spec_normalize_relative_path(relative_path@) matches Err(d) ==> r matches Err(e)
                && e.is_not_conformant(d),
            spec_normalize_relative_path(relative_path@) matches Ok(p) && folded_clash(
                file_keys(self@.linksets),
                p,
            ) ==> r is Err,
            r matches Ok(b) ==> spec_normalize_relative_path(relative_path@) matches Ok(p)
                && !folded_clash(file_keys(self@.linksets), p) && b@ == with_linkset(
                self@,
                p,
                rdf_xml@,
            ) && builder_ok(b@),
            match spec_normalize_relative_path(relative_path@) {
                Ok(p) => !folded_clash(file_keys(self@.linksets), p) && parses_within_limit(rdf_xml@) ==> (r matches Ok(
                    b,
                ) && b@ == with_linkset(self@, p, rdf_xml@)),
                Err(_) => true,
            },
            spec_normalize_relative_path(relative_path@) is Ok && !parses_within_limit(rdf_xml@) ==> (r matches Err(e) && graph_read_error(rdf_xml@, e)),
    {
        proof {
            use_type_invariant(&self);
        }
        let path = normalize_relative_path(relative_path)?;
        proof {
            lemma_normalize_accepts_declared_paths(relative_path@);
            lemma_with_entry_declared(self@.linksets, path@, rdf_xml@);
        }
        parse_linkset(path.as_str(), rdf_xml)?;
        proof {
            lemma_with_entry_parses(self@.linksets, path@, rdf_xml@);
        }
        let IcddArchiveBuilder { index_rdf, payloads, mut linksets, ontology_resources } = self;
        insert_unique(&mut linksets, path, rdf_xml, "linkset")?;
        Ok(IcddArchiveBuilder { index_rdf, payloads, linksets, ontology_resources })
    }

    /// Add an RDF/XML ontology resource below `Ontology resources/`; it must
    /// parse as RDF/XML (it need not describe a container).
    pub fn add_ontology_resource(self, relative_path: &str, rdf_xml: &[u8]) -> (r: Result<IcddArchiveBuilder, IcddError>)
        ensures
            spec_normalize_relative_path(relative_path@) matches Err(d) ==> r matches Err(e)
                && e.is_not_conformant(d),
            spec_normalize_relative_path(relative_path@) matches Ok(p) && folded_clash(
                file_keys(self@.ontology_resources),
                p,
            ) ==> r is Err,
            r matches Ok(b) ==> spec_normalize_relative_path(relative_path@) matches Ok(p)
                && !folded_clash(file_keys(self@.ontology_resources), p) && b@
                == with_ontology_resource(self@, p, rdf_xml@) && builder_ok(b@),
            match spec_normalize_relative_path(relative_path@) {
                Ok(p) => !folded_clash(file_keys(self@.ontology_resources), p) && parses_within_limit(rdf_xml@)
                    ==> (r matches Ok(b) && b@ == with_ontology_resource(self@, p, rdf_xml@)),
                Err(_) => true,
            },
            spec_normalize_relative_path(relative_path@) is Ok && !parses_within_limit(rdf_xml@) ==> (r matches Err(e) && graph_read_error(rdf_xml@, e)),
    {
        proof {
            use_type_invariant(&self);
        }
        let path = normalize_relative_path(relative_path)?;
        proof {
            lemma_normalize_accepts_declared_paths(relative_path@);
            lemma_with_entry_declared(self@.ontology_resources, path@, rdf_xml@);
        }
        RdfGraph::parse(rdf_xml)?;
        let IcddArchiveBuilder { index_rdf, payloads, linksets, mut ontology_resources } = self;
        insert_unique(&mut ontology_resources, path, rdf_xml, "ontology resource")?;
        Ok(IcddArchiveBuilder { index_rdf, payloads, linksets, ontology_resources })
    }

    /// Check the declared entries of the index against those of the builder
    /// (see [`spec_declared_entries_problem`]).
    pub fn check_declared_entries(&self, index: &ContainerIndex) -> (r: Result<(), IcddError>)
        ensures
            match spec_declared_entries_problem(self@, index.deep_view()) {
                None => r is Ok,
                Some(d) => r matches Err(e) && e.is_not_conformant(d),
            },
    {
        let ghost docs = index.documents.deep_view();
        let ghost pkeys = file_keys(self.payloads.deep_view());
        let ghost refs = index.linkset_files.deep_view();
        let ghost lkeys = file_keys(self.linksets.deep_view());
        let ghost problem = declared_entries_problem(docs, refs, pkeys, lkeys);
        assert(problem == spec_declared_entries_problem(self@, index.deep_view()));
        let mut declared: Vec<String> = Vec::new();
        let mut i: usize = 0;
        assert(docs.skip(0) =~= docs);
        assert(declared.deep_view() =~= declared_payload_names(docs.take(0)));
        while i < index.documents.len()
            invariant
                i <= index.documents.len(),
                docs == index.documents.deep_view(),
                pkeys == file_keys(self.payloads.deep_view()),
                problem == declared_entries_problem(docs, refs, pkeys, lkeys),
                problem == spec_declared_entries_problem(self@, index.deep_view()),
                first_payload_problem(docs, pkeys) == first_payload_problem(
                    docs.skip(i as int),
                    pkeys,
                ),
                declared.deep_view() == declared_payload_names(docs.take(i as int)),
            decreases index.documents.len() - i,
        {
            let document = &index.documents[i];
            assert(docs.skip(i as int)[0] == document.deep_view());
            assert(docs[i as int] == document.deep_view());
            assert(docs.skip(i as int).drop_first() =~= docs.skip(i + 1));
            assert(docs.take(i + 1).drop_last() =~= docs.take(i as int));
            if !document.requested {
                if let DocumentKind::Internal { filename } = &document.kind {
                    let f = normalize_relative_path(filename.as_str())?;
                    if !has_path(&self.payloads, f.as_str()) {
                        let detail = concat("Index.rdf declares missing payload document: ", f.as_str());
                        return Err(not_conformant(detail));
                    }
                    let ghost before = declared.deep_view();
                    declared.push(f);
                    assert(declared.deep_view() =~= before.push(filename@));
                }
            }
            i = i + 1;
        }
        assert(docs.take(i as int) =~= docs);
        assert(first_payload_problem(docs, pkeys) is None);
        let mut j: usize = 0;
        assert(pkeys.skip(0) =~= pkeys);
        while j < self.payloads.len()
            invariant
                j <= self.payloads.len(),
                pkeys == file_keys(self.payloads.deep_view()),
                problem == declared_entries_problem(docs, refs, pkeys, lkeys),
                problem == spec_declared_entries_problem(self@, index.deep_view()),
                first_payload_problem(docs, pkeys) is None,
                declared.deep_view() == declared_payload_names(docs),
                first_undeclared(pkeys, declared_payload_names(docs)) == first_undeclared(
                    pkeys.skip(j as int),
                    declared_payload_names(docs),
                ),
            decreases self.payloads.len() - j,
        {
            let path = &self.payloads[j].0;
            assert(pkeys.skip(j as int)[0] == path@);
            assert(pkeys.skip(j as int).drop_first() =~= pkeys.skip(j + 1));
            if !contains_id(&declared, path.as_str()) {
                assert(problem == Some("archive contains undeclared payload document: "@ + path@));
                let detail = concat("archive contains undeclared payload document: ", path.as_str());
                return Err(not_conformant(detail));
            }
            j = j + 1;
        }
        assert(first_undeclared(pkeys, declared_payload_names(docs)) is None);
        let mut declared_linksets: Vec<String> = Vec::new();
        let mut k: usize = 0;
        assert(refs.skip(0) =~= refs);
        assert(declared_linksets.deep_view() =~= declared_linkset_names(refs.take(0)));
        while k < index.linkset_files.len()
            invariant
                k <= index.linkset_files.len(),
                refs == index.linkset_files.deep_view(),
                lkeys == file_keys(self.linksets.deep_view()),
                problem == declared_entries_problem(docs, refs, pkeys, lkeys),
                problem == spec_declared_entries_problem(self@, index.deep_view()),
                first_payload_problem(docs, pkeys) is None,
                first_undeclared(pkeys, declared_payload_names(docs)) is None,
                first_linkset_problem(refs, lkeys) == first_linkset_problem(refs.skip(k as int), lkeys),
                declared_linksets.deep_view() == declared_linkset_names(refs.take(k as int)),
            decreases index.linkset_files.len() - k,
        {
            let linkset = &index.linkset_files[k];
            assert(refs.skip(k as int)[0] == linkset.deep_view());
            assert(refs[k as int] == linkset.deep_view());
            assert(refs.skip(k as int).drop_first() =~= refs.skip(k + 1));
            assert(refs.take(k + 1).drop_last() =~= refs.take(k as int));
            let raw = match &linkset.filename {
                Some(f) => f,
                None => {
                    assert(problem == Some("Index.rdf linkset "@ + linkset.id@ + " has no filename"@));
                    let head = concat("Index.rdf linkset ", linkset.id.as_str());
                    return Err(not_conformant(concat(head.as_str(), " has no filename")));
                },
            };
            let f = match normalize_relative_path(raw.as_str()) {
                Ok(f) => f,
                Err(e) => {
                    return Err(e);
                },
            };
            if !has_path(&self.linksets, f.as_str()) {
                assert(problem == Some("Index.rdf declares missing linkset: "@ + f@));
                return Err(not_conformant(concat("Index.rdf declares missing linkset: ", f.as_str())));
            }
            let ghost before = declared_linksets.deep_view();
            declared_linksets.push(f);
            assert(declared_linksets.deep_view() =~= before.push(raw@));
            k = k + 1;
        }
        assert(refs.take(k as int) =~= refs);
        assert(first_linkset_problem(refs, lkeys) is None);
        let mut m: usize = 0;
        assert(lkeys.skip(0) =~= lkeys);
        while m < self.linksets.len()
            invariant
                m <= self.linksets.len(),
                lkeys == file_keys(self.linksets.deep_view()),
                problem == declared_entries_problem(docs, refs, pkeys, lkeys),
                problem == spec_declared_entries_problem(self@, index.deep_view()),
                first_payload_problem(docs, pkeys) is None,
                first_undeclared(pkeys, declared_payload_names(docs)) is None,
                first_linkset_problem(refs, lkeys) is None,
                declared_linksets.deep_view() == declared_linkset_names(refs),
                first_undeclared(lkeys, declared_linkset_names(refs)) == first_undeclared(
                    lkeys.skip(m as int),
                    declared_linkset_names(refs),
                ),
            decreases self.linksets.len() - m,
        {
            let path = &self.linksets[m].0;
            assert(lkeys.skip(m as int)[0] == path@);
            assert(lkeys.skip(m as int).drop_first() =~= lkeys.skip(m + 1));
            if !contains_id(&declared_linksets, path.as_str()) {
                assert(problem == Some("archive contains undeclared linkset: "@ + path@));
                return Err(not_conformant(concat("archive contains undeclared linkset: ", path.as_str())));
            }
            m = m + 1;
        }
        assert(first_undeclared(lkeys, declared_linkset_names(refs)) is None);
        Ok(())
    }
}

/// The payload file names the documents declare: those of the internal
/// documents that are not merely requested, in document order.
pub open spec fn declared_payload_names(docs: Seq<DocumentView>) -> Seq<Seq<char>>
    decreases docs.len(),
{
    if docs.len() == 0 {
        Seq::<Seq<char>>::empty()
    } else if !docs.last().requested && docs.last().kind is Internal {
        declared_payload_names(docs.drop_last()).push(docs.last().kind->filename)
    } else {
        declared_payload_names(docs.drop_last())
    }
}

/// The linkset file names the references declare, in order.
pub open spec fn declared_linkset_names(refs: Seq<LinksetRefView>) -> Seq<Seq<char>>
    decreases refs.len(),
{
    if refs.len() == 0 {
        Seq::<Seq<char>>::empty()
    } else if let Some(f) = refs.last().filename {
        declared_linkset_names(refs.drop_last()).push(f)
    } else {
        declared_linkset_names(refs.drop_last())
    }
}

/// The first problem among the documents: a declared payload file name that
/// is not canonical, or that names no payload of the builder.
pub open spec fn first_payload_problem(docs: Seq<DocumentView>, keys: Seq<Seq<char>>) -> Option<Seq<char>>
    decreases docs.len(),
{
    if docs.len() == 0 {
        None
    } else if !docs[0].requested && docs[0].kind is Internal {
        match spec_normalize_relative_path(docs[0].kind->filename) {
            Err(d) => Some(d),
            Ok(p) => if !keys.contains(p) {
                Some("Index.rdf declares missing payload document: "@ + p)
            } else {
                first_payload_problem(docs.drop_first(), keys)
            },
        }
    } else {
        first_payload_problem(docs.drop_first(), keys)
    }
}

/// The first path that is not among `names`.
pub open spec fn first_undeclared(keys: Seq<Seq<char>>, names: Seq<Seq<char>>) -> Option<Seq<char>>
    decreases keys.len(),
{
    if keys.len() == 0 {
        None
    } else if !names.contains(keys[0]) {
        Some(keys[0])
    } else {
        first_undeclared(keys.drop_first(), names)
    }
}

/// The first problem among the linkset references: one without a file name,
/// with a file name that is not canonical, or naming no linkset of the builder.
pub open spec fn first_linkset_problem(refs: Seq<LinksetRefView>, keys: Seq<Seq<char>>) -> Option<Seq<char>>
    decreases refs.len(),
{
    if refs.len() == 0 {
        None
    } else {
        match refs[0].filename {
            None => Some("Index.rdf linkset "@ + refs[0].id + " has no filename"@),
            Some(raw) => match spec_normalize_relative_path(raw) {
                Err(d) => Some(d),
                Ok(p) => if !keys.contains(p) {
                    Some("Index.rdf declares missing linkset: "@ + p)
                } else {
                    first_linkset_problem(refs.drop_first(), keys)
                },
            },
        }
    }
}

/// Why payloads with paths `pkeys` and linksets with paths `lkeys` do not
/// match what documents `docs` and linkset references `refs` declare, if they
/// do not: the first problem among the documents, else the first undeclared
/// payload, else the first problem among the linkset references, else the
/// first undeclared linkset.
pub open spec fn declared_entries_problem(
    docs: Seq<DocumentView>,
    refs: Seq<LinksetRefView>,
    pkeys: Seq<Seq<char>>,
    lkeys: Seq<Seq<char>>,
) -> Option<Seq<char>> {
    if let Some(d) = first_payload_problem(docs, pkeys) {
        Some(d)
    } else if let Some(p) = first_undeclared(pkeys, declared_payload_names(docs)) {
        Some("archive contains undeclared payload document: "@ + p)
    } else if let Some(d) = first_linkset_problem(refs, lkeys) {
        Some(d)
    } else if let Some(p) = first_undeclared(lkeys, declared_linkset_names(refs)) {
        Some("archive contains undeclared linkset: "@ + p)
    } else {
        None
    }
}

/// Why the builder does not match the files its index declares, if it does
/// not (see [`declared_entries_problem`]).
pub open spec fn spec_declared_entries_problem(b: ArchiveBuilderView, index: IndexView) -> Option<Seq<char>> {
    declared_entries_problem(index.documents, index.linkset_files, file_keys(b.payloads), file_keys(b.linksets))
}

/// The entries of one archive folder: the directory, then each file below it.
pub open spec fn folder_entries(dir: Seq<char>, es: Seq<FileEntryView>) -> Seq<ZipEntryView> {
    seq![(dir + "/"@, true, false, DIRECTORY_PERMISSIONS, Seq::<u8>::empty(), written_time())] + es.map_values(
        |e: FileEntryView| (dir + "/"@ + e.0, false, true, FILE_PERMISSIONS, e.1, written_time()),
    )
}

/// The entries of the archive a builder writes, in order: `Index.rdf`, then
/// the ontology resources, the payload documents and the payload triples,
/// each folder in path order.
pub open spec fn spec_archive_entries(b: ArchiveBuilderView) -> Seq<ZipEntryView> {
    seq![(INDEX_PATH@, false, true, FILE_PERMISSIONS, b.index_rdf, written_time())] + folder_entries(
        ONTOLOGY_DIR@,
        b.ontology_resources,
    ) + folder_entries(PAYLOAD_DOCS_DIR@, b.payloads) + folder_entries(
        PAYLOAD_TRIPLES_DIR@,
        b.linksets,
    )
}

/// The index of the builder, under some reading of its blank nodes, parses
/// and declares exactly the builder's payloads and linksets.
pub open spec fn declared_entries_match(b: ArchiveBuilderView) -> bool {
    exists|ts: Seq<(Seq<char>, PairView)>|
        ts.len() <= MAX_RDF_TRIPLES && (spec_index(graph_of(ts)) matches Ok(iv)
            && spec_declared_entries_problem(b, iv) is None)
}

/// What checking the declared entries against the index read as graph `g`
/// gives: the index's error if it does not describe a container, else `Ok`
/// exactly when the declared entries are the builder's, and the mismatch
/// otherwise.
pub open spec fn declared_entries_verdict(b: ArchiveBuilderView, g: Seq<EntryView>, r: Result<(), IcddError>) -> bool {
    match spec_index(g) {
        Err(d) => r matches Err(e) && e.is_not_conformant(d),
        Ok(iv) => match spec_declared_entries_problem(b, iv) {
            None => r is Ok,
            Some(d) => r matches Err(e) && e.is_not_conformant(d),
        },
    }
}

/// Writes one file entry with its bytes.
fn write_file(sink: &mut ZipSink, name: &str, bytes: &[u8]) -> (r: Result<(), IcddError>)
    ensures
        r is Ok ==> sink_entries(*final(sink)) == sink_entries(*old(sink)).push(
            (name@, false, true, FILE_PERMISSIONS, bytes@, written_time()),
        ) && !sink_failed(*final(sink)),
        !sink_failed(*old(sink)) && !written_names(sink_entries(*old(sink))).contains(name@) && sink_fits(
            sink_entries(*old(sink)).push((name@, false, true, FILE_PERMISSIONS, bytes@, written_time())),
        ) ==> r is Ok,
{
    let ghost before = sink_entries(*sink);
    let ghost full = before.push((name@, false, true, FILE_PERMISSIONS, bytes@, written_time()));
    let ghost bare = before.push((name@, false, true, FILE_PERMISSIONS, Seq::<u8>::empty(), written_time()));
    proof {
        assert(bare.drop_last() =~= full.drop_last());
        assert forall|i: int| 0 <= i < bare.len() implies #[trigger] bare[i].0.len() == full[i].0.len() by {}
    }
    match sink_start_file(sink, name, EntryCompression::Deflated, FILE_PERMISSIONS, fixed_time()) {
        Ok(()) => {},
        Err(message) => {
            return Err(IcddError::Zip(message));
        },
    }
    let ghost started = sink_entries(*sink);
    proof {
        assert(Seq::<u8>::empty() + bytes@ =~= bytes@);
        assert(with_bytes_appended(bare, bytes@) =~= full);
    }
    match sink_write_all(sink, bytes) {
        Ok(()) => {},
        Err(message) => {
            return Err(IcddError::Io(message));
        },
    }
    assert(sink_entries(*sink) =~= full);
    Ok(())
}

/// Writes a folder: its directory entry, then each file below it in order.
fn write_directory(sink: &mut ZipSink, directory: &str, entries: &Vec<(String, Vec<u8>)>) -> (r: Result<(), IcddError>)
    ensures
        r is Ok ==> sink_entries(*final(sink)) == sink_entries(*old(sink)) + folder_entries(
            directory@,
            entries.deep_view(),
        ) && !sink_failed(*final(sink)),
        !sink_failed(*old(sink)) && distinct_names(
            sink_entries(*old(sink)) + folder_entries(directory@, entries.deep_view()),
        ) && sink_fits(sink_entries(*old(sink)) + folder_entries(directory@, entries.deep_view()))
            ==> r is Ok,
{
    let ghost start = sink_entries(*old(sink));
    let ghost ev = entries.deep_view();
    let ghost whole = start + folder_entries(directory@, ev);
    let ghost good = !sink_failed(*old(sink)) && distinct_names(whole) && sink_fits(whole);
    let dir = concat(directory, "/");
    proof {
        reveal_strlit("/");
        assert(dir@.subrange(dir@.len() - 1, dir@.len() as int) =~= seq!['/']);
        if good {
            lemma_next_entry_fits(whole, start.len() as int);
            assert(whole.take(start.len() as int) =~= start);
        }
    }
    match sink_add_directory(sink, dir.as_str(), DIRECTORY_PERMISSIONS, fixed_time()) {
        Ok(()) => {},
        Err(message) => {
            return Err(IcddError::Zip(message));
        },
    }
    let ghost mapped = ev.map_values(
        |e: FileEntryView| (directory@ + "/"@ + e.0, false, true, FILE_PERMISSIONS, e.1, written_time()),
    );
    let mut i: usize = 0;
    assert(mapped.take(0) =~= Seq::<ZipEntryView>::empty());
    assert(whole =~= start + seq![(dir@, true, false, DIRECTORY_PERMISSIONS, Seq::<u8>::empty(), written_time())] + mapped);
    while i < entries.len()
        invariant
            i <= entries.len(),
            ev == entries.deep_view(),
            dir@ == directory@ + "/"@,
            mapped == ev.map_values(
                |e: FileEntryView| (directory@ + "/"@ + e.0, false, true, FILE_PERMISSIONS, e.1, written_time()),
            ),
            whole == start + seq![(dir@, true, false, DIRECTORY_PERMISSIONS, Seq::<u8>::empty(), written_time())] + mapped,
            whole == start + folder_entries(directory@, ev),
            start == sink_entries(*old(sink)),
            sink_entries(*sink) == start + seq![(dir@, true, false, DIRECTORY_PERMISSIONS, Seq::<u8>::empty(), written_time())]
                + mapped.take(i as int),
            !sink_failed(*sink),
            good == (!sink_failed(*old(sink)) && distinct_names(whole) && sink_fits(whole)),
        decreases entries.len() - i,
    {
        let entry = &entries[i];
        let name = concat(dir.as_str(), entry.0.as_str());
        let ghost before = sink_entries(*sink);
        assert(entry.1@ =~= entry.1.deep_view());
        assert(mapped[i as int] == (name@, false, true, FILE_PERMISSIONS, entry.1@, written_time()));
        proof {
            let k = start.len() + 1 + i;
            assert(whole.take(k) =~= before);
            assert(whole[k] == mapped[i as int]);
            if good {
                lemma_next_entry_fits(whole, k);
                assert(!written_names(before).contains(name@));
                assert(sink_fits(before.push((name@, false, true, FILE_PERMISSIONS, entry.1@, written_time()))));
            }
        }
        write_file(sink, name.as_str(), entry.1.as_slice())?;
        assert(mapped.take(i + 1) =~= mapped.take(i as int).push(mapped[i as int]));
        i = i + 1;
    }
    assert(mapped.take(i as int) =~= mapped);
    assert(sink_entries(*sink) =~= start + folder_entries(directory@, ev));
    Ok(())
}

/// The archive a builder writes stays below the ZIP limits (see
/// [`sink_fits`]).
pub open spec fn archive_fits(b: ArchiveBuilderView) -> bool {
    sink_fits(spec_archive_entries(b))
}

/// What finishing gives where the index reads as graph `g`: the index's
/// error if it does not describe a container, else the mismatch of its
/// declared entries where there is one, else, for an archive that fits, its
/// bytes.
pub open spec fn finish_verdict(b: ArchiveBuilderView, g: Seq<EntryView>, r: Result<Vec<u8>, IcddError>) -> bool {
    match spec_index(g) {
        Err(d) => r matches Err(e) && e.is_not_conformant(d),
        Ok(iv) => match spec_declared_entries_problem(b, iv) {
            None => archive_fits(b) ==> (r matches Ok(bytes) && bytes@ == zip_archive_bytes(
                spec_archive_entries(b),
            )),
            Some(d) => r matches Err(e) && e.is_not_conformant(d),
        },
    }
}

impl IcddArchiveBuilder {
    /// Checks the files the index declares against the builder's files.
    fn validate_declared_entries(&self) -> (r: Result<(), IcddError>)
        ensures
            r is Ok ==> declared_entries_match(self@),
            r matches Err(e) ==> e is Rdf || e is NotConformant,
            parses_within_limit(self@.index_rdf) ==> exists|g: Seq<EntryView>|
                #[trigger] graph_read(self@.index_rdf, g) && declared_entries_verdict(self@, g, r),
            !parses_within_limit(self@.index_rdf) ==> (r matches Err(e) && graph_read_error(self@.index_rdf, e)),
    {
        let index = parse_index(self.index_rdf.as_slice())?;
        let checked = self.check_declared_entries(&index);
        checked
    }

    /// Validate the declared files and emit the deterministic ZIP bytes.
    pub fn finish(self) -> (r: Result<Vec<u8>, IcddError>)
        ensures
            r matches Ok(bytes) ==> bytes@ == zip_archive_bytes(spec_archive_entries(self@))
                && declared_entries_match(self@) && reads_written(bytes@, spec_archive_entries(self@)),
            builder_ok(self@) && documents_parse(self@),
            parses_within_limit(self@.index_rdf) ==> exists|g: Seq<EntryView>|
                #[trigger] graph_read(self@.index_rdf, g) && finish_verdict(self@, g, r),
            !parses_within_limit(self@.index_rdf) ==> (r matches Err(e) && graph_read_error(self@.index_rdf, e)),
    {
        proof {
            use_type_invariant(&self);
        }
        self.validate_declared_entries()?;
        self.write_archive()
    }

    /// Writes the archive's entries, in order, and returns its bytes.
    fn write_archive(&self) -> (r: Result<Vec<u8>, IcddError>)
        ensures
            r matches Ok(bytes) ==> bytes@ == zip_archive_bytes(spec_archive_entries(self@)) && reads_written(
                bytes@,
                spec_archive_entries(self@),
            ),
            archive_fits(self@) ==> r is Ok,
    {
        proof {
            use_type_invariant(self);
            lemma_archive_names_distinct(self@);
        }
        let ghost whole = spec_archive_entries(self@);
        let ghost fits = archive_fits(self@);
        let ghost head = seq![(INDEX_PATH@, false, true, FILE_PERMISSIONS, self@.index_rdf, written_time())];
        let ghost fo = folder_entries(ONTOLOGY_DIR@, self@.ontology_resources);
        let ghost fd = folder_entries(PAYLOAD_DOCS_DIR@, self@.payloads);
        let ghost ft = folder_entries(PAYLOAD_TRIPLES_DIR@, self@.linksets);
        assert(whole =~= head + fo + fd + ft);
        let mut sink = sink_new();
        proof {
            if fits {
                lemma_next_entry_fits(whole, 0);
                assert(whole.take(0) =~= Seq::<ZipEntryView>::empty());
                assert(Seq::<ZipEntryView>::empty().push(whole[0]) =~= head);
            }
        }
        write_file(&mut sink, INDEX_PATH, self.index_rdf.as_slice())?;
        proof {
            if fits {
                lemma_prefix_fits(whole, (head + fo).len() as int);
                assert(whole.take((head + fo).len() as int) =~= head + fo);
            }
        }
        write_directory(&mut sink, ONTOLOGY_DIR, &self.ontology_resources)?;
        proof {
            if fits {
                lemma_prefix_fits(whole, (head + fo + fd).len() as int);
                assert(whole.take((head + fo + fd).len() as int) =~= head + fo + fd);
            }
        }
        write_directory(&mut sink, PAYLOAD_DOCS_DIR, &self.payloads)?;
        write_directory(&mut sink, PAYLOAD_TRIPLES_DIR, &self.linksets)?;
        assert(sink_entries(sink) =~= whole);
        match sink_finish(sink) {
            Ok(bytes) => Ok(bytes),
            Err(message) => Err(IcddError::Zip(message)),
        }
    }
}

/// A prefix of entries with distinct names that fit has distinct names and
/// fits.
proof fn lemma_prefix_fits(es: Seq<ZipEntryView>, k: int)
    requires
        0 <= k <= es.len(),
        distinct_names(es),
        sink_fits(es),
    ensures
        distinct_names(es.take(k)),
        sink_fits(es.take(k)),
{
    lemma_weight_prefix(es, k);
    assert forall|i: int| 0 <= i < es.take(k).len() implies #[trigger] es.take(k)[i].0.len() <= 1024 by {
        assert(es.take(k)[i] == es[i]);
    }
    assert forall|i: int, j: int| 0 <= i < j < es.take(k).len() implies es.take(k)[i].0 != es.take(k)[j].0 by {
        assert(es.take(k)[i] == es[i] && es.take(k)[j] == es[j]);
    }
}

// ---------------------------------------------------------------------------
// Reading back what was written
/// The entries of a folder: the directory, then each file below it.
proof fn lemma_folder_entry(dir: Seq<char>, es: Seq<FileEntryView>, i: int)
    requires
        0 <= i <= es.len(),
    ensures
        folder_entries(dir, es).len() == es.len() + 1,
        folder_entries(dir, es)[i].0 == (if i == 0 {
            dir + "/"@
        } else {
            dir + "/"@ + es[i - 1].0
        }),
        folder_entries(dir, es)[i].1 == (i == 0),
        i > 0 ==> folder_entries(dir, es)[i].4 == es[i - 1].1,
{
}

/// Every entry name of a folder begins with the folder, and the names are
/// distinct.
proof fn lemma_folder_names(dir: Seq<char>, es: Seq<FileEntryView>)
    requires
        entries_ok(es),
        keys_declared(es),
    ensures
        forall|i: int|
            0 <= i < folder_entries(dir, es).len() ==> (#[trigger] folder_entries(dir, es)[i]).0.len()
                > dir.len() && folder_entries(dir, es)[i].0.subrange(0, dir.len() as int) == dir,
        forall|i: int, j: int|
            0 <= i < j < folder_entries(dir, es).len() ==> (#[trigger] folder_entries(dir, es)[i]).0
                != (#[trigger] folder_entries(dir, es)[j]).0,
{
    let f = folder_entries(dir, es);
    let d = dir + "/"@;
    reveal_strlit("/");
    assert forall|i: int| 0 <= i < f.len() implies (#[trigger] f[i]).0.len() > dir.len() && f[i].0.subrange(
        0,
        dir.len() as int,
    ) == dir by {
        lemma_folder_entry(dir, es, i);
        if i == 0 {
            assert(f[i].0.subrange(0, dir.len() as int) =~= dir);
        } else {
            assert(f[i].0.subrange(0, dir.len() as int) =~= dir);
        }
    }
    assert forall|i: int, j: int| 0 <= i < j < f.len() implies (#[trigger] f[i]).0 != (#[trigger] f[j]).0 by {
        lemma_folder_entry(dir, es, i);
        lemma_folder_entry(dir, es, j);
        assert(declared_path_ok(es[j - 1].0));
        if i == 0 {
            assert(f[j].0.len() > f[i].0.len());
        } else {
            let ki = es[i - 1].0;
            let kj = es[j - 1].0;
            assert(file_keys(es)[i - 1] == ki && file_keys(es)[j - 1] == kj);
            assert(seq_lt(ki, kj));
            if f[i].0 == f[j].0 {
                assert(ki =~= f[i].0.subrange(d.len() as int, f[i].0.len() as int));
                assert(kj =~= f[j].0.subrange(d.len() as int, f[j].0.len() as int));
                lemma_seq_lt_irreflexive(ki);
            }
        }
    }
}

/// The entries a builder writes have distinct names.
pub proof fn lemma_archive_names_distinct(b: ArchiveBuilderView)
    requires
        builder_ok(b),
    ensures
        distinct_names(spec_archive_entries(b)),
{
    let fo = folder_entries(ONTOLOGY_DIR@, b.ontology_resources);
    let fd = folder_entries(PAYLOAD_DOCS_DIR@, b.payloads);
    let ft = folder_entries(PAYLOAD_TRIPLES_DIR@, b.linksets);
    let head = seq![(INDEX_PATH@, false, true, FILE_PERMISSIONS, b.index_rdf, written_time())];
    let es = spec_archive_entries(b);
    lemma_folder_names(ONTOLOGY_DIR@, b.ontology_resources);
    lemma_folder_names(PAYLOAD_DOCS_DIR@, b.payloads);
    lemma_folder_names(PAYLOAD_TRIPLES_DIR@, b.linksets);
    lemma_folder_entry(ONTOLOGY_DIR@, b.ontology_resources, 0);
    lemma_folder_entry(PAYLOAD_DOCS_DIR@, b.payloads, 0);
    lemma_folder_entry(PAYLOAD_TRIPLES_DIR@, b.linksets, 0);
    reveal_strlit("Index.rdf");
    reveal_strlit("Ontology resources");
    reveal_strlit("Payload documents");
    reveal_strlit("Payload triples");
    let lo = fo.len() as int;
    let ld = fd.len() as int;
    assert(es =~= head + fo + fd + ft);
    // The group of an entry and its name.
    assert forall|i: int, j: int| 0 <= i < j < es.len() implies es[i].0 != es[j].0 by {
        let ni = es[i].0;
        let nj = es[j].0;
        if i == 0 {
            // `Index.rdf` begins with `I`; every folder name with `O` or `P`.
            if j < 1 + lo {
                assert(nj == fo[j - 1].0);
                assert(nj.subrange(0, ONTOLOGY_DIR@.len() as int) == ONTOLOGY_DIR@);
                assert(nj[0] == ONTOLOGY_DIR@[0]);
            } else if j < 1 + lo + ld {
                assert(nj == fd[j - 1 - lo].0);
                assert(nj.subrange(0, PAYLOAD_DOCS_DIR@.len() as int) == PAYLOAD_DOCS_DIR@);
                assert(nj[0] == PAYLOAD_DOCS_DIR@[0]);
            } else {
                assert(nj == ft[j - 1 - lo - ld].0);
                assert(nj.subrange(0, PAYLOAD_TRIPLES_DIR@.len() as int) == PAYLOAD_TRIPLES_DIR@);
                assert(nj[0] == PAYLOAD_TRIPLES_DIR@[0]);
            }
        } else if i < 1 + lo {
            assert(ni == fo[i - 1].0);
            assert(ni.subrange(0, ONTOLOGY_DIR@.len() as int) == ONTOLOGY_DIR@);
            assert(ni[0] == ONTOLOGY_DIR@[0]);
            if j < 1 + lo {
                assert(nj == fo[j - 1].0);
            } else if j < 1 + lo + ld {
                assert(nj == fd[j - 1 - lo].0);
                assert(nj.subrange(0, PAYLOAD_DOCS_DIR@.len() as int) == PAYLOAD_DOCS_DIR@);
                assert(nj[0] == PAYLOAD_DOCS_DIR@[0]);
            } else {
                assert(nj == ft[j - 1 - lo - ld].0);
                assert(nj.subrange(0, PAYLOAD_TRIPLES_DIR@.len() as int) == PAYLOAD_TRIPLES_DIR@);
                assert(nj[0] == PAYLOAD_TRIPLES_DIR@[0]);
            }
        } else if i < 1 + lo + ld {
            assert(ni == fd[i - 1 - lo].0);
            assert(ni.subrange(0, PAYLOAD_DOCS_DIR@.len() as int) == PAYLOAD_DOCS_DIR@);
            assert(ni[8] == PAYLOAD_DOCS_DIR@[8]);
            if j < 1 + lo + ld {
                assert(nj == fd[j - 1 - lo].0);
            } else {
                // `Payload documents` and `Payload triples` differ at position 8.
                assert(nj == ft[j - 1 - lo - ld].0);
                assert(nj.subrange(0, PAYLOAD_TRIPLES_DIR@.len() as int) == PAYLOAD_TRIPLES_DIR@);
                assert(nj[8] == PAYLOAD_TRIPLES_DIR@[8]);
            }
        } else {
            assert(ni == ft[i - 1 - lo - ld].0);
            assert(nj == ft[j - 1 - lo - ld].0);
        }
    }
}

/// Opaque payload bytes survive a write and a read: in an archive read back
/// from the bytes a builder's entries were written to, whose entry names
/// differ even ignoring ASCII case (as an opened container's do), each
/// payload's file name resolves to the payload's entry, which holds exactly
/// the payload's bytes. A payload path that itself begins with
/// `Payload documents/` (ignoring ASCII case) names another entry and is left
/// out.
pub proof fn lemma_payload_round_trip(b: ArchiveBuilderView, bytes: Seq<u8>, c: ContainerZipView, k: int)
    requires
        builder_ok(b),
        0 <= k < b.payloads.len(),
        bytes == zip_archive_bytes(spec_archive_entries(b)),
        reads_back(bytes, c.names, c.sizes, c.data),
        folded_unique(c.names),
        !has_folder_prefix(b.payloads[k].0, PAYLOAD_DOCS_DIR@ + "/"@),
    ensures
        spec_resolve(c.names, PAYLOAD_DOCS_DIR@, b.payloads[k].0) == Ok::<Seq<char>, Seq<char>>(
            PAYLOAD_DOCS_DIR@ + "/"@ + b.payloads[k].0,
        ),
        c.data[PAYLOAD_DOCS_DIR@ + "/"@ + b.payloads[k].0] == b.payloads[k].1,
{
    let es = spec_archive_entries(b);
    lemma_archive_names_distinct(b);
    assert(holds_entries(c.names, c.sizes, c.data, es));
    let fo = folder_entries(ONTOLOGY_DIR@, b.ontology_resources);
    let fd = folder_entries(PAYLOAD_DOCS_DIR@, b.payloads);
    let ft = folder_entries(PAYLOAD_TRIPLES_DIR@, b.linksets);
    let head = seq![(INDEX_PATH@, false, true, FILE_PERMISSIONS, b.index_rdf, written_time())];
    assert(es =~= head + fo + fd + ft);
    lemma_folder_entry(ONTOLOGY_DIR@, b.ontology_resources, 0);
    lemma_folder_entry(PAYLOAD_DOCS_DIR@, b.payloads, k + 1);
    let key = b.payloads[k].0;
    assert(declared_path_ok(key));
    lemma_no_backslash_normalized(key);
    let cand = PAYLOAD_DOCS_DIR@ + "/"@ + key;
    let w = 1 + fo.len() + k + 1;
    assert(es[w] == fd[k + 1]);
    assert(es[w].0 == cand);
    assert(!es[w].1);
    assert(c.names[w] == cand);
    assert(c.data[es[w].0] == es[w].4);
    assert(declared_path_ok(key));
    assert(candidate_path(PAYLOAD_DOCS_DIR@, key) == cand);
    assert(eq_ignore_ascii_case(c.names[w], cand));
    let found = choose|i: int| 0 <= i < c.names.len() && eq_ignore_ascii_case(c.names[i], cand);
    if found != w {
        assert(!eq_ignore_ascii_case(c.names[found], c.names[w]));
    }
    assert(matching_entry(c.names, cand) == Some(cand));
}

/// Linkset files survive a write and a read, as payloads do (see
/// [`lemma_payload_round_trip`]): each linkset's file name resolves below
/// `Payload triples/` to its entry, which holds exactly its bytes.
pub proof fn lemma_linkset_round_trip(b: ArchiveBuilderView, bytes: Seq<u8>, c: ContainerZipView, k: int)
    requires
        builder_ok(b),
        0 <= k < b.linksets.len(),
        bytes == zip_archive_bytes(spec_archive_entries(b)),
        reads_back(bytes, c.names, c.sizes, c.data),
        folded_unique(c.names),
        !has_folder_prefix(b.linksets[k].0, PAYLOAD_TRIPLES_DIR@ + "/"@),
    ensures
        spec_resolve(c.names, PAYLOAD_TRIPLES_DIR@, b.linksets[k].0) == Ok::<Seq<char>, Seq<char>>(
            PAYLOAD_TRIPLES_DIR@ + "/"@ + b.linksets[k].0,
        ),
        c.data[PAYLOAD_TRIPLES_DIR@ + "/"@ + b.linksets[k].0] == b.linksets[k].1,
{
    let es = spec_archive_entries(b);
    lemma_archive_names_distinct(b);
    assert(holds_entries(c.names, c.sizes, c.data, es));
    let fo = folder_entries(ONTOLOGY_DIR@, b.ontology_resources);
    let fd = folder_entries(PAYLOAD_DOCS_DIR@, b.payloads);
    let ft = folder_entries(PAYLOAD_TRIPLES_DIR@, b.linksets);
    let head = seq![(INDEX_PATH@, false, true, FILE_PERMISSIONS, b.index_rdf, written_time())];
    assert(es =~= head + fo + fd + ft);
    lemma_folder_entry(ONTOLOGY_DIR@, b.ontology_resources, 0);
    lemma_folder_entry(PAYLOAD_DOCS_DIR@, b.payloads, 0);
    lemma_folder_entry(PAYLOAD_TRIPLES_DIR@, b.linksets, k + 1);
    let key = b.linksets[k].0;
    assert(declared_path_ok(key));
    lemma_no_backslash_normalized(key);
    let cand = PAYLOAD_TRIPLES_DIR@ + "/"@ + key;
    let w = 1 + fo.len() + fd.len() + k + 1;
    assert(es[w] == ft[k + 1]);
    assert(es[w].0 == cand);
    assert(!es[w].1);
    assert(c.names[w] == cand);
    assert(c.data[es[w].0] == es[w].4);
    assert(declared_path_ok(key));
    assert(candidate_path(PAYLOAD_TRIPLES_DIR@, key) == cand);
    assert(eq_ignore_ascii_case(c.names[w], cand));
    let found = choose|i: int| 0 <= i < c.names.len() && eq_ignore_ascii_case(c.names[i], cand);
    if found != w {
        assert(!eq_ignore_ascii_case(c.names[found], c.names[w]));
    }
    assert(matching_entry(c.names, cand) == Some(cand));
}

/// When the first name is a root index and every other name holds a `/`,
/// the first name is the only root index.
proof fn lemma_first_root_index(names: Seq<Seq<char>>)
    requires
        names.len() >= 1,
        is_root_index(names[0]),
        forall|i: int| 1 <= i < names.len() ==> seq_contains(#[trigger] names[i], seq!['/']),
    ensures
        root_indexes(names) == seq![names[0]],
    decreases names.len(),
{
    if names.len() == 1 {
        assert(names.drop_last() =~= Seq::<Seq<char>>::empty());
        assert(root_indexes(names.drop_last()) =~= Seq::<Seq<char>>::empty());
        assert(root_indexes(names) =~= seq![names[0]]);
    } else {
        lemma_first_root_index(names.drop_last());
        assert(names.drop_last()[0] == names[0]);
        assert(seq_contains(names[names.len() - 1], seq!['/']));
        assert(!is_root_index(names.last()));
        assert(root_indexes(names) == root_indexes(names.drop_last()));
    }
}

/// The index survives a write and a read: in an archive read back from the
/// bytes a builder's entries were written to, the one root-level index entry
/// is `Index.rdf`, and it holds exactly the builder's index bytes.
pub proof fn lemma_index_round_trip(b: ArchiveBuilderView, bytes: Seq<u8>, c: ContainerZipView)
    requires
        builder_ok(b),
        bytes == zip_archive_bytes(spec_archive_entries(b)),
        reads_back(bytes, c.names, c.sizes, c.data),
        root_indexes(c.names) == seq![c.index_path],
    ensures
        c.index_path == INDEX_PATH@,
        c.data[c.index_path] == b.index_rdf,
{
    let es = spec_archive_entries(b);
    lemma_archive_names_distinct(b);
    assert(holds_entries(c.names, c.sizes, c.data, es));
    let fo = folder_entries(ONTOLOGY_DIR@, b.ontology_resources);
    let fd = folder_entries(PAYLOAD_DOCS_DIR@, b.payloads);
    let ft = folder_entries(PAYLOAD_TRIPLES_DIR@, b.linksets);
    let head = seq![(INDEX_PATH@, false, true, FILE_PERMISSIONS, b.index_rdf, written_time())];
    assert(es =~= head + fo + fd + ft);
    reveal_strlit("Index.rdf");
    reveal_strlit("index.rdf");
    reveal_strlit("Ontology resources");
    reveal_strlit("Payload documents");
    reveal_strlit("Payload triples");
    reveal_strlit("/");
    let index = INDEX_PATH@;
    assert(c.names[0] == index);
    assert(!seq_contains(index, seq!['/'])) by {
        if seq_contains(index, seq!['/']) {
            let i = choose|i: int| occurs_at(index, seq!['/'], i);
            assert(index.subrange(i, i + 1)[0] == index[i]);
        }
    }
    assert(eq_ignore_ascii_case(index, "index.rdf"@)) by {
        assert(crate::text::seq_ascii_lower(index) =~= crate::text::seq_ascii_lower("index.rdf"@));
    }
    let lo = fo.len() as int;
    let ld = fd.len() as int;
    assert forall|i: int| 1 <= i < c.names.len() implies seq_contains(#[trigger] c.names[i], seq!['/']) by {
        let (dir, f, j) = if i < 1 + lo {
            (ONTOLOGY_DIR@, b.ontology_resources, i - 1)
        } else if i < 1 + lo + ld {
            (PAYLOAD_DOCS_DIR@, b.payloads, i - 1 - lo)
        } else {
            (PAYLOAD_TRIPLES_DIR@, b.linksets, i - 1 - lo - ld)
        };
        lemma_folder_entry(dir, f, j);
        assert(c.names[i] == folder_entries(dir, f)[j].0);
        let name = c.names[i];
        assert(name.subrange(dir.len() as int, dir.len() + 1int) =~= seq!['/']);
        assert(occurs_at(name, seq!['/'], dir.len() as int));
    }
    lemma_first_root_index(c.names);
    assert(seq![c.index_path][0] == c.index_path);
    assert(seq![c.names[0]][0] == c.names[0]);
    assert(c.index_path == c.names[0]);
    assert(!es[0].1);
}

// ---------------------------------------------------------------------------
// Insertion order
/// `lower_bound` counts at least the leading keys that come before `s`.
proof fn lemma_lower_bound_prefix(keys: Seq<Seq<char>>, s: Seq<char>, i: int)
    requires
        0 <= i <= keys.len(),
        forall|j: int| 0 <= j < i ==> seq_lt(#[trigger] keys[j], s),
    ensures
        lower_bound(keys, s) >= i,
    decreases keys.len(),
{
    lemma_lower_bound(keys, s);
    if i > 0 {
        let rest = keys.drop_first();
        assert forall|j: int| 0 <= j < i - 1 implies seq_lt(#[trigger] rest[j], s) by {
            assert(rest[j] == keys[j + 1]);
        }
        lemma_lower_bound_prefix(rest, s, i - 1);
        assert(seq_lt(keys[0], s));
    }
}

/// `lower_bound` is the position after the leading keys that come before
/// `s`, where the next key does not.
proof fn lemma_lower_bound_is(keys: Seq<Seq<char>>, s: Seq<char>, i: int)
    requires
        0 <= i <= keys.len(),
        forall|j: int| 0 <= j < i ==> seq_lt(#[trigger] keys[j], s),
        i < keys.len() ==> !seq_lt(keys[i], s),
    ensures
        lower_bound(keys, s) == i,
    decreases keys.len(),
{
    if i > 0 {
        let rest = keys.drop_first();
        assert forall|j: int| 0 <= j < i - 1 implies seq_lt(#[trigger] rest[j], s) by {
            assert(rest[j] == keys[j + 1]);
        }
        if i < keys.len() {
            assert(rest[i - 1] == keys[i]);
        }
        lemma_lower_bound_is(rest, s, i - 1);
        assert(seq_lt(keys[0], s));
    }
}

/// Adding `p` then `q`, with `p` before `q`, gives the entries of adding them
/// the other way round.
proof fn lemma_with_entry_commutes_ordered(es: Seq<FileEntryView>, p: Seq<char>, a: Seq<u8>, q: Seq<char>, b: Seq<u8>)
    requires
        seq_lt(p, q),
    ensures
        with_entry(with_entry(es, p, a), q, b) == with_entry(with_entry(es, q, b), p, a),
{
    let keys = file_keys(es);
    let kp = lower_bound(keys, p);
    let kq = lower_bound(keys, q);
    lemma_lower_bound(keys, p);
    lemma_lower_bound(keys, q);
    assert forall|j: int| 0 <= j < kp implies seq_lt(#[trigger] keys[j], q) by {
        lemma_seq_lt_transitive(keys[j], p, q);
    }
    lemma_lower_bound_prefix(keys, q, kp);
    let e1 = with_entry(es, p, a);
    let k1 = file_keys(e1);
    assert(e1 == es.insert(kp, (p, a)));
    assert(k1 =~= keys.insert(kp, p));
    assert forall|j: int| 0 <= j < kq + 1 implies seq_lt(#[trigger] k1[j], q) by {
        if j > kp {
            assert(k1[j] == keys[j - 1]);
        }
    }
    if kq < keys.len() {
        assert(k1[kq + 1] == keys[kq]);
    }
    lemma_lower_bound_is(k1, q, kq + 1);
    let e2 = with_entry(es, q, b);
    let k2 = file_keys(e2);
    assert(e2 == es.insert(kq, (q, b)));
    assert(k2 =~= keys.insert(kq, q));
    assert forall|j: int| 0 <= j < kp implies seq_lt(#[trigger] k2[j], p) by {
        assert(k2[j] == keys[j]);
    }
    if kp < kq {
        assert(k2[kp] == keys[kp]);
    } else {
        assert(k2[kp] == q);
        lemma_seq_lt_asymmetric(p, q);
    }
    lemma_lower_bound_is(k2, p, kp);
    let r1 = es.insert(kp, (p, a)).insert(kq + 1, (q, b));
    let r2 = es.insert(kq, (q, b)).insert(kp, (p, a));
    assert(r1 =~= r2);
}

/// The order in which two entries with different paths are added does not
/// matter: either way gives the same entries.
pub proof fn lemma_with_entry_commutes(es: Seq<FileEntryView>, p: Seq<char>, a: Seq<u8>, q: Seq<char>, b: Seq<u8>)
    requires
        p != q,
    ensures
        with_entry(with_entry(es, p, a), q, b) == with_entry(with_entry(es, q, b), p, a),
{
    lemma_seq_lt_total(p, q);
    if seq_lt(p, q) {
        lemma_with_entry_commutes_ordered(es, p, a, q, b);
    } else {
        lemma_with_entry_commutes_ordered(es, q, b, p, a);
    }
}

/// Archive construction does not depend on the order in which payloads are
/// added: two payloads with different paths give the same builder, and so
/// the same archive bytes, whichever is added first.
pub proof fn lemma_payload_order_irrelevant(v: ArchiveBuilderView, p: Seq<char>, a: Seq<u8>, q: Seq<char>, b: Seq<u8>)
    requires
        p != q,
    ensures
        with_payload(with_payload(v, p, a), q, b) == with_payload(with_payload(v, q, b), p, a),
        spec_archive_entries(with_payload(with_payload(v, p, a), q, b)) == spec_archive_entries(
            with_payload(with_payload(v, q, b), p, a),
        ),
{
    lemma_with_entry_commutes(v.payloads, p, a, q, b);
}

/// One call that adds a file to a builder: a payload document, a linkset or
/// an ontology resource, with its path and bytes.
pub enum AddCall {
    Payload(Seq<char>, Seq<u8>),
    Linkset(Seq<char>, Seq<u8>),
    OntologyResource(Seq<char>, Seq<u8>),
}

/// The builder after a successful add call.
pub open spec fn after_add(v: ArchiveBuilderView, call: AddCall) -> ArchiveBuilderView {
    match call {
        AddCall::Payload(p, b) => with_payload(v, p, b),
        AddCall::Linkset(p, b) => with_linkset(v, p, b),
        AddCall::OntologyResource(p, b) => with_ontology_resource(v, p, b),
    }
}

/// Two add calls name the same file: the same kind of file at the same path.
pub open spec fn same_file(c1: AddCall, c2: AddCall) -> bool {
    match (c1, c2) {
        (AddCall::Payload(p, _), AddCall::Payload(q, _)) => p == q,
        (AddCall::Linkset(p, _), AddCall::Linkset(q, _)) => p == q,
        (AddCall::OntologyResource(p, _), AddCall::OntologyResource(q, _)) => p == q,
        _ => false,
    }
}

/// Archive construction does not depend on the order of the add calls: two
/// calls that add different files (of different kinds, or of one kind at
/// different paths) give the same builder, and so the same archive bytes,
/// whichever is made first.
pub proof fn lemma_add_order_irrelevant(v: ArchiveBuilderView, c1: AddCall, c2: AddCall)
    requires
        !same_file(c1, c2),
    ensures
        after_add(after_add(v, c1), c2) == after_add(after_add(v, c2), c1),
        spec_archive_entries(after_add(after_add(v, c1), c2)) == spec_archive_entries(
            after_add(after_add(v, c2), c1),
        ),
{
    match (c1, c2) {
        (AddCall::Payload(p, a), AddCall::Payload(q, b)) => {
            lemma_with_entry_commutes(v.payloads, p, a, q, b);
        },
        (AddCall::Linkset(p, a), AddCall::Linkset(q, b)) => {
            lemma_with_entry_commutes(v.linksets, p, a, q, b);
        },
        (AddCall::OntologyResource(p, a), AddCall::OntologyResource(q, b)) => {
            lemma_with_entry_commutes(v.ontology_resources, p, a, q, b);
        },
        _ => {},
    }
}

} // verus!
