//! The entry names of a built archive are names the reader accepts.

use vstd::prelude::*;

use crate::container::{
    candidate_path, entry_readable, has_folder_prefix, holds_entries, matching_entry, reads_written, slashes_normalized,
    spec_resolve, zip_reading, canonical_shape, cur_dir, declared_path_ok, entry_path, first_folded_from, first_name_refusal, folded_unique,
    is_root_index, names_ok, names_refusal, only_normal_components, parent_dir, root_indexes, written_names,
    MAX_ARCHIVE_ENTRIES, ONTOLOGY_DIR, PAYLOAD_DOCS_DIR, PAYLOAD_TRIPLES_DIR,
};
use crate::text::{
    ascii_lower, eq_ignore_ascii_case, lemma_split_on_append_plain, lemma_split_on_nonempty, occurs_at,
    seq_ascii_lower, seq_contains, seq_ends_with, seq_starts_with, split_on,
};
use crate::read::{index_opens, internal_names_ok, linkset_candidates, linksets_parse, opens_successfully};
use crate::rdfgraph::{graph_read, parses_within_limit, EntryView};
use crate::index::spec_index;
use crate::container::MAX_INDEX_RDF_BYTES;
use crate::writer::{
    documents_parse, builder_ok, file_keys, folder_entries, no_folded_twins, spec_archive_entries, written_time, ArchiveBuilderView,
    FileEntryView, ZipEntryView, DIRECTORY_PERMISSIONS, FILE_PERMISSIONS,
};
use crate::INDEX_PATH;

verus! {

/// A single path component without separators: not empty, no `/` or `\\`,
/// and neither `.` nor `..`.
pub open spec fn plain_component(s: Seq<char>) -> bool {
    &&& s.len() > 0
    &&& forall|i: int| 0 <= i < s.len() ==> #[trigger] s[i] != '/' && s[i] != '\\'
    &&& s != cur_dir()
    &&& s != parent_dir()
}

/// A character sequence without `c` does not contain the one-character
/// sequence of `c`.
proof fn lemma_no_char(s: Seq<char>, c: char)
    requires
        forall|i: int| 0 <= i < s.len() ==> #[trigger] s[i] != c,
    ensures
        !seq_contains(s, seq![c]),
{
    if seq_contains(s, seq![c]) {
        let i = choose|i: int| occurs_at(s, seq![c], i);
        assert(s.subrange(i, i + 1)[0] == s[i]);
    }
}

/// Splitting `dir/key` at `/`, for a component `dir`, gives `dir` and then
/// the pieces of `key`.
pub proof fn lemma_split_prefixed(dir: Seq<char>, key: Seq<char>)
    requires
        forall|i: int| 0 <= i < dir.len() ==> #[trigger] dir[i] != '/',
    ensures
        split_on(dir + seq!['/'] + key, '/') == seq![dir] + split_on(key, '/'),
    decreases key.len(),
{
    let e = Seq::<char>::empty();
    lemma_split_on_append_plain(e, dir, '/');
    assert(e + dir =~= dir);
    assert(split_on(e, '/') =~= seq![e]);
    assert(split_on(dir, '/') =~= seq![dir]);
    let head = dir + seq!['/'];
    assert(head.drop_last() =~= dir);
    assert(split_on(head, '/') =~= seq![dir, e]);
    if key.len() == 0 {
        assert(head + key =~= head);
        assert(split_on(key, '/') =~= seq![e]);
        assert(seq![dir] + seq![e] =~= seq![dir, e]);
    } else {
        let kd = key.drop_last();
        lemma_split_prefixed(dir, kd);
        lemma_split_on_nonempty(kd, '/');
        let x = head + key;
        assert(x.drop_last() =~= head + kd);
        assert(x.last() == key.last());
        let sk = split_on(kd, '/');
        if key.last() == '/' {
            assert(split_on(key, '/') =~= sk.push(e));
            assert(split_on(x, '/') =~= (seq![dir] + sk).push(e));
            assert((seq![dir] + sk).push(e) =~= seq![dir] + sk.push(e));
        } else {
            assert(split_on(key, '/') =~= sk.update(sk.len() - 1, sk.last().push(key.last())));
            let whole = seq![dir] + sk;
            assert(split_on(x, '/') =~= whole.update(whole.len() - 1, whole.last().push(key.last())));
            assert(whole.update(whole.len() - 1, whole.last().push(key.last())) =~= seq![dir] + sk.update(
                sk.len() - 1,
                sk.last().push(key.last()),
            ));
        }
    }
}

/// A plain component is itself an accepted path.
pub proof fn lemma_component_declared(dir: Seq<char>)
    requires
        plain_component(dir),
    ensures
        declared_path_ok(dir),
        !seq_contains(dir, seq!['/']),
{
    lemma_no_char(dir, '/');
    lemma_no_char(dir, '\\');
    if seq_contains(dir, seq!['/', '/']) {
        let i = choose|i: int| occurs_at(dir, seq!['/', '/'], i);
        assert(dir.subrange(i, i + 2)[0] == dir[i]);
    }
    if seq_starts_with(dir, seq!['/']) {
        assert(dir.subrange(0, 1)[0] == dir[0]);
    }
    if seq_ends_with(dir, seq!['/']) {
        assert(dir.subrange(dir.len() - 1, dir.len() as int)[0] == dir[dir.len() - 1]);
    }
    let e = Seq::<char>::empty();
    lemma_split_on_append_plain(e, dir, '/');
    assert(e + dir =~= dir);
    assert(split_on(e, '/') =~= seq![e]);
    assert(split_on(dir, '/') =~= seq![dir]);
    assert(canonical_shape(dir));
    assert(only_normal_components(dir));
}

/// An accepted path below a plain component is an accepted path.
pub proof fn lemma_prefixed_declared(dir: Seq<char>, key: Seq<char>)
    requires
        plain_component(dir),
        declared_path_ok(key),
    ensures
        declared_path_ok(dir + seq!['/'] + key),
        entry_path(dir + seq!['/'] + key) == dir + seq!['/'] + key,
{
    let x = dir + seq!['/'] + key;
    let n = dir.len() as int;
    assert(key.len() > 0);
    assert(x.len() == n + 1 + key.len());
    assert(forall|i: int| 0 <= i < n ==> x[i] == dir[i]);
    assert(x[n] == '/');
    assert(forall|i: int| 0 <= i < key.len() ==> x[n + 1 + i] == key[i]);
    // No backslash.
    if seq_contains(x, seq!['\\']) {
        let i = choose|i: int| occurs_at(x, seq!['\\'], i);
        assert(x.subrange(i, i + 1)[0] == x[i]);
        assert(i > n);
        assert(key.subrange(i - n - 1, i - n) =~= seq!['\\']);
        assert(occurs_at(key, seq!['\\'], i - n - 1));
    }
    // No leading slash.
    if seq_starts_with(x, seq!['/']) {
        assert(x.subrange(0, 1)[0] == x[0]);
    }
    // No trailing slash.
    if seq_ends_with(x, seq!['/']) {
        assert(x.subrange(x.len() - 1, x.len() as int)[0] == x[x.len() - 1]);
        assert(key.subrange(key.len() - 1, key.len() as int) =~= seq!['/']);
    }
    assert(!seq_ends_with(x, seq!['/']));
    // No doubled slash.
    if seq_contains(x, seq!['/', '/']) {
        let i = choose|i: int| occurs_at(x, seq!['/', '/'], i);
        assert(x.subrange(i, i + 2)[0] == x[i]);
        assert(x.subrange(i, i + 2)[1] == x[i + 1]);
        if i < n {
            assert(x[i] == dir[i]);
        } else if i == n {
            assert(key.subrange(0, 1) =~= seq!['/']);
        } else {
            assert(key.subrange(i - n - 1, i - n + 1) =~= seq!['/', '/']);
            assert(occurs_at(key, seq!['/', '/'], i - n - 1));
        }
    }
    assert(canonical_shape(x));
    // The components: `dir`, then those of `key`.
    lemma_split_prefixed(dir, key);
    let segs = split_on(x, '/');
    let ks = split_on(key, '/');
    assert forall|i: int| 0 <= i < segs.len() implies segs[i] != parent_dir() by {
        if i > 0 {
            assert(segs[i] == ks[i - 1]);
        }
    }
    assert(only_normal_components(x));
}

/// The folders of the archive and `Index.rdf` are plain components.
proof fn lemma_fixed_names_plain()
    ensures
        plain_component(ONTOLOGY_DIR@),
        plain_component(PAYLOAD_DOCS_DIR@),
        plain_component(PAYLOAD_TRIPLES_DIR@),
        plain_component(INDEX_PATH@),
        is_root_index(INDEX_PATH@),
{
    reveal_strlit("Index.rdf");
    reveal_strlit("index.rdf");
    reveal_strlit("Ontology resources");
    reveal_strlit("Payload documents");
    reveal_strlit("Payload triples");
    let o = ONTOLOGY_DIR@;
    assert(o =~= seq!['O', 'n', 't', 'o', 'l', 'o', 'g', 'y', ' ', 'r', 'e', 's', 'o', 'u', 'r', 'c', 'e', 's']);
    assert forall|i: int| 0 <= i < o.len() implies #[trigger] o[i] != '/' && o[i] != '\\' by {}
    assert(o != cur_dir() && o != parent_dir()) by {
        assert(o.len() != cur_dir().len() && o.len() != parent_dir().len());
    }
    let t = PAYLOAD_TRIPLES_DIR@;
    assert(t =~= seq!['P', 'a', 'y', 'l', 'o', 'a', 'd', ' ', 't', 'r', 'i', 'p', 'l', 'e', 's']);
    assert forall|i: int| 0 <= i < t.len() implies #[trigger] t[i] != '/' && t[i] != '\\' by {}
    assert(t != cur_dir() && t != parent_dir()) by {
        assert(t.len() != cur_dir().len() && t.len() != parent_dir().len());
    }
    lemma_component_declared(INDEX_PATH@);
    assert(seq_ascii_lower(INDEX_PATH@) =~= "index.rdf"@);
    assert(seq_ascii_lower("index.rdf"@) =~= "index.rdf"@);
}

/// The names of a folder's entries, lowered, begin with the folder lowered
/// and a `/`; a file's name holds its key after that, and is longer than the
/// directory's.
proof fn lemma_folder_lower(dir: Seq<char>, es: Seq<FileEntryView>, i: int)
    requires
        0 <= i < folder_entries(dir, es).len(),
    ensures
        folder_entries(dir, es).len() == es.len() + 1,
        ({
            let n = folder_entries(dir, es)[i].0;
            &&& n.len() >= dir.len() + 1
            &&& forall|t: int| 0 <= t < dir.len() ==> #[trigger] seq_ascii_lower(n)[t] == ascii_lower(dir[t])
            &&& n[dir.len() as int] == '/'
            &&& i == 0 ==> n == dir + seq!['/']
            &&& i > 0 ==> n == dir + seq!['/'] + es[i - 1].0
        }),
{
    reveal_strlit("/");
    assert("/"@ =~= seq!['/']);
}

/// Names that differ, lowered, at a position both have differ ignoring
/// ASCII case.
proof fn lemma_lower_differs(a: Seq<char>, b: Seq<char>, t: int)
    requires
        0 <= t < a.len(),
        t < b.len(),
        seq_ascii_lower(a)[t] != seq_ascii_lower(b)[t],
    ensures
        !eq_ignore_ascii_case(a, b),
{
}

/// A built archive's entry names are pairwise different ignoring ASCII case.
proof fn lemma_built_names_folded_unique(b: ArchiveBuilderView)
    requires
        builder_ok(b),
    ensures
        folded_unique(written_names(spec_archive_entries(b))),
{
    let es = spec_archive_entries(b);
    let names = written_names(es);
    let fo = folder_entries(ONTOLOGY_DIR@, b.ontology_resources);
    let fd = folder_entries(PAYLOAD_DOCS_DIR@, b.payloads);
    let ft = folder_entries(PAYLOAD_TRIPLES_DIR@, b.linksets);
    let head = seq![(INDEX_PATH@, false, true, FILE_PERMISSIONS, b.index_rdf, written_time())];
    assert(es =~= head + fo + fd + ft);
    reveal_strlit("Index.rdf");
    reveal_strlit("Ontology resources");
    reveal_strlit("Payload documents");
    reveal_strlit("Payload triples");
    let lo = fo.len() as int;
    let ld = fd.len() as int;
    lemma_folder_lower(ONTOLOGY_DIR@, b.ontology_resources, 0);
    lemma_folder_lower(PAYLOAD_DOCS_DIR@, b.payloads, 0);
    lemma_folder_lower(PAYLOAD_TRIPLES_DIR@, b.linksets, 0);
    // The group of position `i`: 0 for the index, then one per folder.
    assert forall|i: int, j: int|
        0 <= i < names.len() && 0 <= j < names.len() && i != j implies !eq_ignore_ascii_case(names[i], names[j]) by {
        let (x, y) = if i < j { (i, j) } else { (j, i) };
        let nx = es[x].0;
        let ny = es[y].0;
        assert(names[x] == nx && names[y] == ny);
        if x == 0 {
            assert(nx == INDEX_PATH@);
            if y < 1 + lo {
                lemma_folder_lower(ONTOLOGY_DIR@, b.ontology_resources, y - 1);
                assert(ny == fo[y - 1].0);
                lemma_lower_differs(nx, ny, 0);
            } else if y < 1 + lo + ld {
                lemma_folder_lower(PAYLOAD_DOCS_DIR@, b.payloads, y - 1 - lo);
                assert(ny == fd[y - 1 - lo].0);
                lemma_lower_differs(nx, ny, 0);
            } else {
                lemma_folder_lower(PAYLOAD_TRIPLES_DIR@, b.linksets, y - 1 - lo - ld);
                assert(ny == ft[y - 1 - lo - ld].0);
                lemma_lower_differs(nx, ny, 0);
            }
        } else if x < 1 + lo {
            lemma_folder_lower(ONTOLOGY_DIR@, b.ontology_resources, x - 1);
            assert(nx == fo[x - 1].0);
            if y < 1 + lo {
                lemma_folder_lower(ONTOLOGY_DIR@, b.ontology_resources, y - 1);
                assert(ny == fo[y - 1].0);
                lemma_same_folder_differ(ONTOLOGY_DIR@, b.ontology_resources, x - 1, y - 1);
            } else if y < 1 + lo + ld {
                lemma_folder_lower(PAYLOAD_DOCS_DIR@, b.payloads, y - 1 - lo);
                assert(ny == fd[y - 1 - lo].0);
                lemma_lower_differs(nx, ny, 0);
            } else {
                lemma_folder_lower(PAYLOAD_TRIPLES_DIR@, b.linksets, y - 1 - lo - ld);
                assert(ny == ft[y - 1 - lo - ld].0);
                lemma_lower_differs(nx, ny, 0);
            }
        } else if x < 1 + lo + ld {
            lemma_folder_lower(PAYLOAD_DOCS_DIR@, b.payloads, x - 1 - lo);
            assert(nx == fd[x - 1 - lo].0);
            if y < 1 + lo + ld {
                lemma_folder_lower(PAYLOAD_DOCS_DIR@, b.payloads, y - 1 - lo);
                assert(ny == fd[y - 1 - lo].0);
                lemma_same_folder_differ(PAYLOAD_DOCS_DIR@, b.payloads, x - 1 - lo, y - 1 - lo);
            } else {
                lemma_folder_lower(PAYLOAD_TRIPLES_DIR@, b.linksets, y - 1 - lo - ld);
                assert(ny == ft[y - 1 - lo - ld].0);
                lemma_lower_differs(nx, ny, 8);
            }
        } else {
            lemma_folder_lower(PAYLOAD_TRIPLES_DIR@, b.linksets, x - 1 - lo - ld);
            lemma_folder_lower(PAYLOAD_TRIPLES_DIR@, b.linksets, y - 1 - lo - ld);
            assert(nx == ft[x - 1 - lo - ld].0);
            assert(ny == ft[y - 1 - lo - ld].0);
            lemma_same_folder_differ(PAYLOAD_TRIPLES_DIR@, b.linksets, x - 1 - lo - ld, y - 1 - lo - ld);
        }
        if eq_ignore_ascii_case(names[i], names[j]) {
            assert(eq_ignore_ascii_case(nx, ny));
        }
    }
}

/// Two different entries of one folder differ ignoring ASCII case.
proof fn lemma_same_folder_differ(dir: Seq<char>, es: Seq<FileEntryView>, x: int, y: int)
    requires
        0 <= x < y < folder_entries(dir, es).len(),
        no_folded_twins(file_keys(es)),
        forall|k: int| 0 <= k < es.len() ==> (#[trigger] es[k]).0.len() > 0,
    ensures
        !eq_ignore_ascii_case(folder_entries(dir, es)[x].0, folder_entries(dir, es)[y].0),
{
    lemma_folder_lower(dir, es, x);
    lemma_folder_lower(dir, es, y);
    let nx = folder_entries(dir, es)[x].0;
    let ny = folder_entries(dir, es)[y].0;
    let d = (dir + seq!['/']).len() as int;
    if eq_ignore_ascii_case(nx, ny) {
        assert(es[y - 1].0.len() > 0);
        if x == 0 {
            assert(seq_ascii_lower(nx).len() != seq_ascii_lower(ny).len());
        } else {
            let kx = es[x - 1].0;
            let ky = es[y - 1].0;
            assert(seq_ascii_lower(kx) =~= seq_ascii_lower(nx).subrange(d, nx.len() as int));
            assert(seq_ascii_lower(ky) =~= seq_ascii_lower(ny).subrange(d, ny.len() as int));
            assert(file_keys(es)[x - 1] == kx && file_keys(es)[y - 1] == ky);
            assert(!eq_ignore_ascii_case(file_keys(es)[x - 1], file_keys(es)[y - 1]));
            assert(eq_ignore_ascii_case(kx, ky));
        }
    }
}

/// The root index entries of names whose first is the one root index.
proof fn lemma_single_root(names: Seq<Seq<char>>)
    requires
        names.len() >= 1,
        is_root_index(names[0]),
        forall|i: int| 1 <= i < names.len() ==> !is_root_index(#[trigger] names[i]),
    ensures
        root_indexes(names) == seq![names[0]],
    decreases names.len(),
{
    if names.len() == 1 {
        assert(names.drop_last().len() == 0);
        assert(root_indexes(names.drop_last()) =~= Seq::<Seq<char>>::empty());
    } else {
        lemma_single_root(names.drop_last());
    }
}

/// Names that are all accepted paths and pairwise different ignoring ASCII
/// case have no refused name.
proof fn lemma_no_name_refusal(names: Seq<Seq<char>>)
    requires
        forall|i: int| 0 <= i < names.len() ==> declared_path_ok(entry_path(#[trigger] names[i])),
        folded_unique(names),
    ensures
        first_name_refusal(names) is None,
    decreases names.len(),
{
    if names.len() > 0 {
        let init = names.drop_last();
        assert forall|i: int| 0 <= i < init.len() implies declared_path_ok(entry_path(#[trigger] init[i])) by {
            assert(init[i] == names[i]);
        }
        lemma_no_name_refusal(init);
        assert(declared_path_ok(entry_path(names[names.len() - 1])));
        lemma_no_folded_from(init, names.last(), 0);
    }
}

/// No earlier name equals the last one ignoring ASCII case.
proof fn lemma_no_folded_from(init: Seq<Seq<char>>, last: Seq<char>, k: nat)
    requires
        folded_unique(init.push(last)),
    ensures
        first_folded_from(init, last, k) is None,
    decreases init.len() - k,
{
    if k < init.len() {
        assert(init.push(last)[k as int] == init[k as int]);
        assert(init.push(last)[init.len() as int] == last);
        lemma_no_folded_from(init, last, k + 1);
    }
}

/// The entry names of the archive a builder writes are names the reader
/// accepts: every one an accepted path, no two equal ignoring ASCII case,
/// and `Index.rdf` the one root index; so, for an archive of at most
/// [`MAX_ARCHIVE_ENTRIES`] entries, they are not refused.
pub proof fn lemma_built_names_accepted(b: ArchiveBuilderView)
    requires
        builder_ok(b),
        spec_archive_entries(b).len() <= MAX_ARCHIVE_ENTRIES,
    ensures
        names_ok(written_names(spec_archive_entries(b))),
        names_refusal(written_names(spec_archive_entries(b))) is None,
        root_indexes(written_names(spec_archive_entries(b))) == seq![INDEX_PATH@],
{
    let es = spec_archive_entries(b);
    let names = written_names(es);
    let fo = folder_entries(ONTOLOGY_DIR@, b.ontology_resources);
    let fd = folder_entries(PAYLOAD_DOCS_DIR@, b.payloads);
    let ft = folder_entries(PAYLOAD_TRIPLES_DIR@, b.linksets);
    let head = seq![(INDEX_PATH@, false, true, FILE_PERMISSIONS, b.index_rdf, written_time())];
    assert(es =~= head + fo + fd + ft);
    lemma_fixed_names_plain();
    lemma_built_names_folded_unique(b);
    let lo = fo.len() as int;
    let ld = fd.len() as int;
    lemma_folder_lower(ONTOLOGY_DIR@, b.ontology_resources, 0);
    lemma_folder_lower(PAYLOAD_DOCS_DIR@, b.payloads, 0);
    lemma_folder_lower(PAYLOAD_TRIPLES_DIR@, b.linksets, 0);
    assert forall|i: int| 0 <= i < names.len() implies declared_path_ok(entry_path(#[trigger] names[i]))
        && (i > 0 ==> !is_root_index(names[i])) by {
        let n = es[i].0;
        assert(names[i] == n);
        let (dir, fs, k) = if i == 0 {
            (INDEX_PATH@, b.ontology_resources, 0int)
        } else if i < 1 + lo {
            (ONTOLOGY_DIR@, b.ontology_resources, i - 1)
        } else if i < 1 + lo + ld {
            (PAYLOAD_DOCS_DIR@, b.payloads, i - 1 - lo)
        } else {
            (PAYLOAD_TRIPLES_DIR@, b.linksets, i - 1 - lo - ld)
        };
        if i == 0 {
            assert(n == INDEX_PATH@);
            lemma_component_declared(INDEX_PATH@);
            assert(!seq_ends_with(n, seq!['/']));
        } else {
            lemma_folder_lower(dir, fs, k);
            assert(n == folder_entries(dir, fs)[k].0);
            assert(n.subrange(dir.len() as int, dir.len() + 1int) =~= seq!['/']);
            assert(occurs_at(n, seq!['/'], dir.len() as int));
            assert(!is_root_index(n));
            if k == 0 {
                assert(n == dir + seq!['/']);
                assert(n.subrange(n.len() - 1, n.len() as int) =~= seq!['/']);
                assert(n.drop_last() =~= dir);
                lemma_component_declared(dir);
            } else {
                assert(declared_path_ok(fs[k - 1].0));
                lemma_prefixed_declared(dir, fs[k - 1].0);
            }
        }
    }
    assert(names[0] == INDEX_PATH@);
    lemma_single_root(names);
    lemma_no_name_refusal(names);
}

/// In the archive a builder wrote, a name that resolves below
/// `Payload triples/` resolves to one of the builder's linkset files, which
/// holds that linkset's bytes.
pub proof fn lemma_triples_resolve_to_linksets(
    b: ArchiveBuilderView,
    names: Seq<Seq<char>>,
    sizes: Map<Seq<char>, u64>,
    data: Map<Seq<char>, Seq<u8>>,
    name: Seq<char>,
)
    requires
        builder_ok(b),
        holds_entries(names, sizes, data, spec_archive_entries(b)),
        spec_resolve(names, PAYLOAD_TRIPLES_DIR@, name) is Ok,
    ensures
        exists|k: int|
            0 <= k < b.linksets.len() && data[spec_resolve(names, PAYLOAD_TRIPLES_DIR@, name)->Ok_0]
                == #[trigger] b.linksets[k].1,
{
    let es = spec_archive_entries(b);
    let fo = folder_entries(ONTOLOGY_DIR@, b.ontology_resources);
    let fd = folder_entries(PAYLOAD_DOCS_DIR@, b.payloads);
    let ft = folder_entries(PAYLOAD_TRIPLES_DIR@, b.linksets);
    let head = seq![(INDEX_PATH@, false, true, FILE_PERMISSIONS, b.index_rdf, written_time())];
    assert(es =~= head + fo + fd + ft);
    reveal_strlit("Index.rdf");
    reveal_strlit("Ontology resources");
    reveal_strlit("Payload documents");
    reveal_strlit("Payload triples");
    reveal_strlit("/");
    let t = PAYLOAD_TRIPLES_DIR@;
    let prefix = t + "/"@;
    assert(prefix.len() == 16);
    let n = slashes_normalized(name);
    let cand = candidate_path(t, n);
    assert(declared_path_ok(n));
    // The candidate, lowered, begins with the folder and a `/`, and is longer.
    assert(cand.len() > 16 && forall|i: int| 0 <= i < 16 ==> #[trigger] seq_ascii_lower(cand)[i]
        == ascii_lower(prefix[i])) by {
        if has_folder_prefix(n, prefix) {
            assert(cand == n);
            assert forall|i: int| 0 <= i < 16 implies #[trigger] seq_ascii_lower(cand)[i] == ascii_lower(prefix[i]) by {
                assert(seq_ascii_lower(n.subrange(0, 16))[i] == seq_ascii_lower(prefix)[i]);
            }
            if n.len() == 16 {
                assert(seq_ascii_lower(n.subrange(0, 16))[15] == seq_ascii_lower(prefix)[15]);
                assert(n[15] == '/');
                assert(n.subrange(n.len() - 1, n.len() as int) =~= seq!['/']);
            }
        } else {
            assert(cand == prefix + n);
        }
    }
    let i = choose|i: int| 0 <= i < names.len() && eq_ignore_ascii_case(names[i], cand);
    let p = names[i];
    assert(spec_resolve(names, PAYLOAD_TRIPLES_DIR@, name)->Ok_0 == p);
    assert(names == written_names(es));
    assert(p == es[i].0);
    assert(seq_ascii_lower(p) == seq_ascii_lower(cand));
    let lo = fo.len() as int;
    let ld = fd.len() as int;
    lemma_folder_lower(ONTOLOGY_DIR@, b.ontology_resources, 0);
    lemma_folder_lower(PAYLOAD_DOCS_DIR@, b.payloads, 0);
    lemma_folder_lower(PAYLOAD_TRIPLES_DIR@, b.linksets, 0);
    assert(seq_ascii_lower(cand)[0] == ascii_lower(prefix[0]));
    assert(seq_ascii_lower(cand)[8] == ascii_lower(prefix[8]));
    if i == 0 {
        assert(p == INDEX_PATH@);
        assert(seq_ascii_lower(p).len() != seq_ascii_lower(cand).len());
    } else if i < 1 + lo {
        lemma_folder_lower(ONTOLOGY_DIR@, b.ontology_resources, i - 1);
        assert(p == fo[i - 1].0);
        assert(seq_ascii_lower(p)[0] != seq_ascii_lower(cand)[0]);
    } else if i < 1 + lo + ld {
        lemma_folder_lower(PAYLOAD_DOCS_DIR@, b.payloads, i - 1 - lo);
        assert(p == fd[i - 1 - lo].0);
        assert(seq_ascii_lower(p)[8] != seq_ascii_lower(cand)[8]);
    } else {
        let k = i - 1 - lo - ld;
        lemma_folder_lower(PAYLOAD_TRIPLES_DIR@, b.linksets, k);
        assert(p == ft[k].0);
        if k == 0 {
            assert(seq_ascii_lower(p).len() != seq_ascii_lower(cand).len());
        } else {
            assert(es[i] == ft[k]);
            assert(!es[i].1);
            assert(data[es[i].0] == es[i].4);
            assert(es[i].4 == b.linksets[k - 1].1);
        }
    }
}

/// The archive a builder writes reopens as a container: read back as
/// written ([`reads_written`]), with at most [`MAX_ARCHIVE_ENTRIES`] entries
/// and an index within the metadata limit, it opens
/// ([`opens_successfully`]) whenever every reading of its index describes a
/// container whose declared internal file names are accepted. Its names are
/// the names written, and every linkset it reads parses.
pub proof fn lemma_built_archive_opens(b: ArchiveBuilderView, bytes: Seq<u8>)
    requires
        builder_ok(b),
        documents_parse(b),
        reads_written(bytes, spec_archive_entries(b)),
        spec_archive_entries(b).len() <= MAX_ARCHIVE_ENTRIES,
        b.index_rdf.len() <= MAX_INDEX_RDF_BYTES,
        forall|g: Seq<EntryView>|
            #[trigger] graph_read(b.index_rdf, g) ==> (spec_index(g) matches Ok(iv) && internal_names_ok(
                iv.documents,
            )),
    ensures
        opens_successfully(bytes),
        zip_reading(bytes) matches Some((names, sizes, data)) && names == written_names(spec_archive_entries(b))
            && root_indexes(names) == seq![INDEX_PATH@] && data[INDEX_PATH@] == b.index_rdf,
{
    let es = spec_archive_entries(b);
    lemma_built_names_accepted(b);
    let (names, sizes, data) = zip_reading(bytes)->Some_0;
    assert(holds_entries(names, sizes, data, es));
    assert(es[0].0 == INDEX_PATH@ && !es[0].1 && es[0].4 == b.index_rdf);
    assert(entry_readable(bytes, es[0].0));
    assert forall|g: Seq<EntryView>| #[trigger] graph_read(data[root_indexes(names)[0]], g) implies (spec_index(
        g,
    ) matches Ok(iv) && internal_names_ok(iv.documents) && linksets_parse(iv, names, data)) by {
        assert(root_indexes(names)[0] == INDEX_PATH@);
        assert(graph_read(b.index_rdf, g));
        let iv = spec_index(g)->Ok_0;
        let cands = linkset_candidates(iv, names);
        assert forall|k: int| 0 <= k < cands.len() implies (spec_resolve(names, PAYLOAD_TRIPLES_DIR@, #[trigger] cands[k]) matches Ok(p)
            ==> parses_within_limit(data[p])) by {
            if spec_resolve(names, PAYLOAD_TRIPLES_DIR@, cands[k]) is Ok {
                lemma_triples_resolve_to_linksets(b, names, sizes, data, cands[k]);
            }
        }
    }
    assert(index_opens(bytes, names, sizes, data, root_indexes(names)[0]));
}

} // verus!
