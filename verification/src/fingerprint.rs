//! The content fingerprinter: from a package root and its selected entries
//! to a deterministic manifest and package digest.

use vstd::prelude::*;
use vstd::multiset::Multiset;

use crate::digest::hex_bytes;
use crate::digest::hex_chars_of;
use crate::digest::hex_bytes_of;
use crate::digest::hex_digit_byte;
use crate::digest::md5_digest;
use crate::digest::md5_of;
use crate::digest::hex_string;
use crate::order::le_bytes;
use crate::order::lex_le;

verus! {

/// The mathematical model of one selected filesystem entry: its full path,
/// whether it is a regular file, and its byte content (`None` when the
/// entry could not be read). Nothing else about the entry — modification
/// time, permissions, absolute location on disk — enters the model, so
/// nothing else can influence a fingerprint.
#[verifier::ext_equal]
pub ghost struct EntryView {
    pub path: Seq<u8>,
    pub is_file: bool,
    pub content: Option<Seq<u8>>,
}

/// One selected filesystem entry, as handed in by the caller: the full path
/// (as bytes), whether the path names a regular file, and the file's byte
/// content — `None` when the caller could not read it.
pub struct FileEntry {
    pub path: Vec<u8>,
    pub is_file: bool,
    pub content: Option<Vec<u8>>,
}

impl View for FileEntry {
    type V = EntryView;

    open spec fn view(&self) -> EntryView {
        EntryView {
            path: self.path@,
            is_file: self.is_file,
            content: match self.content {
                Option::Some(c) => Option::Some(c@),
                Option::None => Option::None,
            },
        }
    }
}

pub open spec fn views(s: Seq<FileEntry>) -> Seq<EntryView> {
    s.map_values(|e: FileEntry| e@)
}

/// Entries are ordered by their full path.
pub open spec fn entry_le(a: EntryView, b: EntryView) -> bool {
    lex_le(a.path, b.path)
}

/// The regular files among the entries, in input order: only they
/// contribute to the fingerprint.
pub open spec fn regular_files(s: Seq<EntryView>) -> Seq<EntryView>
    decreases s.len(),
{
    if s.len() == 0 {
        s
    } else if s.last().is_file {
        regular_files(s.drop_last()).push(s.last())
    } else {
        regular_files(s.drop_last())
    }
}

/// Insertion into a path-sorted sequence, before the first entry it is not
/// strictly after.
pub open spec fn insert_sorted(e: EntryView, s: Seq<EntryView>) -> Seq<EntryView>
    decreases s.len(),
{
    if s.len() == 0 {
        seq![e]
    } else if entry_le(e, s[0]) {
        seq![e] + s
    } else {
        seq![s[0]] + insert_sorted(e, s.drop_first())
    }
}

/// Insertion sort of entries by full path.
pub open spec fn sort_entries_spec(s: Seq<EntryView>) -> Seq<EntryView>
    decreases s.len(),
{
    if s.len() == 0 {
        s
    } else {
        insert_sorted(s[0], sort_entries_spec(s.drop_first()))
    }
}

/// A path relative to the package root: the root prefix and the `/` after
/// it are stripped. A path that does not lie under the root (and is not the
/// root itself) is kept as given — the fallback that trades cross-machine
/// stability of that one line for forward progress. The root is expected
/// without a trailing separator.
pub open spec fn rel_path_of(root: Seq<u8>, path: Seq<u8>) -> Seq<u8> {
    if path == root {
        Seq::empty()
    } else if path.len() > root.len() && path.take(root.len() as int) == root && path[root.len() as int] == 47u8 {
        path.skip(root.len() as int + 1)
    } else {
        path
    }
}

/// The byte content an entry contributes; meaningful only when the entry
/// was read (`content` is `Some`).
pub open spec fn entry_content(e: EntryView) -> Seq<u8> {
    match e.content {
        Option::Some(c) => c,
        Option::None => Seq::empty(),
    }
}

/// One manifest line: the hex content digest, `-` (code 45), and the
/// relative path.
pub open spec fn manifest_line(root: Seq<u8>, e: EntryView) -> Seq<u8> {
    hex_bytes_of(md5_of(entry_content(e))) + seq![45u8] + rel_path_of(root, e.path)
}

pub open spec fn manifest_lines(root: Seq<u8>, s: Seq<EntryView>) -> Seq<Seq<u8>> {
    s.map_values(|e: EntryView| manifest_line(root, e))
}

/// Lines joined with `\n` (code 10).
pub open spec fn join_lines(lines: Seq<Seq<u8>>) -> Seq<u8>
    decreases lines.len(),
{
    if lines.len() == 0 {
        Seq::empty()
    } else if lines.len() == 1 {
        lines[0]
    } else {
        join_lines(lines.drop_last()) + seq![10u8] + lines.last()
    }
}

/// The manifest of a package: one line per regular file, sorted by full
/// path, joined with newlines.
pub open spec fn manifest_spec(root: Seq<u8>, s: Seq<EntryView>) -> Seq<u8> {
    join_lines(manifest_lines(root, sort_entries_spec(regular_files(s))))
}

/// The package digest: the lowercase hex MD5 of the manifest bytes.
pub open spec fn digest_spec(root: Seq<u8>, s: Seq<EntryView>) -> Seq<char> {
    hex_chars_of(md5_of(manifest_spec(root, s)))
}

/// Entry `i` is a regular file whose content could not be read.
pub open spec fn unreadable_at(s: Seq<EntryView>, i: int) -> bool {
    0 <= i < s.len() && s[i].is_file && s[i].content is None
}

pub open spec fn has_unreadable(s: Seq<EntryView>) -> bool {
    exists|i: int| unreadable_at(s, i)
}

/// Why a package could not be fingerprinted.
#[derive(Debug)]
pub enum HashError {
    /// A selected regular file could not be read. The whole fingerprint
    /// operation fails — a partial fingerprint could hide a real change.
    UnreadableFile { path: Vec<u8> },
}

/// A package fingerprint: the digest used as cache key, and the manifest
/// it was derived from, kept for diagnostics.
pub struct Fingerprint {
    pub digest: String,
    pub manifest: Vec<u8>,
}

fn clone_bytes(v: &Vec<u8>) -> (r: Vec<u8>)
    ensures
        r@ == v@,
{
    let mut r: Vec<u8> = Vec::new();
    let mut i: usize = 0;
    while i < v.len()
        invariant
            i <= v@.len(),
            r@ == v@.take(i as int),
        decreases v@.len() - i,
    {
        r.push(v[i]);
        proof {
            assert(v@.take(i + 1) =~= v@.take(i as int).push(v@[i as int]));
        }
        i = i + 1;
    }
    proof {
        assert(v@.take(v@.len() as int) =~= v@);
    }
    r
}

fn filter_files(entries: Vec<FileEntry>) -> (r: Vec<FileEntry>)
    ensures
        views(r@) == regular_files(views(entries@)),
    decreases entries@.len(),
{
    let mut entries = entries;
    let ghost orig = entries@;
    match entries.pop() {
        Option::None => {
            proof {
                assert(views(entries@) =~= regular_files(views(orig)));
            }
            entries
        },
        Option::Some(last) => {
            proof {
                assert(views(entries@) =~= views(orig).drop_last());
                assert(views(orig).last() == last@);
            }
            let mut r = filter_files(entries);
            if last.is_file {
                r.push(last);
                proof {
                    assert(views(r@) =~= regular_files(views(orig)));
                }
            } else {
                proof {
                    assert(views(r@) =~= regular_files(views(orig)));
                }
            }
            r
        },
    }
}

fn insert_entry(e: FileEntry, sorted: Vec<FileEntry>) -> (r: Vec<FileEntry>)
    ensures
        views(r@) == insert_sorted(e@, views(sorted@)),
    decreases sorted@.len(),
{
    let mut sorted = sorted;
    let ghost orig = sorted@;
    if sorted.len() == 0 {
        sorted.push(e);
        proof {
            assert(views(sorted@) =~= insert_sorted(e@, views(orig)));
        }
        sorted
    } else if le_bytes(&e.path, &sorted[0].path) {
        proof {
            assert(views(orig)[0] == orig[0]@);
        }
        sorted.insert(0, e);
        proof {
            assert(views(sorted@) =~= seq![e@] + views(orig));
        }
        sorted
    } else {
        proof {
            assert(views(orig)[0] == orig[0]@);
        }
        let first = sorted.remove(0);
        proof {
            assert(views(sorted@) =~= views(orig).drop_first());
        }
        let mut r = insert_entry(e, sorted);
        r.insert(0, first);
        proof {
            assert(views(r@) =~= seq![first@] + insert_sorted(e@, views(orig).drop_first()));
        }
        r
    }
}

fn sort_entries(entries: Vec<FileEntry>) -> (r: Vec<FileEntry>)
    ensures
        views(r@) == sort_entries_spec(views(entries@)),
    decreases entries@.len(),
{
    if entries.len() == 0 {
        proof {
            assert(views(entries@) =~= Seq::<EntryView>::empty());
        }
        entries
    } else {
        let mut entries = entries;
        let ghost orig = entries@;
        let first = entries.remove(0);
        proof {
            assert(views(entries@) =~= views(orig).drop_first());
            assert(views(orig)[0] == first@);
        }
        let sorted = sort_entries(entries);
        insert_entry(first, sorted)
    }
}

fn append_from(dst: &mut Vec<u8>, src: &Vec<u8>, start: usize)
    requires
        start <= src@.len(),
    ensures
        final(dst)@ == old(dst)@ + src@.skip(start as int),
{
    let mut i: usize = start;
    proof {
        assert(old(dst)@ + src@.subrange(start as int, start as int) =~= old(dst)@);
    }
    while i < src.len()
        invariant
            start <= i <= src@.len(),
            dst@ == old(dst)@ + src@.subrange(start as int, i as int),
        decreases src@.len() - i,
    {
        dst.push(src[i]);
        proof {
            assert(old(dst)@ + src@.subrange(start as int, i + 1) =~= (old(dst)@
                + src@.subrange(start as int, i as int)).push(src@[i as int]));
        }
        i = i + 1;
    }
    proof {
        assert(src@.subrange(start as int, src@.len() as int) =~= src@.skip(start as int));
    }
}

fn eq_bytes(a: &Vec<u8>, b: &Vec<u8>) -> (r: bool)
    ensures
        r == (a@ == b@),
{
    if a.len() != b.len() {
        proof {
            assert(a@ != b@);
        }
        return false;
    }
    let mut i: usize = 0;
    while i < a.len()
        invariant
            i <= a@.len(),
            a@.len() == b@.len(),
            forall|j: int| 0 <= j < i ==> a@[j] == b@[j],
        decreases a@.len() - i,
    {
        if a[i] != b[i] {
            return false;
        }
        i = i + 1;
    }
    proof {
        assert(a@ =~= b@);
    }
    true
}

/// True exactly when `path` lies strictly under `root`: it begins with the
/// root bytes followed by `/`.
fn under_root(root: &Vec<u8>, path: &Vec<u8>) -> (r: bool)
    ensures
        r == (path@.len() > root@.len() && path@.take(root@.len() as int) == root@
            && path@[root@.len() as int] == 47u8),
{
    if path.len() <= root.len() {
        return false;
    }
    if path[root.len()] != 47 {
        return false;
    }
    let mut i: usize = 0;
    while i < root.len()
        invariant
            i <= root@.len(),
            path@.len() > root@.len(),
            forall|j: int| 0 <= j < i ==> path@[j] == root@[j],
        decreases root@.len() - i,
    {
        if path[i] != root[i] {
            proof {
                assert(path@.take(root@.len() as int)[i as int] != root@[i as int]);
            }
            return false;
        }
        i = i + 1;
    }
    proof {
        assert(path@.take(root@.len() as int) =~= root@);
    }
    true
}

fn build_line(root: &Vec<u8>, e: &FileEntry) -> (r: Vec<u8>)
    requires
        e@.content is Some,
    ensures
        r@ == manifest_line(root@, e@),
{
    let mut r: Vec<u8>;
    match &e.content {
        Option::Some(c) => {
            let d = md5_digest(c.as_slice());
            r = hex_bytes(&d);
        },
        Option::None => {
            proof {
                assert(false);
            }
            r = Vec::new();
        },
    }
    r.push(45);
    if eq_bytes(&e.path, root) {
        proof {
            assert(r@ =~= manifest_line(root@, e@));
        }
    } else if under_root(root, &e.path) {
        let path_len = e.path.len();
        let root_len = root.len();
        proof {
            assert(root_len < path_len);
        }
        append_from(&mut r, &e.path, root_len + 1);
        proof {
            assert(r@ =~= manifest_line(root@, e@));
        }
    } else {
        append_from(&mut r, &e.path, 0);
        proof {
            assert(e.path@.skip(0) =~= e.path@);
            assert(r@ =~= manifest_line(root@, e@));
        }
    }
    r
}

fn build_manifest(root: &Vec<u8>, sorted: &Vec<FileEntry>) -> (r: Vec<u8>)
    requires
        forall|i: int| 0 <= i < sorted@.len() ==> (#[trigger] sorted@[i])@.content is Some,
    ensures
        r@ == join_lines(manifest_lines(root@, views(sorted@))),
{
    let mut r: Vec<u8> = Vec::new();
    let mut i: usize = 0;
    proof {
        assert(manifest_lines(root@, views(sorted@).take(0)) =~= Seq::<Seq<u8>>::empty());
    }
    while i < sorted.len()
        invariant
            i <= sorted@.len(),
            forall|k: int| 0 <= k < sorted@.len() ==> (#[trigger] sorted@[k])@.content is Some,
            r@ == join_lines(manifest_lines(root@, views(sorted@).take(i as int))),
        decreases sorted@.len() - i,
    {
        if i > 0 {
            r.push(10);
        }
        let line = build_line(root, &sorted[i]);
        append_from(&mut r, &line, 0);
        proof {
            let lines_now = manifest_lines(root@, views(sorted@).take(i + 1));
            assert(lines_now.drop_last() =~= manifest_lines(root@, views(sorted@).take(i as int)));
            assert(lines_now.last() == manifest_line(root@, sorted@[i as int]@));
            assert(line@.skip(0) =~= line@);
            if i == 0 {
                assert(r@ =~= join_lines(lines_now));
            } else {
                assert(r@ =~= join_lines(lines_now));
            }
        }
        i = i + 1;
    }
    proof {
        assert(views(sorted@).take(sorted@.len() as int) =~= views(sorted@));
    }
    r
}

/// Regular files keep their `is_file` mark and are drawn from the input.
proof fn lemma_regular_files_elems(s: Seq<EntryView>)
    ensures
        forall|i: int|
            0 <= i < regular_files(s).len() ==> (#[trigger] regular_files(s)[i]).is_file
                && s.contains(regular_files(s)[i]),
    decreases s.len(),
{
    if s.len() > 0 {
        lemma_regular_files_elems(s.drop_last());
        assert(forall|x: EntryView| s.drop_last().contains(x) ==> s.contains(x));
        assert(s.contains(s.last()));
    }
}

/// Inserting adds exactly the inserted entry to the contents.
proof fn lemma_insert_sorted_multiset(e: EntryView, s: Seq<EntryView>)
    ensures
        insert_sorted(e, s).to_multiset() =~= s.to_multiset().insert(e),
    decreases s.len(),
{
    broadcast use vstd::seq_lib::group_seq_properties;
    broadcast use vstd::multiset::group_multiset_axioms;

    if s.len() == 0 {
        assert(seq![e] =~= Seq::<EntryView>::empty().push(e));
        assert(Seq::<EntryView>::empty().push(e).to_multiset() =~= s.to_multiset().insert(e));
    } else if entry_le(e, s[0]) {
        assert(seq![e] + s =~= Seq::<EntryView>::empty().push(e) + s);
        vstd::seq_lib::lemma_multiset_commutative(Seq::<EntryView>::empty().push(e), s);
        assert(Seq::<EntryView>::empty().push(e).to_multiset() =~= Multiset::<
            EntryView,
        >::empty().insert(e));
    } else {
        lemma_insert_sorted_multiset(e, s.drop_first());
        assert(seq![s[0]] + insert_sorted(e, s.drop_first()) =~= Seq::<EntryView>::empty().push(
            s[0],
        ) + insert_sorted(e, s.drop_first()));
        vstd::seq_lib::lemma_multiset_commutative(
            Seq::<EntryView>::empty().push(s[0]),
            insert_sorted(e, s.drop_first()),
        );
        assert(s =~= Seq::<EntryView>::empty().push(s[0]) + s.drop_first());
        vstd::seq_lib::lemma_multiset_commutative(
            Seq::<EntryView>::empty().push(s[0]),
            s.drop_first(),
        );
    }
}

/// Sorting permutes the entries and nothing more.
pub proof fn lemma_sort_entries_multiset(s: Seq<EntryView>)
    ensures
        sort_entries_spec(s).to_multiset() =~= s.to_multiset(),
    decreases s.len(),
{
    broadcast use vstd::seq_lib::group_seq_properties;
    broadcast use vstd::multiset::group_multiset_axioms;

    if s.len() > 0 {
        lemma_sort_entries_multiset(s.drop_first());
        lemma_insert_sorted_multiset(s[0], sort_entries_spec(s.drop_first()));
        assert(s =~= Seq::<EntryView>::empty().push(s[0]) + s.drop_first());
        vstd::seq_lib::lemma_multiset_commutative(
            Seq::<EntryView>::empty().push(s[0]),
            s.drop_first(),
        );
    }
}

/// The entry order as a relation value, for `vstd::relations::sorted_by`.
pub open spec fn entry_le_fn() -> spec_fn(EntryView, EntryView) -> bool {
    |a: EntryView, b: EntryView| entry_le(a, b)
}

pub open spec fn is_file_fn() -> spec_fn(EntryView) -> bool {
    |e: EntryView| e.is_file
}

/// The paths of the entries are pairwise distinct: the selector hands over
/// a set of filesystem entries, not a list with repeats.
pub open spec fn distinct_paths(s: Seq<EntryView>) -> bool {
    forall|i: int, j: int| 0 <= i < j < s.len() ==> s[i].path != s[j].path
}

/// No entry occurs twice in the collection, and no two distinct entries
/// share a path.
pub open spec fn paths_distinct_in(m: Multiset<EntryView>) -> bool {
    &&& forall|x: EntryView| #[trigger] m.count(x) <= 1
    &&& forall|x: EntryView, y: EntryView|
        #![trigger m.count(x), m.count(y)]
        m.count(x) > 0 && m.count(y) > 0 && x != y ==> x.path != y.path
}

proof fn lemma_distinct_paths_multiset(s: Seq<EntryView>)
    requires
        distinct_paths(s),
    ensures
        paths_distinct_in(s.to_multiset()),
{
    broadcast use vstd::seq_lib::group_to_multiset_ensures;
    broadcast use vstd::multiset::group_multiset_axioms;

    let m = s.to_multiset();
    assert forall|x: EntryView| #[trigger] m.count(x) <= 1 by {
        if m.count(x) >= 2 {
            assert(s.contains(x));
            let i = choose|i: int| 0 <= i < s.len() && s[i] == x;
            assert(s.remove(i).to_multiset() =~= m.remove(x));
            assert(m.remove(x).count(x) >= 1);
            assert(s.remove(i).contains(x));
            let j = choose|j: int| 0 <= j < s.remove(i).len() && s.remove(i)[j] == x;
            if j < i {
                assert(s[j] == x);
                assert(s[j].path == s[i].path);
            } else {
                assert(s[j + 1] == x);
                assert(s[i].path == s[j + 1].path);
            }
        }
    }
    assert forall|x: EntryView, y: EntryView|
        #![trigger m.count(x), m.count(y)]
        m.count(x) > 0 && m.count(y) > 0 && x != y implies x.path != y.path by {
        assert(s.contains(x));
        assert(s.contains(y));
        let i = choose|i: int| 0 <= i < s.len() && s[i] == x;
        let j = choose|j: int| 0 <= j < s.len() && s[j] == y;
        assert(i != j);
        if i < j {
            assert(s[i].path != s[j].path);
        } else {
            assert(s[j].path != s[i].path);
        }
    }
}

proof fn lemma_insert_sorted_sorted(e: EntryView, s: Seq<EntryView>)
    requires
        vstd::relations::sorted_by(s, entry_le_fn()),
    ensures
        vstd::relations::sorted_by(insert_sorted(e, s), entry_le_fn()),
    decreases s.len(),
{
    broadcast use vstd::seq_lib::group_to_multiset_ensures;
    broadcast use vstd::multiset::group_multiset_axioms;

    let le = entry_le_fn();
    if s.len() == 0 {
    } else if entry_le(e, s[0]) {
        let r = seq![e] + s;
        assert forall|i: int, j: int| 0 <= i < j < r.len() implies #[trigger] le(r[i], r[j]) by {
            if i == 0 {
                assert(le(s[0], s[0]) || j == 1 || le(s[0], s[j - 1]));
                if j > 1 {
                    assert(le(s[0], s[j - 1]));
                    crate::order::lemma_lex_le_trans(e.path, s[0].path, s[j - 1].path);
                }
            } else {
                assert(le(s[i - 1], s[j - 1]));
            }
        }
    } else {
        assert forall|i: int, j: int| 0 <= i < j < s.drop_first().len() implies #[trigger] le(
            s.drop_first()[i],
            s.drop_first()[j],
        ) by {
            assert(le(s[i + 1], s[j + 1]));
        }
        lemma_insert_sorted_sorted(e, s.drop_first());
        lemma_insert_sorted_multiset(e, s.drop_first());
        let t = insert_sorted(e, s.drop_first());
        let r = seq![s[0]] + t;
        crate::order::lemma_lex_le_total(e.path, s[0].path);
        assert(le(s[0], e));
        assert forall|i: int, j: int| 0 <= i < j < r.len() implies #[trigger] le(r[i], r[j]) by {
            if i == 0 {
                let x = t[j - 1];
                assert(t.contains(x));
                assert(t.to_multiset().count(x) > 0);
                if x != e {
                    assert(s.drop_first().to_multiset().count(x) > 0);
                    assert(s.drop_first().contains(x));
                    let k = choose|k: int| 0 <= k < s.drop_first().len() && s.drop_first()[k] == x;
                    assert(s[k + 1] == x);
                    assert(le(s[0], s[k + 1]));
                }
            } else {
                assert(le(t[i - 1], t[j - 1]));
            }
        }
    }
}

/// Sorting orders the entries by full path.
pub proof fn lemma_sort_entries_sorted(s: Seq<EntryView>)
    ensures
        vstd::relations::sorted_by(sort_entries_spec(s), entry_le_fn()),
    decreases s.len(),
{
    if s.len() > 0 {
        lemma_sort_entries_sorted(s.drop_first());
        lemma_insert_sorted_sorted(s[0], sort_entries_spec(s.drop_first()));
    }
}

/// Two path-sorted sequences with the same entries, none of which share a
/// path, are the same sequence.
proof fn lemma_sorted_unique_paths(x: Seq<EntryView>, y: Seq<EntryView>)
    requires
        vstd::relations::sorted_by(x, entry_le_fn()),
        vstd::relations::sorted_by(y, entry_le_fn()),
        x.to_multiset() == y.to_multiset(),
        paths_distinct_in(x.to_multiset()),
    ensures
        x == y,
    decreases x.len(),
{
    broadcast use vstd::seq_lib::group_to_multiset_ensures;
    broadcast use vstd::multiset::group_multiset_axioms;

    let le = entry_le_fn();
    assert(x.len() == x.to_multiset().len());
    assert(y.len() == y.to_multiset().len());
    if x.len() == 0 {
        assert(x =~= y);
    } else {
        assert(x.contains(x[0]));
        assert(y.to_multiset().count(x[0]) > 0);
        assert(y.contains(x[0]));
        let k = choose|k: int| 0 <= k < y.len() && y[k] == x[0];
        if k > 0 {
            assert(le(y[0], y[k]));
        } else {
            crate::order::lemma_lex_le_refl(y[0].path);
        }
        assert(entry_le(y[0], x[0]));
        assert(y.contains(y[0]));
        assert(x.to_multiset().count(y[0]) > 0);
        assert(x.contains(y[0]));
        let i = choose|i: int| 0 <= i < x.len() && x[i] == y[0];
        if i > 0 {
            assert(le(x[0], x[i]));
        } else {
            crate::order::lemma_lex_le_refl(x[0].path);
        }
        assert(entry_le(x[0], y[0]));
        crate::order::lemma_lex_le_antisym(x[0].path, y[0].path);
        assert(x[0].path == y[0].path);
        assert(x.to_multiset().count(x[0]) > 0);
        if x[i] != x[0] {
            assert(x[i].path != x[0].path);
            assert(false);
        }
        assert(y[0] == x[0]);
        assert(x.remove(0) =~= x.drop_first());
        assert(y.remove(0) =~= y.drop_first());
        assert(x.drop_first().to_multiset() =~= x.to_multiset().remove(x[0]));
        assert(y.drop_first().to_multiset() =~= y.to_multiset().remove(y[0]));
        let md = x.drop_first().to_multiset();
        assert forall|v: EntryView| #[trigger] md.count(v) <= 1 by {
            assert(md.count(v) <= x.to_multiset().count(v));
        }
        assert forall|v: EntryView, w: EntryView|
            #![trigger md.count(v), md.count(w)]
            md.count(v) > 0 && md.count(w) > 0 && v != w implies v.path != w.path by {
            assert(x.to_multiset().count(v) > 0);
            assert(x.to_multiset().count(w) > 0);
        }
        assert forall|a: int, b: int| 0 <= a < b < x.drop_first().len() implies #[trigger] le(
            x.drop_first()[a],
            x.drop_first()[b],
        ) by {
            assert(le(x[a + 1], x[b + 1]));
        }
        assert forall|a: int, b: int| 0 <= a < b < y.drop_first().len() implies #[trigger] le(
            y.drop_first()[a],
            y.drop_first()[b],
        ) by {
            assert(le(y[a + 1], y[b + 1]));
        }
        lemma_sorted_unique_paths(x.drop_first(), y.drop_first());
        assert(x =~= seq![x[0]] + x.drop_first());
        assert(y =~= seq![y[0]] + y.drop_first());
    }
}

/// Filtering keeps exactly the regular files, as a collection.
proof fn lemma_regular_files_multiset(s: Seq<EntryView>)
    ensures
        regular_files(s).to_multiset() =~= s.to_multiset().filter(is_file_fn()),
    decreases s.len(),
{
    broadcast use vstd::seq_lib::group_to_multiset_ensures;
    broadcast use vstd::multiset::group_multiset_axioms;

    if s.len() == 0 {
        assert forall|x: EntryView| regular_files(s).to_multiset().count(x) == s.to_multiset()
            .filter(is_file_fn()).count(x) by {
            assert(!s.contains(x));
            assert(!regular_files(s).contains(x));
        }
    } else {
        let d = s.drop_last();
        lemma_regular_files_multiset(d);
        assert(s =~= d.push(s.last()));
        assert(s.to_multiset() =~= d.to_multiset().insert(s.last()));
        if s.last().is_file {
            assert(regular_files(s).to_multiset() =~= regular_files(d).to_multiset().insert(
                s.last(),
            ));
        }
        assert forall|x: EntryView| regular_files(s).to_multiset().count(x) == s.to_multiset()
            .filter(is_file_fn()).count(x) by {
            assert(regular_files(d).to_multiset().count(x) == d.to_multiset().filter(
                is_file_fn(),
            ).count(x));
        }
    }
}

/// Scan-order independence: fingerprinting the same set of entries, handed
/// over in any two enumeration orders, yields the same manifest and the
/// same digest.
pub proof fn lemma_scan_order_independence(root: Seq<u8>, s1: Seq<EntryView>, s2: Seq<EntryView>)
    requires
        s1.to_multiset() == s2.to_multiset(),
        distinct_paths(s1),
    ensures
        manifest_spec(root, s1) == manifest_spec(root, s2),
        digest_spec(root, s1) == digest_spec(root, s2),
{
    broadcast use vstd::multiset::group_multiset_axioms;

    let f1 = regular_files(s1);
    let f2 = regular_files(s2);
    lemma_regular_files_multiset(s1);
    lemma_regular_files_multiset(s2);
    assert(f1.to_multiset() =~= f2.to_multiset());
    lemma_sort_entries_multiset(f1);
    lemma_sort_entries_multiset(f2);
    lemma_sort_entries_sorted(f1);
    lemma_sort_entries_sorted(f2);
    lemma_distinct_paths_multiset(s1);
    let m1 = sort_entries_spec(f1).to_multiset();
    assert forall|v: EntryView| #[trigger] m1.count(v) <= 1 by {
        assert(m1.count(v) == s1.to_multiset().filter(is_file_fn()).count(v));
        assert(s1.to_multiset().filter(is_file_fn()).count(v) <= s1.to_multiset().count(v));
    }
    assert forall|v: EntryView, w: EntryView|
        #![trigger m1.count(v), m1.count(w)]
        m1.count(v) > 0 && m1.count(w) > 0 && v != w implies v.path != w.path by {
        assert(m1.count(v) == s1.to_multiset().filter(is_file_fn()).count(v));
        assert(m1.count(w) == s1.to_multiset().filter(is_file_fn()).count(w));
        assert(s1.to_multiset().count(v) > 0);
        assert(s1.to_multiset().count(w) > 0);
    }
    assert(sort_entries_spec(f1).to_multiset() == sort_entries_spec(f2).to_multiset());
    lemma_sorted_unique_paths(sort_entries_spec(f1), sort_entries_spec(f2));
}

/// Hex digits are never the newline byte, so the digest part of a manifest
/// line cannot collide with the line separator.
proof fn lemma_hex_no_newline(data: Seq<u8>)
    ensures
        !hex_bytes_of(data).contains(10u8),
    decreases data.len(),
{
    if data.len() > 0 {
        lemma_hex_no_newline(data.drop_last());
        assert forall|k: int| 0 <= k < hex_bytes_of(data).len() implies hex_bytes_of(data)[k]
            != 10u8 by {
            if k < hex_bytes_of(data.drop_last()).len() {
                assert(!hex_bytes_of(data.drop_last()).contains(10u8));
                assert(hex_bytes_of(data.drop_last())[k] != 10u8);
            }
        }
    } else {
        assert forall|k: int| 0 <= k < hex_bytes_of(data).len() implies hex_bytes_of(data)[k]
            != 10u8 by {}
    }
}

/// Joining newline-free, non-empty lines with newlines is injective: the
/// manifest determines its lines.
proof fn lemma_join_lines_injective(l1: Seq<Seq<u8>>, l2: Seq<Seq<u8>>)
    requires
        forall|i: int| 0 <= i < l1.len() ==> (#[trigger] l1[i]).len() > 0 && !l1[i].contains(10u8),
        forall|i: int| 0 <= i < l2.len() ==> (#[trigger] l2[i]).len() > 0 && !l2[i].contains(10u8),
        join_lines(l1) == join_lines(l2),
    ensures
        l1 == l2,
    decreases l1.len(), l2.len(),
{
    let j1 = join_lines(l1);
    let j2 = join_lines(l2);
    if l1.len() == 0 {
        if l2.len() > 0 {
            assert(j2.len() > 0);
            assert(false);
        }
        assert(l1 =~= l2);
    } else if l2.len() == 0 {
        assert(j1.len() > 0);
        assert(false);
    } else if l1.len() == 1 && l2.len() == 1 {
        assert(l1 =~= l2);
    } else if l1.len() == 1 {
        // j1 is one newline-free line; j2 holds a separator.
        let k = join_lines(l2.drop_last()).len() as int;
        assert(j2[k] == 10u8);
        assert(l1[0].contains(10u8));
        assert(false);
    } else if l2.len() == 1 {
        let k = join_lines(l1.drop_last()).len() as int;
        assert(j1[k] == 10u8);
        assert(l2[0].contains(10u8));
        assert(false);
    } else {
        // Both end in a separator followed by their newline-free last line;
        // the separator positions must agree.
        let k1 = join_lines(l1.drop_last()).len() as int;
        let k2 = join_lines(l2.drop_last()).len() as int;
        assert(j1[k1] == 10u8);
        assert(j2[k2] == 10u8);
        assert(j1.len() == k1 + 1 + l1.last().len());
        assert(j2.len() == k2 + 1 + l2.last().len());
        assert forall|m: int| k1 < m < j1.len() implies j1[m] != 10u8 by {
            assert(j1[m] == l1.last()[m - k1 - 1]);
            assert(!l1.last().contains(10u8));
        }
        assert forall|m: int| k2 < m < j2.len() implies j2[m] != 10u8 by {
            assert(j2[m] == l2.last()[m - k2 - 1]);
            assert(!l2.last().contains(10u8));
        }
        assert(k1 == k2);
        assert(join_lines(l1.drop_last()) =~= j1.take(k1));
        assert(join_lines(l2.drop_last()) =~= j2.take(k2));
        assert(l1.last() =~= j1.skip(k1 + 1));
        assert(l2.last() =~= j2.skip(k2 + 1));
        lemma_join_lines_injective(l1.drop_last(), l2.drop_last());
        assert(l1 =~= l1.drop_last().push(l1.last()));
        assert(l2 =~= l2.drop_last().push(l2.last()));
    }
}

proof fn lemma_insert_sorted_len(e: EntryView, s: Seq<EntryView>)
    ensures
        insert_sorted(e, s).len() == s.len() + 1,
    decreases s.len(),
{
    if s.len() > 0 && !entry_le(e, s[0]) {
        lemma_insert_sorted_len(e, s.drop_first());
    }
}

proof fn lemma_sort_entries_len(s: Seq<EntryView>)
    ensures
        sort_entries_spec(s).len() == s.len(),
    decreases s.len(),
{
    if s.len() > 0 {
        lemma_sort_entries_len(s.drop_first());
        lemma_insert_sorted_len(s[0], sort_entries_spec(s.drop_first()));
    }
}

/// Every relative path in the package is free of newline bytes.
pub open spec fn newline_free_paths(root: Seq<u8>, s: Seq<EntryView>) -> bool {
    forall|i: int| 0 <= i < s.len() ==> !rel_path_of(root, (#[trigger] s[i]).path).contains(10u8)
}

proof fn lemma_manifest_lines_newline_free(root: Seq<u8>, s: Seq<EntryView>)
    requires
        newline_free_paths(root, s),
    ensures
        forall|i: int|
            0 <= i < manifest_lines(root, sort_entries_spec(regular_files(s))).len() ==> (
            #[trigger] manifest_lines(root, sort_entries_spec(regular_files(s)))[i]).len() > 0
                && !manifest_lines(root, sort_entries_spec(regular_files(s)))[i].contains(10u8),
{
    broadcast use vstd::seq_lib::group_to_multiset_ensures;
    broadcast use vstd::multiset::group_multiset_axioms;

    let t = sort_entries_spec(regular_files(s));
    lemma_sort_entries_multiset(regular_files(s));
    lemma_regular_files_elems(s);
    assert forall|i: int| 0 <= i < manifest_lines(root, t).len() implies (#[trigger] manifest_lines(
        root,
        t,
    )[i]).len() > 0 && !manifest_lines(root, t)[i].contains(10u8) by {
        let e = t[i];
        assert(t.contains(e));
        assert(t.to_multiset().count(e) > 0);
        assert(regular_files(s).contains(e));
        let k = choose|k: int| 0 <= k < regular_files(s).len() && regular_files(s)[k] == e;
        assert(s.contains(regular_files(s)[k]));
        let n = choose|n: int| 0 <= n < s.len() && s[n] == e;
        assert(!rel_path_of(root, e.path).contains(10u8));
        let line = manifest_line(root, e);
        let hex = hex_bytes_of(md5_of(entry_content(e)));
        lemma_hex_no_newline(md5_of(entry_content(e)));
        assert forall|m: int| 0 <= m < line.len() implies line[m] != 10u8 by {
            if m < hex.len() {
                assert(line[m] == hex[m]);
            } else if m == hex.len() {
                assert(line[m] == 45u8);
            } else {
                assert(line[m] == rel_path_of(root, e.path)[m - hex.len() - 1]);
            }
        }
        assert(line.len() > 0);
    }
}

/// Size sensitivity: adding or removing an included file changes the
/// manifest — two packages with different numbers of regular files can
/// never share a Manifest String (their digests are then the same MD5
/// input only on a hash collision). Paths must be newline-free, or a path
/// could imitate a line break.
pub proof fn lemma_file_count_sensitivity(
    root: Seq<u8>,
    s1: Seq<EntryView>,
    s2: Seq<EntryView>,
)
    requires
        regular_files(s1).len() != regular_files(s2).len(),
        newline_free_paths(root, s1),
        newline_free_paths(root, s2),
    ensures
        manifest_spec(root, s1) != manifest_spec(root, s2),
{
    if manifest_spec(root, s1) == manifest_spec(root, s2) {
        lemma_manifest_lines_newline_free(root, s1);
        lemma_manifest_lines_newline_free(root, s2);
        lemma_join_lines_injective(
            manifest_lines(root, sort_entries_spec(regular_files(s1))),
            manifest_lines(root, sort_entries_spec(regular_files(s2))),
        );
        lemma_sort_entries_len(regular_files(s1));
        lemma_sort_entries_len(regular_files(s2));
        assert(false);
    }
}

/// Hex digits are never the dash byte, so a manifest line's first dash
/// separates the digest from the relative path.
proof fn lemma_hex_no_dash(data: Seq<u8>)
    ensures
        !hex_bytes_of(data).contains(45u8),
    decreases data.len(),
{
    if data.len() > 0 {
        lemma_hex_no_dash(data.drop_last());
        assert forall|k: int| 0 <= k < hex_bytes_of(data).len() implies hex_bytes_of(data)[k]
            != 45u8 by {
            if k < hex_bytes_of(data.drop_last()).len() {
                assert(!hex_bytes_of(data.drop_last()).contains(45u8));
                assert(hex_bytes_of(data.drop_last())[k] != 45u8);
            }
        }
    } else {
        assert forall|k: int| 0 <= k < hex_bytes_of(data).len() implies hex_bytes_of(data)[k]
            != 45u8 by {}
    }
}

/// Equal manifest lines name the same relative path and the same content
/// digest.
proof fn lemma_line_determines_parts(root: Seq<u8>, a: EntryView, b: EntryView)
    requires
        manifest_line(root, a) == manifest_line(root, b),
    ensures
        rel_path_of(root, a.path) == rel_path_of(root, b.path),
        hex_bytes_of(md5_of(entry_content(a))) == hex_bytes_of(md5_of(entry_content(b))),
{
    let ha = hex_bytes_of(md5_of(entry_content(a)));
    let hb = hex_bytes_of(md5_of(entry_content(b)));
    let la = manifest_line(root, a);
    let lb = manifest_line(root, b);
    lemma_hex_no_dash(md5_of(entry_content(a)));
    lemma_hex_no_dash(md5_of(entry_content(b)));
    assert(la[ha.len() as int] == 45u8);
    assert(lb[hb.len() as int] == 45u8);
    if ha.len() < hb.len() {
        assert(lb[ha.len() as int] == hb[ha.len() as int]);
        assert(hb.contains(hb[ha.len() as int]));
        assert(false);
    }
    if hb.len() < ha.len() {
        assert(la[hb.len() as int] == ha[hb.len() as int]);
        assert(ha.contains(ha[hb.len() as int]));
        assert(false);
    }
    assert(ha =~= la.take(ha.len() as int));
    assert(hb =~= lb.take(hb.len() as int));
    assert(rel_path_of(root, a.path) =~= la.skip(ha.len() as int + 1));
    assert(rel_path_of(root, b.path) =~= lb.skip(hb.len() as int + 1));
}

/// Rename sensitivity: if a relative path occurs among one package's
/// regular files but not the other's, the manifests differ — a file moved
/// to a new relative location (its bytes unchanged) changes the manifest,
/// and so changes what the digest is computed over.
pub proof fn lemma_rename_sensitivity(
    root: Seq<u8>,
    s1: Seq<EntryView>,
    s2: Seq<EntryView>,
    p: Seq<u8>,
)
    requires
        newline_free_paths(root, s1),
        newline_free_paths(root, s2),
        exists|i: int|
            0 <= i < regular_files(s1).len() && rel_path_of(
                root,
                (#[trigger] regular_files(s1)[i]).path,
            ) == p,
        forall|j: int|
            0 <= j < regular_files(s2).len() ==> rel_path_of(
                root,
                (#[trigger] regular_files(s2)[j]).path,
            ) != p,
    ensures
        manifest_spec(root, s1) != manifest_spec(root, s2),
{
    broadcast use vstd::seq_lib::group_to_multiset_ensures;
    broadcast use vstd::multiset::group_multiset_axioms;

    if manifest_spec(root, s1) == manifest_spec(root, s2) {
        let f1 = regular_files(s1);
        let f2 = regular_files(s2);
        let t1 = sort_entries_spec(f1);
        let t2 = sort_entries_spec(f2);
        lemma_manifest_lines_newline_free(root, s1);
        lemma_manifest_lines_newline_free(root, s2);
        lemma_join_lines_injective(manifest_lines(root, t1), manifest_lines(root, t2));
        lemma_sort_entries_multiset(f1);
        lemma_sort_entries_multiset(f2);
        let i = choose|i: int| 0 <= i < f1.len() && rel_path_of(root, f1[i].path) == p;
        assert(f1.contains(f1[i]));
        assert(t1.to_multiset().count(f1[i]) > 0);
        assert(t1.contains(f1[i]));
        let k = choose|k: int| 0 <= k < t1.len() && t1[k] == f1[i];
        assert(manifest_lines(root, t1)[k] == manifest_lines(root, t2)[k]);
        lemma_line_determines_parts(root, t1[k], t2[k]);
        assert(rel_path_of(root, t2[k].path) == p);
        assert(t2.contains(t2[k]));
        assert(f2.to_multiset().count(t2[k]) > 0);
        assert(f2.contains(t2[k]));
        let j = choose|j: int| 0 <= j < f2.len() && f2[j] == t2[k];
        assert(rel_path_of(root, f2[j].path) == p);
        assert(false);
    }
}

proof fn lemma_hex_bytes_len(data: Seq<u8>)
    ensures
        hex_bytes_of(data).len() == 2 * data.len(),
    decreases data.len(),
{
    if data.len() > 0 {
        lemma_hex_bytes_len(data.drop_last());
    }
}

/// Hex encoding is injective: equal renderings come from equal digests.
proof fn lemma_hex_bytes_injective(x: Seq<u8>, y: Seq<u8>)
    requires
        hex_bytes_of(x) == hex_bytes_of(y),
    ensures
        x == y,
    decreases x.len(),
{
    lemma_hex_bytes_len(x);
    lemma_hex_bytes_len(y);
    if x.len() == 0 {
        assert(x =~= y);
    } else {
        let hx = hex_bytes_of(x);
        let hy = hex_bytes_of(y);
        assert(hx[hx.len() - 2] == hex_digit_byte(x.last() / 16));
        assert(hx[hx.len() - 1] == hex_digit_byte(x.last() % 16));
        assert(hy[hy.len() - 2] == hex_digit_byte(y.last() / 16));
        assert(hy[hy.len() - 1] == hex_digit_byte(y.last() % 16));
        assert(x.last() / 16 == y.last() / 16);
        assert(x.last() % 16 == y.last() % 16);
        assert(x.last() == y.last());
        assert(hex_bytes_of(x.drop_last()) =~= hx.take(hx.len() - 2));
        assert(hex_bytes_of(y.drop_last()) =~= hy.take(hy.len() - 2));
        lemma_hex_bytes_injective(x.drop_last(), y.drop_last());
        assert(x =~= x.drop_last().push(x.last()));
        assert(y =~= y.drop_last().push(y.last()));
    }
}

/// Content sensitivity: if one package holds a regular file at relative
/// path `p` whose content digest no file at `p` in the other package has,
/// the manifests differ. A changed byte in a file therefore changes the
/// manifest whenever it changes the file's MD5 digest; it could fail to
/// only on an MD5 collision.
pub proof fn lemma_content_sensitivity(
    root: Seq<u8>,
    s1: Seq<EntryView>,
    s2: Seq<EntryView>,
    p: Seq<u8>,
    c: Seq<u8>,
)
    requires
        newline_free_paths(root, s1),
        newline_free_paths(root, s2),
        exists|i: int|
            0 <= i < regular_files(s1).len() && rel_path_of(
                root,
                (#[trigger] regular_files(s1)[i]).path,
            ) == p && entry_content(regular_files(s1)[i]) == c,
        forall|j: int|
            0 <= j < regular_files(s2).len() && rel_path_of(
                root,
                (#[trigger] regular_files(s2)[j]).path,
            ) == p ==> md5_of(entry_content(regular_files(s2)[j])) != md5_of(c),
    ensures
        manifest_spec(root, s1) != manifest_spec(root, s2),
{
    broadcast use vstd::seq_lib::group_to_multiset_ensures;
    broadcast use vstd::multiset::group_multiset_axioms;

    if manifest_spec(root, s1) == manifest_spec(root, s2) {
        let f1 = regular_files(s1);
        let f2 = regular_files(s2);
        let t1 = sort_entries_spec(f1);
        let t2 = sort_entries_spec(f2);
        lemma_manifest_lines_newline_free(root, s1);
        lemma_manifest_lines_newline_free(root, s2);
        lemma_join_lines_injective(manifest_lines(root, t1), manifest_lines(root, t2));
        lemma_sort_entries_multiset(f1);
        lemma_sort_entries_multiset(f2);
        let i = choose|i: int|
            0 <= i < f1.len() && rel_path_of(root, f1[i].path) == p && entry_content(f1[i]) == c;
        assert(f1.contains(f1[i]));
        assert(t1.to_multiset().count(f1[i]) > 0);
        assert(t1.contains(f1[i]));
        let k = choose|k: int| 0 <= k < t1.len() && t1[k] == f1[i];
        assert(manifest_lines(root, t1)[k] == manifest_lines(root, t2)[k]);
        lemma_line_determines_parts(root, t1[k], t2[k]);
        lemma_hex_bytes_injective(md5_of(entry_content(t1[k])), md5_of(entry_content(t2[k])));
        assert(rel_path_of(root, t2[k].path) == p);
        assert(md5_of(entry_content(t2[k])) == md5_of(c));
        assert(t2.contains(t2[k]));
        assert(f2.to_multiset().count(t2[k]) > 0);
        assert(f2.contains(t2[k]));
        let j = choose|j: int| 0 <= j < f2.len() && f2[j] == t2[k];
        assert(false);
    }
}

/// Insensitivity: the fingerprint is a function of each entry's path, kind
/// and byte content alone. Entries that agree on those three fingerprint
/// identically, whatever else differed on disk — modification times and
/// permission bits have no way into the computation.
pub proof fn lemma_metadata_insensitivity(root: Seq<u8>, s1: Seq<EntryView>, s2: Seq<EntryView>)
    requires
        s1.len() == s2.len(),
        forall|i: int|
            0 <= i < s1.len() ==> (#[trigger] s1[i]).path == s2[i].path && s1[i].is_file
                == s2[i].is_file && s1[i].content == s2[i].content,
    ensures
        manifest_spec(root, s1) == manifest_spec(root, s2),
        digest_spec(root, s1) == digest_spec(root, s2),
{
    assert forall|i: int| 0 <= i < s1.len() implies s1[i] == s2[i] by {
        assert(s1[i] =~= s2[i]);
    }
    assert(s1 =~= s2);
}

/// A path placed under a root: the root bytes, `/`, then the relative path.
pub open spec fn rooted(root: Seq<u8>, rel: Seq<u8>) -> Seq<u8> {
    root + seq![47u8] + rel
}

/// Entry `b` is entry `a` re-rooted: same kind and same content, at the
/// same relative location under `root2` as `a` has under `root1`.
pub open spec fn rebased(root1: Seq<u8>, root2: Seq<u8>, a: EntryView, b: EntryView) -> bool {
    &&& b.is_file == a.is_file
    &&& b.content == a.content
    &&& exists|rel: Seq<u8>| a.path == #[trigger] rooted(root1, rel) && b.path == rooted(root2, rel)
}

pub open spec fn rebased_seq(
    root1: Seq<u8>,
    root2: Seq<u8>,
    s1: Seq<EntryView>,
    s2: Seq<EntryView>,
) -> bool {
    &&& s1.len() == s2.len()
    &&& forall|i: int| 0 <= i < s1.len() ==> rebased(root1, root2, s1[i], s2[i])
}

/// Stripping the root from a path placed under it gives back the relative path.
proof fn lemma_rel_path_rooted(root: Seq<u8>, rel: Seq<u8>)
    ensures
        rel_path_of(root, rooted(root, rel)) == rel,
{
    let p = rooted(root, rel);
    assert(p.len() == root.len() + 1 + rel.len());
    assert(p.take(root.len() as int) =~= root);
    assert(p[root.len() as int] == 47u8);
    assert(p.skip(root.len() as int + 1) =~= rel);
}

/// Re-rooting both entries of a pair does not change their order.
proof fn lemma_rebased_le(
    root1: Seq<u8>,
    root2: Seq<u8>,
    a1: EntryView,
    a2: EntryView,
    b1: EntryView,
    b2: EntryView,
)
    requires
        rebased(root1, root2, a1, a2),
        rebased(root1, root2, b1, b2),
    ensures
        entry_le(a1, b1) == entry_le(a2, b2),
{
    let ra = choose|rel: Seq<u8>| a1.path == #[trigger] rooted(root1, rel) && a2.path == rooted(
        root2,
        rel,
    );
    let rb = choose|rel: Seq<u8>| b1.path == #[trigger] rooted(root1, rel) && b2.path == rooted(
        root2,
        rel,
    );
    assert(rooted(root1, ra) =~= (root1 + seq![47u8]) + ra);
    assert(rooted(root1, rb) =~= (root1 + seq![47u8]) + rb);
    assert(rooted(root2, ra) =~= (root2 + seq![47u8]) + ra);
    assert(rooted(root2, rb) =~= (root2 + seq![47u8]) + rb);
    crate::order::lemma_lex_le_prefix(root1 + seq![47u8], ra, rb);
    crate::order::lemma_lex_le_prefix(root2 + seq![47u8], ra, rb);
}

proof fn lemma_regular_files_rebased(
    root1: Seq<u8>,
    root2: Seq<u8>,
    s1: Seq<EntryView>,
    s2: Seq<EntryView>,
)
    requires
        rebased_seq(root1, root2, s1, s2),
    ensures
        rebased_seq(root1, root2, regular_files(s1), regular_files(s2)),
    decreases s1.len(),
{
    if s1.len() > 0 {
        assert(rebased_seq(root1, root2, s1.drop_last(), s2.drop_last()));
        lemma_regular_files_rebased(root1, root2, s1.drop_last(), s2.drop_last());
        assert(rebased(root1, root2, s1.last(), s2.last()));
    }
}

proof fn lemma_insert_sorted_rebased(
    root1: Seq<u8>,
    root2: Seq<u8>,
    e1: EntryView,
    e2: EntryView,
    s1: Seq<EntryView>,
    s2: Seq<EntryView>,
)
    requires
        rebased(root1, root2, e1, e2),
        rebased_seq(root1, root2, s1, s2),
    ensures
        rebased_seq(root1, root2, insert_sorted(e1, s1), insert_sorted(e2, s2)),
    decreases s1.len(),
{
    if s1.len() == 0 {
    } else {
        lemma_rebased_le(root1, root2, e1, e2, s1[0], s2[0]);
        if entry_le(e1, s1[0]) {
            assert(rebased_seq(root1, root2, seq![e1] + s1, seq![e2] + s2));
        } else {
            assert(rebased_seq(root1, root2, s1.drop_first(), s2.drop_first()));
            lemma_insert_sorted_rebased(root1, root2, e1, e2, s1.drop_first(), s2.drop_first());
            assert(rebased_seq(
                root1,
                root2,
                seq![s1[0]] + insert_sorted(e1, s1.drop_first()),
                seq![s2[0]] + insert_sorted(e2, s2.drop_first()),
            ));
        }
    }
}

proof fn lemma_sort_entries_rebased(
    root1: Seq<u8>,
    root2: Seq<u8>,
    s1: Seq<EntryView>,
    s2: Seq<EntryView>,
)
    requires
        rebased_seq(root1, root2, s1, s2),
    ensures
        rebased_seq(root1, root2, sort_entries_spec(s1), sort_entries_spec(s2)),
    decreases s1.len(),
{
    if s1.len() > 0 {
        assert(rebased_seq(root1, root2, s1.drop_first(), s2.drop_first()));
        lemma_sort_entries_rebased(root1, root2, s1.drop_first(), s2.drop_first());
        lemma_insert_sorted_rebased(
            root1,
            root2,
            s1[0],
            s2[0],
            sort_entries_spec(s1.drop_first()),
            sort_entries_spec(s2.drop_first()),
        );
    }
}

/// Root independence: the same relative file structure with the same byte
/// contents, placed under two different roots, yields the same manifest and
/// the same digest.
pub proof fn lemma_root_independence(
    root1: Seq<u8>,
    root2: Seq<u8>,
    s1: Seq<EntryView>,
    s2: Seq<EntryView>,
)
    requires
        rebased_seq(root1, root2, s1, s2),
    ensures
        manifest_spec(root1, s1) == manifest_spec(root2, s2),
        digest_spec(root1, s1) == digest_spec(root2, s2),
{
    lemma_regular_files_rebased(root1, root2, s1, s2);
    lemma_sort_entries_rebased(
        root1,
        root2,
        regular_files(s1),
        regular_files(s2),
    );
    let t1 = sort_entries_spec(regular_files(s1));
    let t2 = sort_entries_spec(regular_files(s2));
    assert forall|i: int| 0 <= i < t1.len() implies manifest_lines(root1, t1)[i] == manifest_lines(
        root2,
        t2,
    )[i] by {
        assert(rebased(root1, root2, t1[i], t2[i]));
        let rel = choose|rel: Seq<u8>| t1[i].path == #[trigger] rooted(root1, rel) && t2[i].path
            == rooted(root2, rel);
        lemma_rel_path_rooted(root1, rel);
        lemma_rel_path_rooted(root2, rel);
        assert(entry_content(t1[i]) == entry_content(t2[i]));
    }
    assert(manifest_lines(root1, t1) =~= manifest_lines(root2, t2));
}

/// Manifest ordering: when every entry lies under the package root, the
/// manifest's lines come sorted by relative path, whatever the scan order.
pub proof fn lemma_manifest_lines_sorted(root: Seq<u8>, s: Seq<EntryView>)
    requires
        forall|i: int| 0 <= i < s.len() ==> exists|rel: Seq<u8>| (#[trigger] s[i]).path == rooted(
            root,
            rel,
        ),
    ensures
        vstd::relations::sorted_by(
            sort_entries_spec(regular_files(s)).map_values(
                |e: EntryView| rel_path_of(root, e.path),
            ),
            crate::order::lex_le_fn(),
        ),
{
    broadcast use vstd::seq_lib::group_to_multiset_ensures;
    broadcast use vstd::multiset::group_multiset_axioms;

    let t = sort_entries_spec(regular_files(s));
    lemma_sort_entries_sorted(regular_files(s));
    lemma_sort_entries_multiset(regular_files(s));
    lemma_regular_files_elems(s);
    let rels = t.map_values(|e: EntryView| rel_path_of(root, e.path));
    assert forall|i: int| 0 <= i < t.len() implies exists|rel: Seq<u8>| (#[trigger] t[i]).path
        == rooted(root, rel) by {
        assert(t.contains(t[i]));
        assert(t.to_multiset().count(t[i]) > 0);
        assert(regular_files(s).contains(t[i]));
        let k = choose|k: int| 0 <= k < regular_files(s).len() && regular_files(s)[k] == t[i];
        assert(s.contains(regular_files(s)[k]));
        let n = choose|n: int| 0 <= n < s.len() && s[n] == t[i];
        assert(exists|rel: Seq<u8>| s[n].path == rooted(root, rel));
    }
    assert forall|i: int, j: int| 0 <= i < j < rels.len() implies #[trigger] crate::order::lex_le_fn()(
        rels[i],
        rels[j],
    ) by {
        assert(entry_le_fn()(t[i], t[j]));
        let ri = choose|rel: Seq<u8>| t[i].path == rooted(root, rel);
        let rj = choose|rel: Seq<u8>| t[j].path == rooted(root, rel);
        assert(rooted(root, ri) =~= (root + seq![47u8]) + ri);
        assert(rooted(root, rj) =~= (root + seq![47u8]) + rj);
        crate::order::lemma_lex_le_prefix(root + seq![47u8], ri, rj);
        lemma_rel_path_rooted(root, ri);
        lemma_rel_path_rooted(root, rj);
    }
}

/// Computes the fingerprint of one package.
///
/// `root` is the package root path; `entries` are the filesystem entries
/// already selected for the package. Only regular files contribute. The
/// call fails — with the first unreadable file's path — exactly when some
/// regular file's content is missing, and otherwise returns the manifest
/// and the package digest described by `manifest_spec` and `digest_spec`.
pub fn hash_package(root: &Vec<u8>, entries: Vec<FileEntry>) -> (r: Result<
    Fingerprint,
    HashError,
>)
    ensures
        r is Ok <==> !has_unreadable(views(entries@)),
        r matches Ok(fp) ==> fp.manifest@ == manifest_spec(root@, views(entries@))
            && fp.digest@ == digest_spec(root@, views(entries@)) && fp.digest@.len() == 32,
        r matches Err(HashError::UnreadableFile { path }) ==> exists|i: int|
            unreadable_at(views(entries@), i) && path@ == views(entries@)[i].path && (forall|
                j: int,
            | 0 <= j < i ==> !unreadable_at(views(entries@), j)),
{
    let ghost s = views(entries@);
    let mut i: usize = 0;
    while i < entries.len()
        invariant
            i <= s.len(),
            s == views(entries@),
            s.len() == entries@.len(),
            forall|j: int| 0 <= j < i ==> !unreadable_at(s, j),
        decreases entries@.len() - i,
    {
        proof {
            assert(s[i as int] == entries@[i as int]@);
        }
        if entries[i].is_file && entries[i].content.is_none() {
            let path = clone_bytes(&entries[i].path);
            proof {
                assert(unreadable_at(s, i as int));
            }
            return Err(HashError::UnreadableFile { path });
        }
        i = i + 1;
    }
    proof {
        assert(!has_unreadable(s));
    }
    let files = filter_files(entries);
    let sorted = sort_entries(files);
    proof {
        let fs = regular_files(s);
        lemma_regular_files_elems(s);
        lemma_sort_entries_multiset(fs);
        broadcast use vstd::seq_lib::group_to_multiset_ensures;

        assert forall|k: int| 0 <= k < sorted@.len() implies (#[trigger] sorted@[k])@.content
            is Some by {
            let e = views(sorted@)[k];
            assert(views(sorted@).contains(e));
            assert(views(sorted@).to_multiset().count(e) > 0);
            assert(fs.to_multiset().count(e) > 0);
            assert(fs.contains(e));
            let m = choose|m: int| 0 <= m < fs.len() && fs[m] == e;
            assert(fs[m].is_file && s.contains(fs[m]));
            let n = choose|n: int| 0 <= n < s.len() && s[n] == e;
            assert(!unreadable_at(s, n));
            assert(sorted@[k]@ == e);
        }
    }
    let manifest = build_manifest(root, &sorted);
    let d = md5_digest(manifest.as_slice());
    proof {
        crate::digest::lemma_hex_chars_len(d@);
    }
    let digest = hex_string(&d);
    Ok(Fingerprint { digest, manifest })
}

} // verus!
