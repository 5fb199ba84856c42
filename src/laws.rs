//! What holds of every index and every listing.

use vstd::prelude::*;
use crate::attr::{instant, kind_of_mode, translated, FileKind, NativeStat};
use crate::index::{
    add_unique, all_tags_of, first_by_path, has_path, index_of, processed, scanned, IndexView, TaggedFile,
    WalkedView,
};
use crate::path::components;
use crate::naming::{escaped, lemma_escaped_no_tilde, lemma_suffix_determined, lemma_unescape};
use crate::tagfs::{
    collides, disambiguated, distinct_paths, filter_of, leaf_name, leaf_names_distinct, leaves,
    lemma_longest, listed, listing, longest_name, pad_len, qualifies, subdirs,
};

verus! {

/// Two synthetic paths that name the same tags, in whatever order and with
/// whatever repetition, list the same directory.
pub proof fn lemma_order_independence(v: IndexView, p: Seq<u8>, q: Seq<u8>)
    requires
        components(p).to_set() == components(q).to_set(),
    ensures
        listing(v, filter_of(p)) == listing(v, filter_of(q)),
{
}

/// File `i` is among the first `n` listed under a filter exactly when it is
/// one of the first `n` files and carries every tag of the filter.
proof fn lemma_listed(files: Seq<TaggedFile>, filter: Set<Seq<u8>>, n: nat, i: int)
    requires
        n <= files.len(),
    ensures
        listed(files, filter, n).contains(i) <==> (0 <= i < n && qualifies(files[i], filter)),
    decreases n,
{
    if n > 0 {
        lemma_listed(files, filter, (n - 1) as nat, i);
        let prev = listed(files, filter, (n - 1) as nat);
        if qualifies(files[n - 1], filter) {
            assert(prev.push(n - 1)[prev.len() as int] == n - 1);
            if prev.push(n - 1).contains(i) && i != n - 1 {
                let k = choose|k: int| 0 <= k < prev.len() + 1 && #[trigger] prev.push(n - 1)[k] == i;
                assert(prev[k] == i);
            }
            if prev.contains(i) {
                let k = choose|k: int| 0 <= k < prev.len() && prev[k] == i;
                assert(prev.push(n - 1)[k] == i);
            }
        }
    }
}

/// A file is listed under a filter exactly when it carries every tag of the
/// filter; under the empty filter, at the root, every file is listed.
pub proof fn lemma_subset_visibility(files: Seq<TaggedFile>, filter: Set<Seq<u8>>, i: int)
    requires
        0 <= i < files.len(),
    ensures
        listed(files, filter, files.len()).contains(i) <==> filter.subset_of(files[i].tags.to_set()),
        listed(files, Set::empty(), files.len()).contains(i),
        leaves(files, filter).len() == listed(files, filter, files.len()).len(),
{
    lemma_listed(files, filter, files.len(), i);
    lemma_listed(files, Set::empty(), files.len(), i);
}

/// A file with no tags, one that lies directly under the scan root, is
/// listed at the root.
pub proof fn lemma_untagged_at_root(files: Seq<TaggedFile>, i: int)
    requires
        0 <= i < files.len(),
        files[i].tags.len() == 0,
    ensures
        listed(files, Set::empty(), files.len()).contains(i),
{
    lemma_listed(files, Set::empty(), files.len(), i);
}

/// The sub-directory entries under a filter are the tags not in it.
proof fn lemma_subdirs(tags: Seq<Seq<u8>>, filter: Set<Seq<u8>>, t: Seq<u8>, kind: FileKind)
    ensures
        subdirs(tags, filter).contains((t, kind)) <==> (kind == FileKind::Directory
            && tags.contains(t) && !filter.contains(t)),
    decreases tags.len(),
{
    if tags.len() > 0 {
        let rest = tags.drop_last();
        lemma_subdirs(rest, filter, t, kind);
        let prev = subdirs(rest, filter);
        assert(tags =~= rest.push(tags.last()));
        if tags.contains(t) && t != tags.last() {
            let k = choose|k: int| 0 <= k < tags.len() && tags[k] == t;
            assert(rest[k] == t);
        }
        if rest.contains(t) {
            let k = choose|k: int| 0 <= k < rest.len() && rest[k] == t;
            assert(tags[k] == t);
        }
        if !filter.contains(tags.last()) {
            let e = (tags.last(), FileKind::Directory);
            assert(prev.push(e)[prev.len() as int] == e);
            if prev.push(e).contains((t, kind)) && (t, kind) != e {
                let k = choose|k: int| 0 <= k < prev.len() + 1 && #[trigger] prev.push(e)[k] == (t, kind);
                assert(prev[k] == (t, kind));
            }
            if prev.contains((t, kind)) {
                let k = choose|k: int| 0 <= k < prev.len() && prev[k] == (t, kind);
                assert(prev.push(e)[k] == (t, kind));
            }
        }
    }
}

/// The names that a listing shows as sub-directories.
pub open spec fn dir_names(entries: Seq<(Seq<u8>, FileKind)>) -> Set<Seq<u8>> {
    Set::new(|t: Seq<u8>| entries.contains((t, FileKind::Directory)))
}

/// Under filter `filter` the sub-directories are exactly the known tags
/// outside it; at the root, exactly the known tags.
pub proof fn lemma_tag_exhaustiveness(v: IndexView, filter: Set<Seq<u8>>)
    ensures
        dir_names(listing(v, filter)) == v.all_tags.to_set().difference(filter),
        dir_names(listing(v, Set::empty())) == v.all_tags.to_set(),
{
    assert forall|f: Set<Seq<u8>>|
        dir_names(#[trigger] listing(v, f)) == v.all_tags.to_set().difference(f) by {
        let l = listing(v, f);
        let s = subdirs(v.all_tags, f);
        let lv = leaves(v.files, f);
        assert forall|t: Seq<u8>| l.contains((t, FileKind::Directory)) <==> s.contains(
            (t, FileKind::Directory),
        ) by {
            if l.contains((t, FileKind::Directory)) {
                let k = choose|k: int| 0 <= k < l.len() && l[k] == (t, FileKind::Directory);
                if k >= s.len() {
                    assert(lv[k - s.len()] == l[k]);
                    assert(lv[k - s.len()].1 == FileKind::RegularFile);
                } else {
                    assert(s[k] == l[k]);
                }
            }
            if s.contains((t, FileKind::Directory)) {
                let k = choose|k: int| 0 <= k < s.len() && s[k] == (t, FileKind::Directory);
                assert(l[k] == s[k]);
            }
        }
        assert forall|t: Seq<u8>| #[trigger] dir_names(l).contains(t) <==> v.all_tags.to_set().difference(
            f,
        ).contains(t) by {
            lemma_subdirs(v.all_tags, f, t, FileKind::Directory);
        }
        assert(dir_names(l) =~= v.all_tags.to_set().difference(f));
    }
    assert(v.all_tags.to_set().difference(Set::empty()) =~= v.all_tags.to_set());
}

/// What `add_unique` holds: the elements of both, each once if `acc` held
/// each once.
pub proof fn lemma_add_unique(acc: Seq<Seq<u8>>, xs: Seq<Seq<u8>>)
    ensures
        forall|t: Seq<u8>| #[trigger] add_unique(acc, xs).contains(t) <==> (acc.contains(t) || xs.contains(t)),
        acc.no_duplicates() ==> add_unique(acc, xs).no_duplicates(),
    decreases xs.len(),
{
    if xs.len() > 0 {
        let rest = xs.drop_last();
        lemma_add_unique(acc, rest);
        let prev = add_unique(acc, rest);
        assert(xs =~= rest.push(xs.last()));
        assert forall|t: Seq<u8>| #[trigger] add_unique(acc, xs).contains(t) <==> (acc.contains(t)
            || xs.contains(t)) by {
            if xs.contains(t) && t != xs.last() {
                let k = choose|k: int| 0 <= k < xs.len() && xs[k] == t;
                assert(rest[k] == t);
            }
            if rest.contains(t) {
                let k = choose|k: int| 0 <= k < rest.len() && rest[k] == t;
                assert(xs[k] == t);
            }
            if !prev.contains(xs.last()) {
                assert(prev.push(xs.last())[prev.len() as int] == xs.last());
                if prev.push(xs.last()).contains(t) && t != xs.last() {
                    let k = choose|k: int| 0 <= k < prev.len() + 1 && prev.push(xs.last())[k] == t;
                    assert(prev[k] == t);
                }
                if prev.contains(t) {
                    let k = choose|k: int| 0 <= k < prev.len() && prev[k] == t;
                    assert(prev.push(xs.last())[k] == t);
                }
            }
        }
    }
}

/// The known tags are each tag of some file, each once.
pub proof fn lemma_all_tags(files: Seq<TaggedFile>)
    ensures
        all_tags_of(files).no_duplicates(),
        forall|t: Seq<u8>| #[trigger] all_tags_of(files).contains(t) <==> exists|i: int|
            0 <= i < files.len() && (#[trigger] files[i]).tags.contains(t),
    decreases files.len(),
{
    if files.len() > 0 {
        let rest = files.drop_last();
        lemma_all_tags(rest);
        lemma_add_unique(all_tags_of(rest), files.last().tags);
        assert forall|t: Seq<u8>| #[trigger] all_tags_of(files).contains(t) <==> exists|i: int|
            0 <= i < files.len() && (#[trigger] files[i]).tags.contains(t) by {
            if all_tags_of(rest).contains(t) {
                let i = choose|i: int| 0 <= i < rest.len() && (#[trigger] rest[i]).tags.contains(t);
                assert(files[i] == rest[i]);
            }
            if exists|i: int| 0 <= i < files.len() && (#[trigger] files[i]).tags.contains(t) {
                let i = choose|i: int| 0 <= i < files.len() && (#[trigger] files[i]).tags.contains(t);
                if i < files.len() - 1 {
                    assert(rest[i] == files[i]);
                }
            }
        }
    }
}

/// A walk yields record `f` exactly when one of its entries yields it.
proof fn lemma_scanned(root: Seq<u8>, items: Seq<WalkedView>, f: TaggedFile)
    ensures
        scanned(root, items).contains(f) <==> exists|k: int|
            0 <= k < items.len() && processed(root, #[trigger] items[k]) == Some(f),
    decreases items.len(),
{
    if items.len() > 0 {
        let rest = items.drop_last();
        lemma_scanned(root, rest, f);
        let prev = scanned(root, rest);
        if exists|k: int| 0 <= k < rest.len() && processed(root, #[trigger] rest[k]) == Some(f) {
            let k = choose|k: int| 0 <= k < rest.len() && processed(root, #[trigger] rest[k]) == Some(f);
            assert(items[k] == rest[k]);
        }
        if exists|k: int| 0 <= k < items.len() && processed(root, #[trigger] items[k]) == Some(f) {
            let k = choose|k: int| 0 <= k < items.len() && processed(root, #[trigger] items[k]) == Some(f);
            if k < items.len() - 1 {
                assert(rest[k] == items[k]);
            }
        }
        match processed(root, items.last()) {
            Some(g) => {
                assert(prev.push(g)[prev.len() as int] == g);
                if prev.push(g).contains(f) && f != g {
                    let k = choose|k: int| 0 <= k < prev.len() + 1 && #[trigger] prev.push(g)[k] == f;
                    assert(prev[k] == f);
                }
                if prev.contains(f) {
                    let k = choose|k: int| 0 <= k < prev.len() && prev[k] == f;
                    assert(prev.push(g)[k] == f);
                }
            },
            None => {},
        }
    }
}

/// Two walks of an unchanged tree, meeting the same entries in whatever
/// order, give the same files with the same tags, and the same known tags;
/// provided the walk does not reach one file under two different records
/// (where it does, which record is kept depends on the order).
pub proof fn lemma_scan_idempotent(root: Seq<u8>, a: Seq<WalkedView>, b: Seq<WalkedView>)
    requires
        a.to_set() == b.to_set(),
        forall|f: TaggedFile, g: TaggedFile|
            #[trigger] scanned(root, a).contains(f) && #[trigger] scanned(root, a).contains(g)
                && f.absolute == g.absolute ==> f == g,
    ensures
        index_of(root, a).files.to_set() == index_of(root, b).files.to_set(),
        index_of(root, a).all_tags.to_set() == index_of(root, b).all_tags.to_set(),
{
    let fa = scanned(root, a);
    let fb = scanned(root, b);
    assert forall|f: TaggedFile| fa.contains(f) <==> fb.contains(f) by {
        lemma_scanned(root, a, f);
        lemma_scanned(root, b, f);
        if exists|k: int| 0 <= k < a.len() && processed(root, #[trigger] a[k]) == Some(f) {
            let k = choose|k: int| 0 <= k < a.len() && processed(root, #[trigger] a[k]) == Some(f);
            assert(a.to_set().contains(a[k]));
            assert(b.contains(a[k]));
        }
        if exists|k: int| 0 <= k < b.len() && processed(root, #[trigger] b[k]) == Some(f) {
            let k = choose|k: int| 0 <= k < b.len() && processed(root, #[trigger] b[k]) == Some(f);
            assert(b.to_set().contains(b[k]));
            assert(a.contains(b[k]));
        }
    }
    assert(fa.to_set() =~= fb.to_set());
    lemma_first_by_path_set(fa);
    lemma_first_by_path_set(fb);
    let (ra, rb) = (fa, fb);
    let fa = first_by_path(ra);
    let fb = first_by_path(rb);
    assert(fa.to_set() =~= fb.to_set());
    lemma_all_tags(fa);
    lemma_all_tags(fb);
    assert forall|t: Seq<u8>| all_tags_of(fa).contains(t) <==> all_tags_of(fb).contains(t) by {
        if exists|i: int| 0 <= i < fa.len() && (#[trigger] fa[i]).tags.contains(t) {
            let i = choose|i: int| 0 <= i < fa.len() && (#[trigger] fa[i]).tags.contains(t);
            assert(fa.contains(fa[i]));
            assert(fa.to_set().contains(fa[i]));
            assert(fb.to_set().contains(fa[i]));
            let j = choose|j: int| 0 <= j < fb.len() && fb[j] == fa[i];
            assert(fb[j].tags.contains(t));
        }
        if exists|i: int| 0 <= i < fb.len() && (#[trigger] fb[i]).tags.contains(t) {
            let i = choose|i: int| 0 <= i < fb.len() && (#[trigger] fb[i]).tags.contains(t);
            assert(fb.contains(fb[i]));
            assert(fb.to_set().contains(fb[i]));
            assert(fa.to_set().contains(fb[i]));
            let j = choose|j: int| 0 <= j < fa.len() && fa[j] == fb[i];
            assert(fa[j].tags.contains(t));
        }
    }
    assert(all_tags_of(fa).to_set() =~= all_tags_of(fb).to_set());
}

/// A name set apart is longer than every file name of the index.
proof fn lemma_disambiguated_long(files: Seq<TaggedFile>, i: int, j: int)
    requires
        0 <= i < files.len(),
        0 <= j < files.len(),
    ensures
        disambiguated(files, files[i]).len() > files[j].name.len(),
{
    lemma_longest(files, j);
}

/// Two files listed under one filter are listed under different names,
/// provided no two files of the index share a canonical path.
pub proof fn lemma_leaf_names_distinct(files: Seq<TaggedFile>, filter: Set<Seq<u8>>, i: int, j: int)
    requires
        distinct_paths(files),
        0 <= i < files.len(),
        0 <= j < files.len(),
        i != j,
        qualifies(files[i], filter),
        qualifies(files[j], filter),
    ensures
        leaf_name(files, filter, i) != leaf_name(files, filter, j),
{
    let ci = collides(files, filter, i);
    let cj = collides(files, filter, j);
    if ci && cj {
        let l = longest_name(files);
        let (fi, fj) = (files[i], files[j]);
        if disambiguated(files, fi) == disambiguated(files, fj) {
            lemma_escaped_no_tilde(fi.absolute);
            lemma_escaped_no_tilde(fj.absolute);
            lemma_suffix_determined(
                fi.name,
                pad_len(l, fi.name, fi.absolute),
                escaped(fi.absolute),
                fj.name,
                pad_len(l, fj.name, fj.absolute),
                escaped(fj.absolute),
            );
            lemma_unescape(fi.absolute);
            lemma_unescape(fj.absolute);
            assert(files[i].absolute == files[j].absolute);
        }
    } else if ci {
        lemma_disambiguated_long(files, i, j);
    } else if cj {
        lemma_disambiguated_long(files, j, i);
    } else {
        if files[i].name == files[j].name {
            assert(qualifies(files[j], filter));
            assert(collides(files, filter, i));
        }
    }
}

/// The indices listed below `n` are ascending and below `n`.
proof fn lemma_listed_sorted(files: Seq<TaggedFile>, filter: Set<Seq<u8>>, n: nat)
    requires
        n <= files.len(),
    ensures
        forall|a: int| 0 <= a < listed(files, filter, n).len() ==> 0 <= #[trigger] listed(files, filter, n)[a] < n,
        forall|a: int, b: int|
            0 <= a < b < listed(files, filter, n).len() ==> #[trigger] listed(files, filter, n)[a]
                < #[trigger] listed(files, filter, n)[b],
    decreases n,
{
    if n > 0 {
        lemma_listed_sorted(files, filter, (n - 1) as nat);
        let prev = listed(files, filter, (n - 1) as nat);
        let cur = listed(files, filter, n);
        if qualifies(files[n - 1], filter) {
            assert(cur == prev.push(n - 1));
            assert forall|a: int| 0 <= a < cur.len() implies 0 <= #[trigger] cur[a] < n by {
                if a < prev.len() {
                    assert(cur[a] == prev[a]);
                }
            }
            assert forall|a: int, b: int| 0 <= a < b < cur.len() implies #[trigger] cur[a]
                < #[trigger] cur[b] by {
                assert(cur[a] == prev[a]);
                if b < prev.len() {
                    assert(cur[b] == prev[b]);
                }
            }
        } else {
            assert(cur == prev);
            assert forall|a: int| 0 <= a < cur.len() implies 0 <= #[trigger] cur[a] < n by {
                assert(cur[a] == prev[a]);
            }
        }
    }
}

/// The files of a listing are listed under pairwise distinct names, provided
/// no two files of the index share a canonical path.
pub proof fn lemma_listing_distinct(v: IndexView, filter: Set<Seq<u8>>)
    requires
        distinct_paths(v.files),
    ensures
        leaf_names_distinct(listing(v, filter)),
{
    let l = listing(v, filter);
    let s = subdirs(v.all_tags, filter);
    let lv = leaves(v.files, filter);
    let idx = listed(v.files, filter, v.files.len());
    lemma_listed_sorted(v.files, filter, v.files.len());
    assert forall|a: int, b: int|
        0 <= a < b < l.len() && l[a].1 == FileKind::RegularFile && l[b].1
            == FileKind::RegularFile implies #[trigger] l[a].0 != #[trigger] l[b].0 by {
        if a < s.len() {
            assert(s.contains(s[a]));
            lemma_subdirs(v.all_tags, filter, s[a].0, s[a].1);
            assert(l[a] == s[a]);
        } else if b < s.len() {
            assert(s.contains(s[b]));
            lemma_subdirs(v.all_tags, filter, s[b].0, s[b].1);
            assert(l[b] == s[b]);
        } else {
            let (x, y) = (a - s.len(), b - s.len());
            assert(l[a] == lv[x] && l[b] == lv[y]);
            let (i, j) = (idx[x], idx[y]);
            assert(i < j);
            assert(idx.contains(i) && idx.contains(j));
            lemma_listed(v.files, filter, v.files.len(), i);
            lemma_listed(v.files, filter, v.files.len(), j);
            lemma_leaf_names_distinct(v.files, filter, i, j);
        }
    }
}

/// Keeping each canonical path once leaves files of pairwise distinct paths,
/// each one of the given files, and one for every path among them.
pub proof fn lemma_first_by_path(files: Seq<TaggedFile>)
    ensures
        distinct_paths(first_by_path(files)),
        forall|f: TaggedFile| #[trigger] first_by_path(files).contains(f) ==> files.contains(f),
        forall|i: int| 0 <= i < files.len() ==> has_path(first_by_path(files), #[trigger] files[i].absolute),
    decreases files.len(),
{
    if files.len() > 0 {
        let rest = files.drop_last();
        lemma_first_by_path(rest);
        let prev = first_by_path(rest);
        let cur = first_by_path(files);
        let x = files.last();
        assert forall|f: TaggedFile| #[trigger] cur.contains(f) implies files.contains(f) by {
            if prev.contains(f) {
                let k = choose|k: int| 0 <= k < rest.len() && rest[k] == f;
                assert(files[k] == f);
            } else {
                assert(f == x);
                assert(files[files.len() - 1] == x);
            }
        }
        assert forall|i: int| 0 <= i < files.len() implies has_path(cur, #[trigger] files[i].absolute) by {
            if i < files.len() - 1 {
                assert(rest[i] == files[i]);
                assert(has_path(prev, rest[i].absolute));
                let k = choose|k: int| 0 <= k < prev.len() && (#[trigger] prev[k]).absolute == rest[i].absolute;
                assert(cur[k] == prev[k]);
            } else if !has_path(prev, x.absolute) {
                assert(cur[prev.len() as int] == x);
            }
        }
        if !has_path(prev, x.absolute) {
            assert forall|i: int, j: int|
                0 <= i < cur.len() && 0 <= j < cur.len() && i != j implies #[trigger] cur[i].absolute
                    != #[trigger] cur[j].absolute by {
                if i < prev.len() && j < prev.len() {
                    assert(cur[i] == prev[i] && cur[j] == prev[j]);
                } else if i < prev.len() {
                    assert(cur[i] == prev[i]);
                } else {
                    assert(cur[j] == prev[j]);
                }
            }
        }
    }
}

/// Where each canonical path belongs to one record, keeping each path once
/// keeps every record.
proof fn lemma_first_by_path_set(files: Seq<TaggedFile>)
    requires
        forall|f: TaggedFile, g: TaggedFile|
            #[trigger] files.contains(f) && #[trigger] files.contains(g) && f.absolute == g.absolute
                ==> f == g,
    ensures
        first_by_path(files).to_set() == files.to_set(),
{
    lemma_first_by_path(files);
    let r = first_by_path(files);
    assert forall|f: TaggedFile| r.contains(f) <==> files.contains(f) by {
        if files.contains(f) {
            let i = choose|i: int| 0 <= i < files.len() && files[i] == f;
            assert(has_path(r, files[i].absolute));
            let k = choose|k: int| 0 <= k < r.len() && (#[trigger] r[k]).absolute == f.absolute;
            assert(r.contains(r[k]));
            assert(files.contains(r[k]));
        }
    }
    assert(r.to_set() =~= files.to_set());
}

/// The record of a file, as `getattr` answers after the native stat, has
/// the size, block count and times of that stat: each time is its seconds
/// and nanoseconds since the epoch; only the creation time, which the stat
/// lacks, is the epoch.
pub proof fn lemma_attribute_round_trip(st: NativeStat)
    requires
        kind_of_mode(st.mode) is Some,
    ensures
        ({
            let a = translated(st, kind_of_mode(st.mode).unwrap());
            &&& a.size == st.size
            &&& a.blocks == st.blocks
            &&& a.atime == instant(st.atime, st.atime_nsec)
            &&& a.mtime == instant(st.mtime, st.mtime_nsec)
            &&& a.ctime == instant(st.ctime, st.ctime_nsec)
            &&& a.crtime == 0
        }),
{
    assert(-0x8000_0000_0000_0000 * 1_000_000_000 <= st.atime * 1_000_000_000 <= 0x7fff_ffff_ffff_ffff
        * 1_000_000_000) by (nonlinear_arith)
        requires
            -0x8000_0000_0000_0000 <= st.atime <= 0x7fff_ffff_ffff_ffff,
    ;
    assert(-0x8000_0000_0000_0000 * 1_000_000_000 <= st.mtime * 1_000_000_000 <= 0x7fff_ffff_ffff_ffff
        * 1_000_000_000) by (nonlinear_arith)
        requires
            -0x8000_0000_0000_0000 <= st.mtime <= 0x7fff_ffff_ffff_ffff,
    ;
    assert(-0x8000_0000_0000_0000 * 1_000_000_000 <= st.ctime * 1_000_000_000 <= 0x7fff_ffff_ffff_ffff
        * 1_000_000_000) by (nonlinear_arith)
        requires
            -0x8000_0000_0000_0000 <= st.ctime <= 0x7fff_ffff_ffff_ffff,
    ;
}

} // verus!
