//! The tag index: one record per regular file found under the scan root,
//! tagged with the names of the directories between the root and the file.

use vstd::prelude::*;
use crate::path::{bytes_eq, components, components_of, contains_bytes, copy_bytes, seqs};

verus! {

/// `acc` followed by each element of `xs` that is not already there, in the
/// order of first appearance.
pub open spec fn add_unique(acc: Seq<Seq<u8>>, xs: Seq<Seq<u8>>) -> Seq<Seq<u8>>
    decreases xs.len(),
{
    if xs.len() == 0 {
        acc
    } else {
        let prev = add_unique(acc, xs.drop_last());
        if prev.contains(xs.last()) {
            prev
        } else {
            prev.push(xs.last())
        }
    }
}

/// The distinct elements of `xs`, in the order of first appearance.
pub open spec fn dedup(xs: Seq<Seq<u8>>) -> Seq<Seq<u8>> {
    add_unique(seq![], xs)
}

/// What the index knows of one regular file.
pub ghost struct TaggedFile {
    /// The base name, listed as the leaf entry.
    pub name: Seq<u8>,
    /// The canonical absolute path of the file.
    pub absolute: Seq<u8>,
    /// The size at scan time.
    pub size: u64,
    /// The distinct directory names between the root and the file.
    pub tags: Seq<Seq<u8>>,
}

/// The record of the file at `path` under the scan root `root`; none where
/// `path` does not lie strictly below `root`.
pub open spec fn entry_of(root: Seq<u8>, path: Seq<u8>, absolute: Seq<u8>, size: u64) -> Option<
    TaggedFile,
> {
    let rc = components(root);
    let pc = components(path);
    if rc.len() < pc.len() && pc.subrange(0, rc.len() as int) == rc {
        Some(
            TaggedFile {
                name: pc.last(),
                absolute,
                size,
                tags: dedup(pc.subrange(rc.len() as int, pc.len() - 1)),
            },
        )
    } else {
        None
    }
}

/// Metadata of one walked entry, as read from the filesystem.
pub struct FileMeta {
    pub is_file: bool,
    pub size: u64,
    /// The canonical absolute form of the entry's path.
    pub absolute: Vec<u8>,
}

/// One entry met by the walk of the tree: its path, and its metadata where it
/// could be read.
pub struct Walked {
    pub path: Vec<u8>,
    pub meta: Option<FileMeta>,
}

pub ghost struct MetaView {
    pub is_file: bool,
    pub size: u64,
    pub absolute: Seq<u8>,
}

pub ghost struct WalkedView {
    pub path: Seq<u8>,
    pub meta: Option<MetaView>,
}

impl View for Walked {
    type V = WalkedView;

    open spec fn view(&self) -> WalkedView {
        WalkedView {
            path: self.path@,
            meta: match self.meta {
                Some(m) => Some(MetaView { is_file: m.is_file, size: m.size, absolute: m.absolute@ }),
                None => None,
            },
        }
    }
}

/// The views of a sequence of walked entries.
pub open spec fn walked_views(w: Seq<Walked>) -> Seq<WalkedView> {
    w.map_values(|x: Walked| x@)
}

/// The record that a walked entry yields: only a regular file whose metadata
/// could be read yields one.
pub open spec fn processed(root: Seq<u8>, w: WalkedView) -> Option<TaggedFile> {
    match w.meta {
        Some(m) => if m.is_file {
            entry_of(root, w.path, m.absolute, m.size)
        } else {
            None
        },
        None => None,
    }
}

/// The records that a walk yields, in walk order.
pub open spec fn scanned(root: Seq<u8>, items: Seq<WalkedView>) -> Seq<TaggedFile>
    decreases items.len(),
{
    if items.len() == 0 {
        seq![]
    } else {
        let prev = scanned(root, items.drop_last());
        match processed(root, items.last()) {
            Some(f) => prev.push(f),
            None => prev,
        }
    }
}

/// Every tag of the given files, each once, in the order of first appearance.
pub open spec fn all_tags_of(files: Seq<TaggedFile>) -> Seq<Seq<u8>>
    decreases files.len(),
{
    if files.len() == 0 {
        seq![]
    } else {
        add_unique(all_tags_of(files.drop_last()), files.last().tags)
    }
}

/// The content of an index.
pub ghost struct IndexView {
    pub all_tags: Seq<Seq<u8>>,
    pub files: Seq<TaggedFile>,
}

/// Whether one of `files` has canonical path `p`.
pub open spec fn has_path(files: Seq<TaggedFile>, p: Seq<u8>) -> bool {
    exists|k: int| 0 <= k < files.len() && (#[trigger] files[k]).absolute == p
}

/// The files, each canonical path kept once: where a file is reached twice,
/// the first record stands.
pub open spec fn first_by_path(files: Seq<TaggedFile>) -> Seq<TaggedFile>
    decreases files.len(),
{
    if files.len() == 0 {
        seq![]
    } else {
        let prev = first_by_path(files.drop_last());
        if has_path(prev, files.last().absolute) {
            prev
        } else {
            prev.push(files.last())
        }
    }
}

/// The index that a walk under `root` yields.
pub open spec fn index_of(root: Seq<u8>, items: Seq<WalkedView>) -> IndexView {
    let files = first_by_path(scanned(root, items));
    IndexView { all_tags: all_tags_of(files), files }
}

/// Appends to `acc` each element of `xs` that it does not hold yet.
pub fn add_unique_exec(acc: &mut Vec<Vec<u8>>, xs: &Vec<Vec<u8>>)
    ensures
        seqs(final(acc)@) == add_unique(seqs(old(acc)@), seqs(xs@)),
{
    let ghost start = seqs(acc@);
    let mut i: usize = 0;
    assert(seqs(xs@).take(0) =~= seq![]);
    while i < xs.len()
        invariant
            i <= xs@.len(),
            seqs(acc@) == add_unique(start, seqs(xs@).take(i as int)),
        decreases xs@.len() - i,
    {
        assert(seqs(xs@).take(i + 1).drop_last() =~= seqs(xs@).take(i as int));
        assert(seqs(xs@).take(i + 1).last() == xs@[i as int]@);
        if !contains_bytes(acc, &xs[i]) {
            let ghost before = acc@;
            acc.push(copy_bytes(&xs[i]));
            assert(seqs(acc@) =~= seqs(before).push(xs@[i as int]@));
        }
        i += 1;
    }
    assert(seqs(xs@).take(xs@.len() as int) =~= seqs(xs@));
}

/// A copy of the byte strings `v[lo..hi]`.
fn copy_range(v: &Vec<Vec<u8>>, lo: usize, hi: usize) -> (r: Vec<Vec<u8>>)
    requires
        lo <= hi <= v@.len(),
    ensures
        seqs(r@) == seqs(v@).subrange(lo as int, hi as int),
{
    let mut r: Vec<Vec<u8>> = Vec::new();
    let mut i: usize = lo;
    while i < hi
        invariant
            lo <= i <= hi <= v@.len(),
            seqs(r@) == seqs(v@).subrange(lo as int, i as int),
        decreases hi - i,
    {
        let ghost before = r@;
        r.push(copy_bytes(&v[i]));
        assert(seqs(r@) =~= seqs(before).push(v@[i as int]@));
        assert(seqs(v@).subrange(lo as int, i + 1) =~= seqs(v@).subrange(lo as int, i as int).push(
            v@[i as int]@,
        ));
        i += 1;
    }
    r
}

/// One regular file of the index.
pub struct TagFSEntry {
    name: Vec<u8>,
    absolute: Vec<u8>,
    size: u64,
    tags: Vec<Vec<u8>>,
}

impl TagFSEntry {
    /// The base name of the file.
    pub fn name(&self) -> (r: &Vec<u8>)
        ensures
            r@ == self@.name,
    {
        &self.name
    }

    /// The canonical absolute path of the file.
    pub fn absolute(&self) -> (r: &Vec<u8>)
        ensures
            r@ == self@.absolute,
    {
        &self.absolute
    }

    /// The tags of the file.
    pub fn tags(&self) -> (r: &Vec<Vec<u8>>)
        ensures
            seqs(r@) == self@.tags,
    {
        &self.tags
    }
}

impl View for TagFSEntry {
    type V = TaggedFile;

    closed spec fn view(&self) -> TaggedFile {
        TaggedFile {
            name: self.name@,
            absolute: self.absolute@,
            size: self.size,
            tags: seqs(self.tags@),
        }
    }
}

impl TagFSEntry {
    /// The record of the regular file at `path`, found by a walk from `root`,
    /// whose canonical form is `absolute`. Its tags are the directory names
    /// between `root` and the file; there is none where `path` does not lie
    /// below `root`.
    pub fn new(root: &Vec<u8>, path: &Vec<u8>, absolute: Vec<u8>, size: u64) -> (r: Option<
        TagFSEntry,
    >)
        ensures
            match r {
                Some(e) => entry_of(root@, path@, absolute@, size) == Some(e@),
                None => entry_of(root@, path@, absolute@, size) is None,
            },
    {
        let rc = components_of(root);
        let pc = components_of(path);
        if pc.len() <= rc.len() {
            return None;
        }
        let mut k: usize = 0;
        while k < rc.len()
            invariant
                k <= rc@.len() < pc@.len(),
                seqs(rc@) == components(root@),
                seqs(pc@) == components(path@),
                forall|j: int| 0 <= j < k ==> seqs(rc@)[j] == seqs(pc@)[j],
            decreases rc@.len() - k,
        {
            if !bytes_eq(&rc[k], &pc[k]) {
                assert(seqs(rc@)[k as int] == rc@[k as int]@);
                assert(seqs(pc@)[k as int] == pc@[k as int]@);
                assert(seqs(pc@).subrange(0, rc@.len() as int)[k as int] != seqs(rc@)[k as int]);
                return None;
            }
            assert(seqs(rc@)[k as int] == rc@[k as int]@);
            assert(seqs(pc@)[k as int] == pc@[k as int]@);
            k += 1;
        }
        assert(seqs(pc@).subrange(0, rc@.len() as int) =~= seqs(rc@));
        let between = copy_range(&pc, rc.len(), pc.len() - 1);
        let mut tags: Vec<Vec<u8>> = Vec::new();
        assert(seqs(tags@) =~= seq![]);
        add_unique_exec(&mut tags, &between);
        let name = copy_bytes(&pc[pc.len() - 1]);
        let e = TagFSEntry { name, absolute, size, tags };
        assert(e@ == entry_of(root@, path@, absolute@, size).unwrap());
        Some(e)
    }
}

/// The record that one walked entry yields: only a regular file whose
/// metadata could be read yields one.
pub fn process(root: &Vec<u8>, w: &Walked) -> (r: Option<TagFSEntry>)
    ensures
        match r {
            Some(e) => processed(root@, w@) == Some(e@),
            None => processed(root@, w@) is None,
        },
{
    match &w.meta {
        Some(m) => {
            if m.is_file {
                TagFSEntry::new(root, &w.path, copy_bytes(&m.absolute), m.size)
            } else {
                None
            }
        },
        None => None,
    }
}

/// The views of a sequence of entries.
pub open spec fn entry_views(v: Seq<TagFSEntry>) -> Seq<TaggedFile> {
    v.map_values(|e: TagFSEntry| e@)
}

/// The records of the walked entries under `root`, in walk order. Entries
/// that are not regular files, or whose metadata could not be read, are
/// skipped.
pub fn scan(root: &Vec<u8>, walked: &Vec<Walked>) -> (r: Vec<TagFSEntry>)
    ensures
        entry_views(r@) == scanned(root@, walked_views(walked@)),
{
    let mut out: Vec<TagFSEntry> = Vec::new();
    let mut i: usize = 0;
    while i < walked.len()
        invariant
            i <= walked@.len(),
            entry_views(out@) == scanned(root@, walked_views(walked@).take(i as int)),
        decreases walked@.len() - i,
    {
        let ghost items = walked_views(walked@);
        assert(items.take(i + 1).drop_last() =~= items.take(i as int));
        assert(items.take(i + 1).last() == walked@[i as int]@);
        match process(root, &walked[i]) {
            Some(e) => {
                let ghost before = out@;
                out.push(e);
                assert(entry_views(out@) =~= entry_views(before).push(e@));
            },
            None => {},
        }
        i += 1;
    }
    assert(walked_views(walked@).take(walked@.len() as int) =~= walked_views(walked@));
    out
}

} // verus!
