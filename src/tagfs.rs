//! The filesystem over the tag index: which directories and files a path
//! shows, and the answers to the protocol's operations.

use vstd::prelude::*;
use crate::attr::{directory_attr, directory_stub, stat_to_fuse, translated, kind_of_mode, Attr, FileKind, NativeStat};
use crate::error::FsError;
use crate::index::{
    add_unique_exec, all_tags_of, entry_views, first_by_path, has_path, index_of, scan, walked_views,
    IndexView, TagFSEntry, TaggedFile, Walked,
};
use crate::xattr::{name_list, name_list_bytes, value_bytes, value_of, XattrReply};
use crate::laws::{lemma_all_tags, lemma_first_by_path, lemma_listing_distinct};
use crate::naming::{append_escaped, escaped, pad, TILDE};
use crate::path::{bytes_eq, components, components_of, contains_bytes, copy_bytes, is_subset, seqs};

verus! {

/// Seconds for which the kernel may keep an attribute record.
pub const TTL_SECS: u64 = 1;

/// The tag filter of a synthetic path: the set of its named components.
pub open spec fn filter_of(path: Seq<u8>) -> Set<Seq<u8>> {
    components(path).to_set()
}

/// Whether a file shows under a filter: it carries every tag of it.
pub open spec fn qualifies(f: TaggedFile, filter: Set<Seq<u8>>) -> bool {
    filter.subset_of(f.tags.to_set())
}

/// The sub-directory entries under a filter: the tags not in it, in order.
pub open spec fn subdirs(tags: Seq<Seq<u8>>, filter: Set<Seq<u8>>) -> Seq<(Seq<u8>, FileKind)>
    decreases tags.len(),
{
    if tags.len() == 0 {
        seq![]
    } else {
        let prev = subdirs(tags.drop_last(), filter);
        if filter.contains(tags.last()) {
            prev
        } else {
            prev.push((tags.last(), FileKind::Directory))
        }
    }
}

/// Whether another file that shows under the filter has the name of file `i`.
pub open spec fn collides(files: Seq<TaggedFile>, filter: Set<Seq<u8>>, i: int) -> bool {
    exists|j: int|
        0 <= j < files.len() && j != i && qualifies(#[trigger] files[j], filter) && files[j].name
            == files[i].name
}

/// The length of the longest file name of the index.
pub open spec fn longest_name(files: Seq<TaggedFile>) -> nat
    decreases files.len(),
{
    if files.len() == 0 {
        0
    } else {
        let p = longest_name(files.drop_last());
        if files.last().name.len() > p {
            files.last().name.len()
        } else {
            p
        }
    }
}

/// How many `~` stand between a file's name and its suffix: at least one,
/// and enough that the whole is longer than any file name of the index.
pub open spec fn pad_len(longest: nat, name: Seq<u8>, absolute: Seq<u8>) -> nat {
    let used = name.len() + escaped(absolute).len();
    if used <= longest {
        (longest + 1 - used) as nat
    } else {
        1
    }
}

/// The name of a file set apart by its canonical path: the name, one or
/// more `~`, and the escaped path. It is longer than every file name of the
/// index, and the escaped path, read back, gives the canonical path.
pub open spec fn disambiguated(files: Seq<TaggedFile>, f: TaggedFile) -> Seq<u8> {
    f.name + pad(pad_len(longest_name(files), f.name, f.absolute)) + escaped(f.absolute)
}

/// The name under which file `i` is listed under a filter: its own name,
/// unless another listed file has that name too.
pub open spec fn leaf_name(files: Seq<TaggedFile>, filter: Set<Seq<u8>>, i: int) -> Seq<u8> {
    if collides(files, filter, i) {
        disambiguated(files, files[i])
    } else {
        files[i].name
    }
}

/// The indices, below `n`, of the files that show under a filter, ascending.
pub open spec fn listed(files: Seq<TaggedFile>, filter: Set<Seq<u8>>, n: nat) -> Seq<int>
    decreases n,
{
    if n == 0 || n > files.len() {
        seq![]
    } else {
        let prev = listed(files, filter, (n - 1) as nat);
        if qualifies(files[n - 1], filter) {
            prev.push(n - 1)
        } else {
            prev
        }
    }
}

/// The leaf entries for the files at the given indices.
pub open spec fn leaf_entries(files: Seq<TaggedFile>, filter: Set<Seq<u8>>, idx: Seq<int>) -> Seq<
    (Seq<u8>, FileKind),
> {
    idx.map_values(|i: int| (leaf_name(files, filter, i), FileKind::RegularFile))
}

/// The leaf entries under a filter.
pub open spec fn leaves(files: Seq<TaggedFile>, filter: Set<Seq<u8>>) -> Seq<(Seq<u8>, FileKind)> {
    leaf_entries(files, filter, listed(files, filter, files.len()))
}

/// The content of the directory of a filter: sub-directories, then leaves.
pub open spec fn listing(v: IndexView, filter: Set<Seq<u8>>) -> Seq<(Seq<u8>, FileKind)> {
    subdirs(v.all_tags, filter) + leaves(v.files, filter)
}

/// Whether named components denote a tag directory: each is a known tag.
pub open spec fn is_dir_path(v: IndexView, cs: Seq<Seq<u8>>) -> bool {
    forall|k: int| 0 <= k < cs.len() ==> v.all_tags.contains(#[trigger] cs[k])
}

/// Whether file `j` is listed, under the filter of all components but the
/// last, by the name of the last one.
pub open spec fn names_leaf(v: IndexView, cs: Seq<Seq<u8>>, j: int) -> bool {
    let filter = cs.drop_last().to_set();
    0 <= j < v.files.len() && qualifies(v.files[j], filter) && leaf_name(v.files, filter, j)
        == cs.last()
}

/// No file name of the index is longer than the longest.
pub proof fn lemma_longest(files: Seq<TaggedFile>, i: int)
    requires
        0 <= i < files.len(),
    ensures
        files[i].name.len() <= longest_name(files),
    decreases files.len(),
{
    if i < files.len() - 1 {
        lemma_longest(files.drop_last(), i);
    }
}

/// Whether no two files of the index have the same canonical path.
pub open spec fn distinct_paths(files: Seq<TaggedFile>) -> bool {
    forall|i: int, j: int|
        0 <= i < files.len() && 0 <= j < files.len() && i != j ==> #[trigger] files[i].absolute
            != #[trigger] files[j].absolute
}

/// Whether the leaf entries of a listing have pairwise distinct names.
pub open spec fn leaf_names_distinct(entries: Seq<(Seq<u8>, FileKind)>) -> bool {
    forall|a: int, b: int|
        0 <= a < b < entries.len() && entries[a].1 == FileKind::RegularFile && entries[b].1
            == FileKind::RegularFile ==> #[trigger] entries[a].0 != #[trigger] entries[b].0
}

/// What holds of every index: each tag is known once, and each canonical
/// path belongs to one file.
pub open spec fn valid(v: IndexView) -> bool {
    v.all_tags.no_duplicates() && distinct_paths(v.files)
}

/// One entry of a directory listing.
pub struct DirEntry {
    pub name: Vec<u8>,
    pub kind: FileKind,
}

impl View for DirEntry {
    type V = (Seq<u8>, FileKind);

    open spec fn view(&self) -> (Seq<u8>, FileKind) {
        (self.name@, self.kind)
    }
}

/// The views of a sequence of directory entries.
pub open spec fn dir_views(v: Seq<DirEntry>) -> Seq<(Seq<u8>, FileKind)> {
    v.map_values(|e: DirEntry| e@)
}

/// What a path denotes.
#[derive(Clone, Copy, Debug, PartialEq, Eq, Structural)]
pub enum Node {
    /// A tag directory, the root included.
    Directory,
    /// The file at this position of the index.
    File(usize),
    /// Nothing.
    Missing,
}

/// The next step of a `getattr`: the reply, or a native stat of the file at
/// the given path, whose outcome `finish_getattr` turns into the reply.
#[derive(Debug)]
pub enum GetattrStep {
    Reply(Result<Attr, FsError>),
    Stat(Vec<u8>),
}

/// Appends the bytes of `b` to `a`.
fn append_bytes(a: &mut Vec<u8>, b: &Vec<u8>)
    ensures
        final(a)@ == old(a)@ + b@,
{
    let mut i: usize = 0;
    while i < b.len()
        invariant
            i <= b@.len(),
            a@ == old(a)@ + b@.take(i as int),
        decreases b@.len() - i,
    {
        a.push(b[i]);
        i += 1;
        assert(a@ =~= old(a)@ + b@.take(i as int));
    }
    assert(b@.take(b@.len() as int) =~= b@);
}

/// `name`, then `~` enough times that the whole outgrows `longest`, then the
/// escaped `absolute`.
fn set_apart(name: &Vec<u8>, absolute: &Vec<u8>, longest: usize) -> (r: Vec<u8>)
    requires
        name@.len() <= longest,
    ensures
        r@ == name@ + pad(pad_len(longest as nat, name@, absolute@)) + escaped(absolute@),
{
    let mut suffix: Vec<u8> = Vec::new();
    append_escaped(&mut suffix, absolute);
    assert(suffix@ =~= escaped(absolute@));
    let ghost n = name@;
    let mut r = copy_bytes(name);
    r.push(TILDE);
    assert(r@ =~= n + pad(1));
    while r.len() <= longest && suffix.len() <= longest - r.len()
        invariant
            r@.len() >= n.len() + 1,
            r@.len() <= longest + 1,
            r@ == n + pad((r@.len() - n.len()) as nat),
            r@.len() == n.len() + 1 || r@.len() - 1 + suffix@.len() <= longest,
        decreases longest + 1 - r@.len(),
    {
        let ghost k = (r@.len() - n.len()) as nat;
        r.push(TILDE);
        assert(r@ =~= n + pad(k + 1));
    }
    let ghost k = (r@.len() - n.len()) as nat;
    assert(k == pad_len(longest as nat, n, absolute@));
    append_bytes(&mut r, &suffix);
    r
}

/// The tag index of a tree and the filesystem that shows it.
pub struct TagFS {
    tags: Vec<Vec<u8>>,
    entries: Vec<TagFSEntry>,
}

impl View for TagFS {
    type V = IndexView;

    closed spec fn view(&self) -> IndexView {
        IndexView { all_tags: seqs(self.tags@), files: entry_views(self.entries@) }
    }
}

impl TagFS {
    /// Every index built is valid.
    #[verifier::type_invariant]
    spec fn inv(self) -> bool {
        valid(self@)
    }
}

impl TagFS {
    /// Builds the index of the entries that a walk from `root` met. A file
    /// reached twice, under one canonical path, is indexed once.
    pub fn new(root: &Vec<u8>, walked: &Vec<Walked>) -> (r: TagFS)
        ensures
            r@ == index_of(root@, walked_views(walked@)),
            valid(r@),
    {
        let mut found = scan(root, walked);
        let ghost all = entry_views(found@);
        let mut entries: Vec<TagFSEntry> = Vec::new();
        let mut i: usize = 0;
        assert(all.take(0) =~= seq![]);
        assert(entry_views(entries@) =~= seq![]);
        assert(entry_views(found@) =~= all.subrange(0, all.len() as int));
        let total = found.len();
        while found.len() > 0
            invariant
                all.len() == total,
                i + found@.len() == all.len(),
                entry_views(found@) == all.subrange(i as int, all.len() as int),
                entry_views(entries@) == first_by_path(all.take(i as int)),
            decreases found@.len(),
        {
            let ghost before = found@;
            let e = found.remove(0);
            assert(entry_views(before)[0] == before[0]@);
            assert(all.subrange(i as int, all.len() as int)[0] == all[i as int]);
            assert(e@ == all[i as int]);
            assert(found@ =~= before.subrange(1, before.len() as int));
            assert forall|m: int| 0 <= m < found@.len() implies entry_views(found@)[m] == all[i + 1 + m] by {
                assert(found@[m] == before[m + 1]);
                assert(entry_views(before)[m + 1] == before[m + 1]@);
            }
            assert(entry_views(found@) =~= all.subrange(i + 1, all.len() as int));
            assert(all.take(i + 1).drop_last() =~= all.take(i as int));
            assert(all.take(i + 1).last() == e@);
            let mut seen = false;
            let mut k: usize = 0;
            while k < entries.len()
                invariant
                    k <= entries@.len(),
                    seen == exists|m: int| 0 <= m < k && (#[trigger] entries@[m]@).absolute == e@.absolute,
                decreases entries@.len() - k,
            {
                if !seen && bytes_eq(entries[k].absolute(), e.absolute()) {
                    seen = true;
                }
                k += 1;
            }
            assert(seen == has_path(entry_views(entries@), e@.absolute)) by {
                if seen {
                    let m = choose|m: int| 0 <= m < entries@.len() && (#[trigger] entries@[m]@).absolute == e@.absolute;
                    assert(entry_views(entries@)[m] == entries@[m]@);
                }
                if has_path(entry_views(entries@), e@.absolute) {
                    let m = choose|m: int| 0 <= m < entries@.len() && (#[trigger] entry_views(entries@)[m]).absolute == e@.absolute;
                    assert(entry_views(entries@)[m] == entries@[m]@);
                }
            }
            if !seen {
                let ghost prev = entries@;
                entries.push(e);
                assert(entry_views(entries@) =~= entry_views(prev).push(e@));
            }
            i += 1;
        }
        assert(all.take(all.len() as int) =~= all);
        let ghost files = entry_views(entries@);
        let mut tags: Vec<Vec<u8>> = Vec::new();
        let mut j: usize = 0;
        assert(files.take(0) =~= seq![]);
        assert(seqs(tags@) =~= seq![]);
        while j < entries.len()
            invariant
                files == entry_views(entries@),
                j <= entries@.len(),
                seqs(tags@) == all_tags_of(files.take(j as int)),
            decreases entries@.len() - j,
        {
            assert(files.take(j + 1).drop_last() =~= files.take(j as int));
            assert(files.take(j + 1).last() == entries@[j as int]@);
            add_unique_exec(&mut tags, entries[j].tags());
            j += 1;
        }
        assert(files.take(files.len() as int) =~= files);
        proof {
            lemma_all_tags(files);
            lemma_first_by_path(all);
        }
        TagFS { tags, entries }
    }

    /// The number of files in the index.
    pub fn len(&self) -> (r: usize)
        ensures
            r == self@.files.len(),
    {
        self.entries.len()
    }

    /// The file at position `i` of the index.
    pub fn entry(&self, i: usize) -> (r: &TagFSEntry)
        requires
            i < self@.files.len(),
        ensures
            r@ == self@.files[i as int],
    {
        &self.entries[i]
    }

    /// Every tag of the index, each once.
    pub fn all_tags(&self) -> (r: &Vec<Vec<u8>>)
        ensures
            seqs(r@) == self@.all_tags,
    {
        &self.tags
    }

    /// The length of the longest file name of the index.
    fn longest(&self) -> (r: usize)
        ensures
            r == longest_name(self@.files),
    {
        let ghost files = self@.files;
        let mut longest: usize = 0;
        let mut j: usize = 0;
        assert(files.take(0) =~= seq![]);
        while j < self.entries.len()
            invariant
                files == entry_views(self.entries@),
                j <= files.len(),
                longest == longest_name(files.take(j as int)),
            decreases self.entries@.len() - j,
        {
            let other = &self.entries[j];
            assert(other@ == files[j as int]);
            assert(files.take(j + 1).drop_last() =~= files.take(j as int));
            if other.name().len() > longest {
                longest = other.name().len();
            }
            j += 1;
        }
        assert(files.take(files.len() as int) =~= files);
        longest
    }

    /// The name under which file `i` is listed under the filter of `filter`.
    fn leaf_name_of(&self, filter: &Vec<Vec<u8>>, i: usize, longest: usize) -> (r: Vec<u8>)
        requires
            i < self@.files.len(),
            longest == longest_name(self@.files),
        ensures
            r@ == leaf_name(self@.files, seqs(filter@).to_set(), i as int),
    {
        let ghost files = self@.files;
        let ghost fset = seqs(filter@).to_set();
        let e = &self.entries[i];
        let mut clash = false;
        let mut j: usize = 0;
        while j < self.entries.len()
            invariant
                files == entry_views(self.entries@),
                fset == seqs(filter@).to_set(),
                e@ == files[i as int],
                j <= files.len(),
                clash == exists|k: int|
                    0 <= k < j && k != i && qualifies(#[trigger] files[k], fset) && files[k].name
                        == files[i as int].name,
            decreases self.entries@.len() - j,
        {
            let other = &self.entries[j];
            assert(other@ == files[j as int]);
            if j != i && !clash && is_subset(filter, other.tags()) && bytes_eq(other.name(), e.name()) {
                clash = true;
            }
            j += 1;
        }
        if clash {
            proof {
                lemma_longest(files, i as int);
            }
            set_apart(e.name(), e.absolute(), longest)
        } else {
            copy_bytes(e.name())
        }
    }

    /// The listing of the directory at synthetic path `path`: every tag that
    /// the path does not name, as a sub-directory, then every file that
    /// carries all the tags it names, as a leaf. The order in which the path
    /// names its tags does not matter, and no two leaves share a name.
    pub fn readdir(&self, path: &Vec<u8>) -> (r: Vec<DirEntry>)
        ensures
            dir_views(r@) == listing(self@, filter_of(path@)),
            valid(self@),
            leaf_names_distinct(dir_views(r@)),
    {
        proof {
            use_type_invariant(self);
            lemma_listing_distinct(self@, filter_of(path@));
        }
        let filter = components_of(path);
        let ghost fset = filter_of(path@);
        let ghost v = self@;
        let mut out: Vec<DirEntry> = Vec::new();
        let mut i: usize = 0;
        assert(v.all_tags.take(0) =~= seq![]);
        assert(dir_views(out@) =~= seq![]);
        while i < self.tags.len()
            invariant
                v == self@,
                fset == seqs(filter@).to_set(),
                i <= v.all_tags.len(),
                dir_views(out@) == subdirs(v.all_tags.take(i as int), fset),
            decreases self.tags@.len() - i,
        {
            assert(v.all_tags.take(i + 1).drop_last() =~= v.all_tags.take(i as int));
            assert(v.all_tags.take(i + 1).last() == self.tags@[i as int]@);
            if !contains_bytes(&filter, &self.tags[i]) {
                let ghost before = out@;
                out.push(DirEntry { name: copy_bytes(&self.tags[i]), kind: FileKind::Directory });
                assert(dir_views(out@) =~= dir_views(before).push(
                    (self.tags@[i as int]@, FileKind::Directory),
                ));
            }
            i += 1;
        }
        assert(v.all_tags.take(v.all_tags.len() as int) =~= v.all_tags);
        let ghost dirs = dir_views(out@);
        let longest = self.longest();
        let mut j: usize = 0;
        assert(leaf_entries(v.files, fset, listed(v.files, fset, 0)) =~= seq![]);
        assert(dir_views(out@) =~= dirs + seq![]);
        while j < self.entries.len()
            invariant
                v == self@,
                fset == seqs(filter@).to_set(),
                j <= v.files.len(),
                dirs == subdirs(v.all_tags, fset),
                longest == longest_name(v.files),
                dir_views(out@) == dirs + leaf_entries(v.files, fset, listed(v.files, fset, j as nat)),
            decreases self.entries@.len() - j,
        {
            let e = &self.entries[j];
            assert(e@ == v.files[j as int]);
            if is_subset(&filter, e.tags()) {
                let name = self.leaf_name_of(&filter, j, longest);
                let ghost before = out@;
                out.push(DirEntry { name, kind: FileKind::RegularFile });
                assert(leaf_entries(v.files, fset, listed(v.files, fset, (j + 1) as nat))
                    =~= leaf_entries(v.files, fset, listed(v.files, fset, j as nat)).push(
                    (leaf_name(v.files, fset, j as int), FileKind::RegularFile),
                ));
                assert(dir_views(out@) =~= dir_views(before).push(
                    (leaf_name(v.files, fset, j as int), FileKind::RegularFile),
                ));
            }
            j += 1;
        }
        out
    }
    /// The tags that the parent of synthetic path `path` names, in order;
    /// none for the root, which has no parent.
    pub fn tags(path: &Vec<u8>) -> (r: Option<Vec<Vec<u8>>>)
        ensures
            match r {
                Some(t) => components(path@).len() > 0 && seqs(t@) == components(path@).drop_last(),
                None => components(path@).len() == 0,
            },
    {
        let cs = components_of(path);
        if cs.len() == 0 {
            None
        } else {
            let mut parent: Vec<Vec<u8>> = Vec::new();
            let mut i: usize = 0;
            while i < cs.len() - 1
                invariant
                    0 < cs@.len(),
                    i < cs@.len(),
                    seqs(parent@) == seqs(cs@).take(i as int),
                decreases cs@.len() - i,
            {
                let ghost before = parent@;
                parent.push(copy_bytes(&cs[i]));
                assert(seqs(parent@) =~= seqs(before).push(cs@[i as int]@));
                assert(seqs(parent@) =~= seqs(cs@).take(i + 1));
                i += 1;
            }
            assert(seqs(cs@).take(i as int) =~= seqs(cs@).drop_last());
            Some(parent)
        }
    }

    /// What synthetic path `path` denotes. It is a tag directory where each
    /// of its components is a known tag (the root has none). Otherwise it is
    /// the first file listed, under the filter of its other components, by
    /// the name of its last one; or nothing.
    pub fn lookup(&self, path: &Vec<u8>) -> (r: Node)
        ensures
            (r == Node::Directory) == is_dir_path(self@, components(path@)),
            match r {
                Node::Directory => true,
                Node::File(i) => names_leaf(self@, components(path@), i as int) && forall|j: int|
                    0 <= j < i ==> !names_leaf(self@, components(path@), j),
                Node::Missing => forall|j: int| !names_leaf(self@, components(path@), j),
            },
    {
        let ghost v = self@;
        let cs = components_of(path);
        let ghost c = components(path@);
        let mut k: usize = 0;
        let mut all_known = true;
        while k < cs.len()
            invariant
                v == self@,
                seqs(cs@) == c,
                k <= c.len(),
                all_known == forall|m: int| 0 <= m < k ==> v.all_tags.contains(#[trigger] c[m]),
            decreases cs@.len() - k,
        {
            assert(c[k as int] == cs@[k as int]@);
            if !contains_bytes(&self.tags, &cs[k]) {
                all_known = false;
            }
            k += 1;
        }
        if all_known {
            return Node::Directory;
        }
        let parent = match Self::tags(path) {
            Some(t) => t,
            None => {
                return Node::Directory;
            },
        };
        let name = &cs[cs.len() - 1];
        let longest = self.longest();
        let ghost fset = c.drop_last().to_set();
        let mut j: usize = 0;
        while j < self.entries.len()
            invariant
                v == self@,
                seqs(cs@) == c,
                c == components(path@),
                c.len() > 0,
                longest == longest_name(v.files),
                !is_dir_path(v, c),
                name@ == c.last(),
                fset == seqs(parent@).to_set(),
                fset == c.drop_last().to_set(),
                j <= v.files.len(),
                forall|m: int| 0 <= m < j ==> !names_leaf(v, c, m),
            decreases self.entries@.len() - j,
        {
            let e = &self.entries[j];
            assert(e@ == v.files[j as int]);
            if is_subset(&parent, e.tags()) {
                let shown = self.leaf_name_of(&parent, j, longest);
                if bytes_eq(&shown, name) {
                    return Node::File(j);
                }
            }
            j += 1;
        }
        Node::Missing
    }

    /// The first step of `getattr` on synthetic path `path`: a tag directory
    /// gets the directory stub, a file needs a native stat of its canonical
    /// path, anything else is not found.
    pub fn getattr(&self, path: &Vec<u8>) -> (r: GetattrStep)
        ensures
            is_dir_path(self@, components(path@)) ==> r == GetattrStep::Reply(
                Ok::<Attr, FsError>(directory_stub()),
            ),
            !is_dir_path(self@, components(path@)) ==> match r {
                GetattrStep::Stat(p) => exists|i: int|
                    names_leaf(self@, components(path@), i) && p@ == self@.files[i].absolute
                        && forall|j: int| 0 <= j < i ==> !names_leaf(self@, components(path@), j),
                GetattrStep::Reply(res) => res == Err::<Attr, FsError>(FsError::NotFound)
                    && forall|j: int| !names_leaf(self@, components(path@), j),
            },
    {
        match self.lookup(path) {
            Node::Directory => GetattrStep::Reply(Ok(directory_attr())),
            Node::File(i) => {
                let p = copy_bytes(self.entries[i].absolute());
                assert(self.entries@[i as int]@ == self@.files[i as int]);
                GetattrStep::Stat(p)
            },
            Node::Missing => GetattrStep::Reply(Err(FsError::NotFound)),
        }
    }

    /// The reply of `getattr` on a file, from the outcome of the native stat
    /// of its canonical path: an OS error is passed on as it came.
    pub fn finish_getattr(stat: Result<NativeStat, i32>) -> (r: Result<Attr, FsError>)
        ensures
            match stat {
                Err(code) => r == Err::<Attr, FsError>(FsError::Os(code)),
                Ok(st) => match kind_of_mode(st.mode) {
                    Some(k) => r == Ok::<Attr, FsError>(translated(st, k)),
                    None => r == Err::<Attr, FsError>(FsError::UnknownFileType(st.mode)),
                },
            },
    {
        match stat {
            Err(code) => Err(FsError::Os(code)),
            Ok(st) => stat_to_fuse(&st),
        }
    }

    /// Starts serving; nothing can fail, the index is already built.
    pub fn init(&self) -> (r: Result<(), FsError>)
        ensures
            r is Ok,
    {
        Ok(())
    }

    /// Opens a directory. Listings are computed afresh from the index on
    /// each `readdir`, so the handle carries nothing: it is `(0, 0)`.
    pub fn opendir(&self, path: &Vec<u8>) -> (r: (u64, u32))
        ensures
            r == (0u64, 0u32),
    {
        (0, 0)
    }
    /// Lists the attribute names, the same for every path: with `size` zero
    /// the bytes needed, each name and its terminating zero; else the names,
    /// each followed by a zero byte.
    pub fn listxattr(&self, size: u32) -> (r: XattrReply)
        ensures
            match r {
                XattrReply::Size(n) => size == 0 && n == name_list().len(),
                XattrReply::Data(d) => size != 0 && d@ == name_list(),
            },
    {
        let names = name_list_bytes();
        if size == 0 {
            XattrReply::Size(names.len() as u32)
        } else {
            XattrReply::Data(names)
        }
    }

    /// Reads attribute `name`, the same for every path: with `size` zero the
    /// length of its value, else the value; an unknown attribute has an empty
    /// value.
    pub fn getxattr(&self, name: &Vec<u8>, size: u32) -> (r: XattrReply)
        ensures
            match r {
                XattrReply::Size(n) => size == 0 && n == match value_of(name@) {
                    Some(v) => v.len(),
                    None => 0,
                },
                XattrReply::Data(d) => size != 0 && d@ == match value_of(name@) {
                    Some(v) => v,
                    None => Seq::<u8>::empty(),
                },
            },
    {
        let value = value_bytes(name);
        if size == 0 {
            match value {
                Some(v) => XattrReply::Size(v.len() as u32),
                None => XattrReply::Size(0),
            }
        } else {
            match value {
                Some(v) => XattrReply::Data(v),
                None => {
                    let empty: Vec<u8> = Vec::new();
                    assert(empty@ =~= Seq::<u8>::empty());
                    XattrReply::Data(empty)
                },
            }
        }
    }

    /// Setting an attribute is not supported: they are read-only.
    pub fn setxattr(&self) -> (r: Result<(), FsError>)
        ensures
            r == Err::<(), FsError>(FsError::NotSupported),
    {
        Err(FsError::NotSupported)
    }
}

} // verus!
