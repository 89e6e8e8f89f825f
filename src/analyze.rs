use std::path::PathBuf;
use crate::order::sort_by_size;
use crate::tally::{
    lemma_total_permutation, lemma_total_prefix_bound, lemma_total_prefix_step, nonnegative, total,
};
use vstd::prelude::*;

verus! {

broadcast use vstd::seq_lib::group_to_multiset_ensures;

/// Relies on std's `PathBuf` only as an opaque value: a path is carried
/// through the analysis as it was found, and nothing here looks inside it.
#[verifier::external_type_specification]
#[verifier::external_body]
pub struct ExPathBuf(std::path::PathBuf);

/// Settings for a scan; none are needed yet.
#[derive(Debug)]
pub struct Context {}

/// A directory with the entries found in it, largest first.
#[derive(Debug)]
pub struct AnalyzedDir {
    pub children: Vec<AnalyzedItem>,
    pub path: PathBuf,
    pub size: u64,
    pub num_symlinks: u64,
    pub num_files: u64,
    pub num_dirs: u64,
}

/// A regular file; `size` is its share of the blocks it occupies.
#[derive(Debug)]
pub struct AnalyzedFile {
    pub hardlink_count: u64,
    pub size: u64,
    pub path: PathBuf,
}

/// A symbolic link, sized like a file, with its target as written.
#[derive(Debug)]
pub struct AnalyzedSymlink {
    pub hardlink_count: u64,
    pub size: u64,
    pub path: PathBuf,
    pub link: PathBuf,
}

/// One entry of a scanned tree.
#[derive(Debug)]
pub enum AnalyzedItem {
    Dir(AnalyzedDir),
    File(AnalyzedFile),
    Symlink(AnalyzedSymlink),
}

/// The measures that a directory sums over its children.
pub open spec fn size_measure() -> spec_fn(AnalyzedItem) -> int {
    |i: AnalyzedItem| i.spec_size() as int
}

pub open spec fn file_measure() -> spec_fn(AnalyzedItem) -> int {
    |i: AnalyzedItem| i.file_weight()
}

pub open spec fn symlink_measure() -> spec_fn(AnalyzedItem) -> int {
    |i: AnalyzedItem| i.symlink_weight()
}

pub open spec fn dir_measure() -> spec_fn(AnalyzedItem) -> int {
    |i: AnalyzedItem| i.dir_weight()
}

pub open spec fn total_size(s: Seq<AnalyzedItem>) -> int {
    total(s, size_measure())
}

pub open spec fn total_files(s: Seq<AnalyzedItem>) -> int {
    total(s, file_measure())
}

pub open spec fn total_symlinks(s: Seq<AnalyzedItem>) -> int {
    total(s, symlink_measure())
}

pub open spec fn total_dirs(s: Seq<AnalyzedItem>) -> int {
    total(s, dir_measure())
}

/// Every entry is at least as large as the ones after it.
pub open spec fn sorted_by_size(s: Seq<AnalyzedItem>) -> bool {
    forall|i: int, j: int| 0 <= i < j < s.len() ==> s[i].spec_size() >= s[j].spec_size()
}

/// The four sums over `s` each fit in a `u64`.
pub open spec fn totals_fit(s: Seq<AnalyzedItem>) -> bool {
    &&& total_size(s) <= u64::MAX
    &&& total_files(s) <= u64::MAX
    &&& total_symlinks(s) <= u64::MAX
    &&& total_dirs(s) <= u64::MAX
}

/// Files and symbolic links anywhere below the entries of `s`, entries included.
pub open spec fn files_within(s: Seq<AnalyzedItem>) -> int
    decreases s,
{
    if s.len() == 0 {
        0
    } else {
        files_within(s.drop_last()) + match s.last() {
            AnalyzedItem::Dir(d) => files_within(d.children@),
            _ => 1,
        }
    }
}

/// Symbolic links anywhere below the entries of `s`, entries included.
pub open spec fn symlinks_within(s: Seq<AnalyzedItem>) -> int
    decreases s,
{
    if s.len() == 0 {
        0
    } else {
        symlinks_within(s.drop_last()) + match s.last() {
            AnalyzedItem::Dir(d) => symlinks_within(d.children@),
            AnalyzedItem::File(_) => 0,
            AnalyzedItem::Symlink(_) => 1,
        }
    }
}

/// Directories anywhere below the entries of `s`, entries included.
pub open spec fn dirs_within(s: Seq<AnalyzedItem>) -> int
    decreases s,
{
    if s.len() == 0 {
        0
    } else {
        dirs_within(s.drop_last()) + match s.last() {
            AnalyzedItem::Dir(d) => 1 + dirs_within(d.children@),
            _ => 0,
        }
    }
}

impl AnalyzedDir {
    /// The size and the three counts are the sums over the children, and the
    /// children are ordered largest first.
    pub open spec fn well_formed(self) -> bool {
        &&& self.size == total_size(self.children@)
        &&& self.num_files == total_files(self.children@)
        &&& self.num_symlinks == total_symlinks(self.children@)
        &&& self.num_dirs == total_dirs(self.children@)
        &&& sorted_by_size(self.children@)
    }

    /// This directory and every directory below it are well formed.
    pub open spec fn well_formed_tree(self) -> bool {
        &&& self.well_formed()
        &&& forall|k: int|
            0 <= k < self.children@.len() ==> (#[trigger] self.children@[k]).well_formed_tree()
    }
}

impl AnalyzedItem {
    /// How many files this entry counts as: symbolic links count as files too.
    pub open spec fn file_weight(self) -> int {
        match self {
            AnalyzedItem::Dir(d) => d.num_files as int,
            _ => 1,
        }
    }

    pub open spec fn symlink_weight(self) -> int {
        match self {
            AnalyzedItem::Dir(d) => d.num_symlinks as int,
            AnalyzedItem::File(_) => 0,
            AnalyzedItem::Symlink(_) => 1,
        }
    }

    /// A directory counts itself and the directories below it.
    pub open spec fn dir_weight(self) -> int {
        match self {
            AnalyzedItem::Dir(d) => d.num_dirs + 1,
            _ => 0,
        }
    }

    /// This entry and everything below it are well formed.
    pub open spec fn well_formed_tree(self) -> bool
        decreases self,
    {
        match self {
            AnalyzedItem::Dir(d) => d.well_formed() && forall|k: int|
                0 <= k < d.children@.len() ==> (#[trigger] d.children@[k]).well_formed_tree(),
            AnalyzedItem::File(f) => f.hardlink_count >= 1,
            AnalyzedItem::Symlink(s) => s.hardlink_count >= 1,
        }
    }

    /// The bytes attributed to this entry.
    pub open spec fn spec_size(self) -> u64 {
        match self {
            AnalyzedItem::Dir(d) => d.size,
            AnalyzedItem::File(f) => f.size,
            AnalyzedItem::Symlink(s) => s.size,
        }
    }

    pub open spec fn spec_path(self) -> PathBuf {
        match self {
            AnalyzedItem::Dir(d) => d.path,
            AnalyzedItem::File(f) => f.path,
            AnalyzedItem::Symlink(s) => s.path,
        }
    }

    pub fn size(&self) -> (r: u64)
        ensures
            r == self.spec_size(),
    {
        match self {
            AnalyzedItem::Dir(d) => d.size,
            AnalyzedItem::File(f) => f.size,
            AnalyzedItem::Symlink(s) => s.size,
        }
    }

    pub fn path(&self) -> (r: &PathBuf)
        ensures
            *r == self.spec_path(),
    {
        match self {
            AnalyzedItem::Dir(d) => &d.path,
            AnalyzedItem::File(f) => &f.path,
            AnalyzedItem::Symlink(s) => &s.path,
        }
    }
}

/// The unit in which the filesystem reports occupied blocks.
pub const BLOCK_SIZE: u64 = 512;

/// The share of a file's occupied bytes that falls to one of its names.
pub open spec fn spec_apportioned_size(blocks: u64, hardlink_count: u64) -> int {
    (blocks * BLOCK_SIZE) as int / hardlink_count as int
}

/// The bytes attributed to one name of a file that occupies `blocks` blocks
/// and has `hardlink_count` names: its occupied bytes split evenly.
pub fn apportioned_size(blocks: u64, hardlink_count: u64) -> (r: u64)
    requires
        hardlink_count >= 1,
        blocks * BLOCK_SIZE <= u64::MAX,
    ensures
        r == spec_apportioned_size(blocks, hardlink_count),
{
    blocks * BLOCK_SIZE / hardlink_count
}

impl AnalyzedFile {
    /// A regular file at `path` occupying `blocks` blocks, with `hardlink_count` names.
    pub fn new(path: PathBuf, blocks: u64, hardlink_count: u64) -> (r: AnalyzedFile)
        requires
            hardlink_count >= 1,
            blocks * BLOCK_SIZE <= u64::MAX,
        ensures
            r.path == path,
            r.hardlink_count == hardlink_count,
            r.size == spec_apportioned_size(blocks, hardlink_count),
    {
        AnalyzedFile { hardlink_count, size: apportioned_size(blocks, hardlink_count), path }
    }
}

impl AnalyzedSymlink {
    /// A symbolic link at `path` to `link`, sized like a file.
    pub fn new(path: PathBuf, link: PathBuf, blocks: u64, hardlink_count: u64) -> (r:
        AnalyzedSymlink)
        requires
            hardlink_count >= 1,
            blocks * BLOCK_SIZE <= u64::MAX,
        ensures
            r.path == path,
            r.link == link,
            r.hardlink_count == hardlink_count,
            r.size == spec_apportioned_size(blocks, hardlink_count),
    {
        AnalyzedSymlink { hardlink_count, size: apportioned_size(blocks, hardlink_count), path, link }
    }
}

proof fn lemma_measures_nonnegative()
    ensures
        nonnegative(size_measure()),
        nonnegative(file_measure()),
        nonnegative(symlink_measure()),
        nonnegative(dir_measure()),
{
}

/// When the sum over a prefix exceeds `u64::MAX`, so does the sum over the whole.
proof fn lemma_prefix_overflow(s: Seq<AnalyzedItem>, i: int, f: spec_fn(AnalyzedItem) -> int)
    requires
        nonnegative(f),
        0 <= i < s.len(),
        total(s.subrange(0, i), f) + f(s[i]) > u64::MAX,
    ensures
        total(s, f) > u64::MAX,
{
    lemma_total_prefix_step(s, i, f);
    lemma_total_prefix_bound(s, i + 1, f);
}

/// Builds the directory at `path` from the entries found in it: the entries
/// are ordered largest first, and the size and the counts are their sums.
/// Returns `None` exactly when one of those sums does not fit in a `u64`.
pub fn assemble_dir(path: PathBuf, children: Vec<AnalyzedItem>) -> (r: Option<AnalyzedDir>)
    ensures
        r.is_none() <==> !totals_fit(children@),
        r matches Some(d) ==> {
            &&& d.path == path
            &&& d.children@.to_multiset() == children@.to_multiset()
            &&& d.well_formed()
            &&& d.size == total_size(children@)
            &&& d.num_files == total_files(children@)
            &&& d.num_symlinks == total_symlinks(children@)
            &&& d.num_dirs == total_dirs(children@)
            &&& (forall|k: int|
                0 <= k < children@.len() ==> (#[trigger] children@[k]).well_formed_tree())
                ==> d.well_formed_tree()
        },
{
    let ghost input = children@;
    let sorted = sort_by_size(children);
    proof {
        lemma_measures_nonnegative();
        lemma_total_permutation(sorted@, input, size_measure());
        lemma_total_permutation(sorted@, input, file_measure());
        lemma_total_permutation(sorted@, input, symlink_measure());
        lemma_total_permutation(sorted@, input, dir_measure());
    }
    let mut size: u64 = 0;
    let mut num_files: u64 = 0;
    let mut num_symlinks: u64 = 0;
    let mut num_dirs: u64 = 0;
    let mut i: usize = 0;
    while i < sorted.len()
        invariant
            input == children@,
            i <= sorted@.len(),
            size == total(sorted@.subrange(0, i as int), size_measure()),
            num_files == total(sorted@.subrange(0, i as int), file_measure()),
            num_symlinks == total(sorted@.subrange(0, i as int), symlink_measure()),
            num_dirs == total(sorted@.subrange(0, i as int), dir_measure()),
            total_size(sorted@) == total_size(input),
            total_files(sorted@) == total_files(input),
            total_symlinks(sorted@) == total_symlinks(input),
            total_dirs(sorted@) == total_dirs(input),
        decreases sorted@.len() - i,
    {
        let ghost s = sorted@;
        proof {
            lemma_measures_nonnegative();
            lemma_total_prefix_step(s, i as int, size_measure());
            lemma_total_prefix_step(s, i as int, file_measure());
            lemma_total_prefix_step(s, i as int, symlink_measure());
            lemma_total_prefix_step(s, i as int, dir_measure());
        }
        let (item_size, files, symlinks, dirs): (u64, u64, u64, Option<u64>) = match &sorted[i] {
            AnalyzedItem::Dir(d) => (d.size, d.num_files, d.num_symlinks, d.num_dirs.checked_add(1)),
            AnalyzedItem::File(f) => (f.size, 1, 0, Some(0)),
            AnalyzedItem::Symlink(l) => (l.size, 1, 1, Some(0)),
        };
        assert(item_size as int == size_measure()(s[i as int]));
        assert(files as int == file_measure()(s[i as int]));
        assert(symlinks as int == symlink_measure()(s[i as int]));
        match size.checked_add(item_size) {
            Some(v) => size = v,
            None => {
                proof {
                    lemma_prefix_overflow(s, i as int, size_measure());
                }
                return None;
            },
        }
        match num_files.checked_add(files) {
            Some(v) => num_files = v,
            None => {
                proof {
                    lemma_prefix_overflow(s, i as int, file_measure());
                }
                return None;
            },
        }
        match num_symlinks.checked_add(symlinks) {
            Some(v) => num_symlinks = v,
            None => {
                proof {
                    lemma_prefix_overflow(s, i as int, symlink_measure());
                }
                return None;
            },
        }
        let dir_sum = match dirs {
            Some(w) => num_dirs.checked_add(w),
            None => None,
        };
        match dir_sum {
            Some(v) => num_dirs = v,
            None => {
                proof {
                    lemma_prefix_overflow(s, i as int, dir_measure());
                }
                return None;
            },
        }
        i = i + 1;
    }
    assert(sorted@.subrange(0, i as int) =~= sorted@);
    proof {
        assert forall|k: int| 0 <= k < sorted@.len() implies input.contains(#[trigger] sorted@[k]) by {
            assert(sorted@.to_multiset().count(sorted@[k]) > 0);
        }
    }
    Some(AnalyzedDir { children: sorted, path, size, num_symlinks, num_files, num_dirs })
}

/// In a well-formed tree, the counts of a directory are the counts of
/// files, symbolic links and directories anywhere below it.
pub proof fn lemma_counts_cover_subtree(d: AnalyzedDir)
    requires
        d.well_formed_tree(),
    ensures
        d.size == total_size(d.children@),
        d.num_files == files_within(d.children@),
        d.num_symlinks == symlinks_within(d.children@),
        d.num_dirs == dirs_within(d.children@),
{
    lemma_seq_counts(d.children@);
}

proof fn lemma_seq_counts(s: Seq<AnalyzedItem>)
    requires
        forall|k: int| 0 <= k < s.len() ==> (#[trigger] s[k]).well_formed_tree(),
    ensures
        total_files(s) == files_within(s),
        total_symlinks(s) == symlinks_within(s),
        total_dirs(s) == dirs_within(s),
    decreases s,
{
    if s.len() > 0 {
        let last = s.last();
        assert(last == s[s.len() - 1]);
        lemma_seq_counts(s.drop_last());
        match last {
            AnalyzedItem::Dir(d) => {
                assert(d.well_formed_tree());
                lemma_seq_counts(d.children@);
            },
            _ => {},
        }
    }
}

} // verus!
