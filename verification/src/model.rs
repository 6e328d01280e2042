use vstd::prelude::*;
use crate::order::{RankKey, sorted_desc, sort_desc, lemma_map_keeps_multiset, lemma_permutation_keeps_apart};
use std::path::{Path, PathBuf};

verus! {

#[verifier::external_type_specification]
#[verifier::external_body]
pub struct ExPathBuf(PathBuf);

#[verifier::external_type_specification]
#[verifier::external_body]
pub struct ExPath(Path);

/// std's `Clone` for `PathBuf`; nothing is stated of the copy.
pub assume_specification[ <PathBuf as Clone>::clone ](path: &PathBuf) -> PathBuf;

/// One regular file found by a scan. `display_path` is `path` as text, with
/// anything that is not valid Unicode replaced (`Path::to_string_lossy`), for
/// showing and searching.
#[derive(Clone, Debug)]
pub struct FileEntry {
    pub path: PathBuf,
    pub display_path: String,
    pub name: String,
    pub extension: String,
    pub size: u64,
    pub modified_unix: i64,
}

/// Files whose contents are byte-for-byte equal; `file_indices` are positions
/// in `ScanResult::files`.
#[derive(Clone, Debug)]
pub struct DuplicateGroup {
    pub size_each: u64,
    pub file_indices: Vec<usize>,
}

/// Everything a scan found.
#[derive(Clone, Debug)]
pub struct ScanResult {
    pub files: Vec<FileEntry>,
    pub duplicate_groups: Vec<DuplicateGroup>,
    pub total_bytes: u64,
    pub skipped: u64,
    pub elapsed_ms: u128,
}

impl View for DuplicateGroup {
    type V = (u64, Seq<usize>);

    open spec fn view(&self) -> (u64, Seq<usize>) {
        (self.size_each, self.file_indices@)
    }
}

/// Space freed by keeping one copy out of `count` equal files of `size_each`
/// bytes, held at `u64::MAX` when it does not fit.
pub open spec fn spec_reclaimable(size_each: u64, count: nat) -> u64 {
    let copies: int = if count == 0 { 0 } else { count - 1 };
    if size_each * copies > u64::MAX {
        u64::MAX
    } else {
        (size_each * copies) as u64
    }
}

/// The reclaimable bytes of every group, added up.
pub open spec fn sum_reclaimable(groups: Seq<DuplicateGroup>) -> int
    decreases groups.len(),
{
    if groups.len() == 0 {
        0
    } else {
        sum_reclaimable(groups.drop_last()) + groups.last().rank_key()
    }
}

/// The sizes of `files`, added up.
pub open spec fn sum_sizes(files: Seq<FileEntry>) -> int
    decreases files.len(),
{
    if files.len() == 0 {
        0
    } else {
        sum_sizes(files.drop_last()) + files.last().size
    }
}

/// The views of `groups`, in order.
pub open spec fn group_views(groups: Seq<DuplicateGroup>) -> Seq<(u64, Seq<usize>)> {
    groups.map_values(|g: DuplicateGroup| g@)
}

/// Where a file at position `i` stands once the file at `pos` is gone.
pub open spec fn shifted(i: usize, pos: int) -> usize {
    if i > pos {
        (i - 1) as usize
    } else {
        i
    }
}

/// The positions of `indices` once the file at `pos` is gone: `pos` itself
/// leaves, later positions move down by one.
pub open spec fn reindex(indices: Seq<usize>, pos: int) -> Seq<usize>
    decreases indices.len(),
{
    if indices.len() == 0 {
        Seq::empty()
    } else {
        let rest = reindex(indices.drop_last(), pos);
        if indices.last() == pos {
            rest
        } else {
            rest.push(shifted(indices.last(), pos))
        }
    }
}

/// The groups that remain once the file at `pos` is gone, in their old order:
/// each group is reindexed, and those left with fewer than two files leave.
pub open spec fn regroup(groups: Seq<(u64, Seq<usize>)>, pos: int) -> Seq<(u64, Seq<usize>)>
    decreases groups.len(),
{
    if groups.len() == 0 {
        Seq::empty()
    } else {
        let rest = regroup(groups.drop_last(), pos);
        let g = groups.last();
        let kept = reindex(g.1, pos);
        if kept.len() > 1 {
            rest.push((g.0, kept))
        } else {
            rest
        }
    }
}

/// Whether std's `Path` equality holds between `entry` and `path`.
pub uninterp spec fn path_matches(entry: PathBuf, path: &Path) -> bool;

/// `p` is the first position in `files` whose path matches `path`.
pub open spec fn is_first_match(files: Seq<FileEntry>, path: &Path, p: int) -> bool {
    &&& 0 <= p < files.len()
    &&& path_matches(files[p].path, path)
    &&& forall|k: int| 0 <= k < p ==> !path_matches((#[trigger] files[k]).path, path)
}

/// Some file in `files` has a path that matches `path`.
pub open spec fn has_match(files: Seq<FileEntry>, path: &Path) -> bool {
    exists|i: int| 0 <= i < files.len() && path_matches((#[trigger] files[i]).path, path)
}

/// The first position in `files` whose path matches `path` (meaningful when
/// `has_match` holds).
pub open spec fn first_match(files: Seq<FileEntry>, path: &Path) -> int {
    choose|p: int| is_first_match(files, path, p)
}

/// The groups are ordered by the bytes each would free, most first.
pub open spec fn most_freed_first(groups: Seq<DuplicateGroup>) -> bool {
    forall|a: int, b: int|
        0 <= a < b < groups.len() ==> spec_reclaimable(
            (#[trigger] groups[a]).size_each,
            groups[a].file_indices@.len(),
        ) >= spec_reclaimable((#[trigger] groups[b]).size_each, groups[b].file_indices@.len())
}

/// Duplicate groups ordered by rank are ordered by the bytes each would
/// free, most first.
pub proof fn lemma_sorted_groups_most_freed_first(groups: Seq<DuplicateGroup>)
    requires
        sorted_desc(groups),
    ensures
        most_freed_first(groups),
{
    assert forall|a: int, b: int| 0 <= a < b < groups.len() implies spec_reclaimable(
        (#[trigger] groups[a]).size_each,
        groups[a].file_indices@.len(),
    ) >= spec_reclaimable((#[trigger] groups[b]).size_each, groups[b].file_indices@.len()) by {
        assert(groups[a].rank_key() >= groups[b].rank_key());
    }
}

/// A group of `count` equal files of `size` bytes frees `size` bytes for each
/// copy beyond the first, and `u64::MAX` when that does not fit.
pub proof fn lemma_reclaimable_counts_copies(size: u64, count: nat)
    ensures
        count == 0 ==> spec_reclaimable(size, count) == 0,
        count >= 1 && size * (count - 1) <= u64::MAX ==> spec_reclaimable(size, count) == size * (count - 1),
        count >= 1 && size * (count - 1) > u64::MAX ==> spec_reclaimable(size, count) == u64::MAX,
        count == 1 ==> spec_reclaimable(size, count) == 0,
        count == 2 ==> spec_reclaimable(size, count) == size,
{
    if count == 1 {
        assert(size * 0 == 0);
    }
    if count == 2 {
        assert(size * 1 == size);
    }
}

/// `new` is what `old` becomes when the file at `pos` is removed: the file
/// leaves the list, its size leaves the total (held at zero), every duplicate
/// group is reindexed, groups left with fewer than two files leave, and the
/// rest are ordered by reclaimable bytes, largest first.
pub open spec fn removal_outcome(old: ScanResult, new: ScanResult, pos: int) -> bool {
    &&& 0 <= pos < old.files@.len()
    &&& new.files@ == old.files@.remove(pos)
    &&& new.total_bytes == (if old.total_bytes >= old.files@[pos].size {
        (old.total_bytes - old.files@[pos].size) as u64
    } else {
        0u64
    })
    &&& group_views(new.duplicate_groups@).to_multiset() == regroup(
        group_views(old.duplicate_groups@),
        pos,
    ).to_multiset()
    &&& sorted_desc(new.duplicate_groups@)
    &&& most_freed_first(new.duplicate_groups@)
    &&& new.skipped == old.skipped
    &&& new.elapsed_ms == old.elapsed_ms
}

/// A group view is sound for `files`: it holds at least two files, its
/// positions rise strictly and lie in `files`, and each file there has the
/// group's size.
pub open spec fn group_sound(files: Seq<FileEntry>, g: (u64, Seq<usize>)) -> bool {
    &&& g.1.len() > 1
    &&& forall|k: int|
        0 <= k < g.1.len() ==> #[trigger] g.1[k] < files.len() && files[g.1[k] as int].size == g.0
    &&& forall|a: int, b: int| 0 <= a < b < g.1.len() ==> #[trigger] g.1[a] < #[trigger] g.1[b]
}

impl RankKey for FileEntry {
    open spec fn rank_key(&self) -> u64 {
        self.size
    }

    fn rank(&self) -> (k: u64) {
        self.size
    }
}

impl RankKey for DuplicateGroup {
    open spec fn rank_key(&self) -> u64 {
        spec_reclaimable(self.size_each, self.file_indices@.len())
    }

    fn rank(&self) -> (k: u64) {
        self.reclaimable()
    }
}

impl Default for ScanResult {
    /// The result of a scan that found nothing.
    fn default() -> (r: ScanResult)
        ensures
            r.files@.len() == 0,
            r.duplicate_groups@.len() == 0,
            r.total_bytes == 0,
            r.skipped == 0,
            r.elapsed_ms == 0,
    {
        ScanResult {
            files: Vec::new(),
            duplicate_groups: Vec::new(),
            total_bytes: 0,
            skipped: 0,
            elapsed_ms: 0,
        }
    }
}

impl DuplicateGroup {
    /// Bytes freed by keeping one copy and removing the others.
    pub fn reclaimable(&self) -> (bytes: u64)
        ensures
            bytes == spec_reclaimable(self.size_each, self.file_indices@.len()),
    {
        let n = self.file_indices.len();
        let copies: u64 = if n == 0 {
            0
        } else {
            (n - 1) as u64
        };
        match self.size_each.checked_mul(copies) {
            Some(v) => v,
            None => u64::MAX,
        }
    }
}

impl ScanResult {
    /// Every duplicate group is sound for the files.
    pub open spec fn groups_sound(&self) -> bool {
        forall|g: int|
            0 <= g < self.duplicate_groups@.len() ==> group_sound(
                self.files@,
                #[trigger] self.duplicate_groups@[g]@,
            )
    }

    /// Every duplicate group is sound for the files, and the groups are
    /// ordered by reclaimable bytes, largest first.
    pub open spec fn well_formed(&self) -> bool {
        &&& self.groups_sound()
        &&& sorted_desc(self.duplicate_groups@)
    }

    /// Bytes that removing every extra copy would free.
    pub fn duplicate_bytes(&self) -> (bytes: u64)
        requires
            sum_reclaimable(self.duplicate_groups@) <= u64::MAX,
        ensures
            bytes == sum_reclaimable(self.duplicate_groups@),
    {
        let mut total: u64 = 0;
        let n = self.duplicate_groups.len();
        for i in 0..n
            invariant
                n == self.duplicate_groups@.len(),
                sum_reclaimable(self.duplicate_groups@) <= u64::MAX,
                total == sum_reclaimable(self.duplicate_groups@.take(i as int)),
        {
            proof {
                assert(self.duplicate_groups@.take(i + 1).drop_last() =~= self.duplicate_groups@.take(
                    i as int,
                ));
                lemma_sum_reclaimable_prefix(self.duplicate_groups@, i + 1);
            }
            total = total + self.duplicate_groups[i].reclaimable();
        }
        proof {
            assert(self.duplicate_groups@.take(n as int) =~= self.duplicate_groups@);
        }
        total
    }

    /// Removes the first file whose path equals `path` (std's `Path`
    /// equality), as `remove_at` does: the paths are compared front to back
    /// and the first that matches goes. Returns whether a file was removed,
    /// which is whether any path matched; when none did, nothing changes.
    pub fn remove_file(&mut self, path: &Path) -> (removed: bool)
        ensures
            removed == has_match(old(self).files@, path),
            !removed ==> *final(self) == *old(self),
            removed ==> removal_outcome(*old(self), *final(self), first_match(old(self).files@, path)),
    {
        let n = self.files.len();
        for i in 0..n
            invariant
                n == self.files@.len(),
                *self == *old(self),
                forall|k: int| 0 <= k < i ==> !path_matches((#[trigger] self.files@[k]).path, path),
        {
            if same_path(&self.files[i].path, path) {
                proof {
                    lemma_first_match_unique(self.files@, path, i as int);
                }
                self.remove_at(i);
                return true;
            }
        }
        false
    }

    /// Removes the file at `position`, keeping every duplicate group pointing
    /// at the same files: positions after the removed one move down by one,
    /// the removed position leaves its group, groups left with fewer than two
    /// files are dropped, and the groups are ordered again by reclaimable
    /// bytes, largest first.
    pub fn remove_at(&mut self, position: usize)
        requires
            position < old(self).files@.len(),
        ensures
            removal_outcome(*old(self), *final(self), position as int),
    {
        self.total_bytes = self.total_bytes.saturating_sub(self.files[position].size);
        self.files.remove(position);

        let mut kept: Vec<DuplicateGroup> = Vec::new();
        let n = self.duplicate_groups.len();
        for j in 0..n
            invariant
                n == self.duplicate_groups@.len(),
                group_views(kept@) == regroup(
                    group_views(self.duplicate_groups@.take(j as int)),
                    position as int,
                ),
        {
            proof {
                assert(group_views(self.duplicate_groups@.take(j + 1)).drop_last() =~= group_views(
                    self.duplicate_groups@.take(j as int),
                ));
            }
            let indices = reindex_positions(&self.duplicate_groups[j].file_indices, position);
            if indices.len() > 1 {
                let group = DuplicateGroup {
                    size_each: self.duplicate_groups[j].size_each,
                    file_indices: indices,
                };
                let ghost before = kept@;
                kept.push(group);
                proof {
                    assert(group_views(kept@) =~= group_views(before).push(group@));
                }
            }
        }
        proof {
            assert(self.duplicate_groups@.take(n as int) =~= self.duplicate_groups@);
        }
        let ranked = sort_desc(kept);
        proof {
            lemma_map_keeps_multiset(ranked@, kept@, |g: DuplicateGroup| g@);
            lemma_sorted_groups_most_freed_first(ranked@);
        }
        self.duplicate_groups = ranked;
    }
}

/// The positions of `indices` once the file at `pos` is gone.
fn reindex_positions(indices: &Vec<usize>, pos: usize) -> (out: Vec<usize>)
    ensures
        out@ == reindex(indices@, pos as int),
{
    let mut out: Vec<usize> = Vec::new();
    let n = indices.len();
    for k in 0..n
        invariant
            n == indices@.len(),
            out@ == reindex(indices@.take(k as int), pos as int),
    {
        proof {
            assert(indices@.take(k + 1).drop_last() =~= indices@.take(k as int));
        }
        let i = indices[k];
        if i != pos {
            if i > pos {
                out.push(i - 1);
            } else {
                out.push(i);
            }
        }
    }
    proof {
        assert(indices@.take(n as int) =~= indices@);
    }
    out
}

/// std's `Path` equality between the path of a file and `path`. Its result is
/// named `path_matches` and depends on the two paths alone; which spellings
/// count as one path (repeated or trailing separators, `.` parts, on Windows
/// `\` separators and drive or server prefixes) is std's to decide, and is
/// not stated here.
#[verifier::external_body]
fn same_path(entry: &PathBuf, path: &Path) -> (same: bool)
    ensures
        same == path_matches(*entry, path),
{
    entry.as_path() == path
}

/// There is only one first matching position.
proof fn lemma_first_match_unique(files: Seq<FileEntry>, path: &Path, p: int)
    requires
        is_first_match(files, path, p),
    ensures
        first_match(files, path) == p,
{
    let q = first_match(files, path);
    assert(is_first_match(files, path, q));
    if q < p {
        assert(!path_matches(files[q].path, path));
    }
    if p < q {
        assert(!path_matches(files[p].path, path));
    }
}

/// A prefix never adds up to more than the whole list.
proof fn lemma_sum_reclaimable_prefix(groups: Seq<DuplicateGroup>, k: int)
    requires
        0 <= k <= groups.len(),
    ensures
        sum_reclaimable(groups.take(k)) <= sum_reclaimable(groups),
    decreases groups.len(),
{
    if k < groups.len() {
        assert(groups.drop_last().take(k) =~= groups.take(k));
        lemma_sum_reclaimable_prefix(groups.drop_last(), k);
    } else {
        assert(groups.take(k) =~= groups);
    }
}

/// Positions rise strictly from front to back.
pub open spec fn strictly_rising(s: Seq<usize>) -> bool {
    forall|a: int, b: int| 0 <= a < b < s.len() ==> #[trigger] s[a] < #[trigger] s[b]
}

/// `x` is the new position of some position of `indices` other than `pos`.
pub open spec fn comes_from(indices: Seq<usize>, pos: int, x: usize) -> bool {
    exists|m: int| 0 <= m < indices.len() && indices[m] != pos && x == shifted(#[trigger] indices[m], pos)
}

proof fn lemma_reindex(indices: Seq<usize>, pos: int, n: int)
    requires
        0 <= pos < n,
        forall|k: int| 0 <= k < indices.len() ==> #[trigger] indices[k] < n,
        strictly_rising(indices),
    ensures
        forall|k: int|
            0 <= k < reindex(indices, pos).len() ==> comes_from(
                indices,
                pos,
                #[trigger] reindex(indices, pos)[k],
            ),
        forall|k: int|
            0 <= k < reindex(indices, pos).len() ==> #[trigger] reindex(indices, pos)[k] < n - 1,
        strictly_rising(reindex(indices, pos)),
    decreases indices.len(),
{
    lemma_reindex_origin(indices, pos);
    if indices.len() > 0 {
        let init = indices.drop_last();
        let last = indices.last();
        lemma_reindex(init, pos, n);
        let rest = reindex(init, pos);
        if last != pos {
            let r = rest.push(shifted(last, pos));
            assert forall|k: int| 0 <= k < rest.len() implies #[trigger] rest[k] < shifted(last, pos) by {
                assert(comes_from(init, pos, rest[k]));
                let m = choose|m: int|
                    0 <= m < init.len() && init[m] != pos && rest[k] == shifted(#[trigger] init[m], pos);
                assert(indices[m] < indices[indices.len() - 1]);
            }
            assert(strictly_rising(r));
        }
    }
}

proof fn lemma_regroup_member(groups: Seq<(u64, Seq<usize>)>, pos: int, g: (u64, Seq<usize>))
    requires
        regroup(groups, pos).contains(g),
    ensures
        exists|j: int|
            0 <= j < groups.len() && g == (#[trigger] groups[j].0, reindex(groups[j].1, pos)),
        g.1.len() > 1,
    decreases groups.len(),
{
    let rest = regroup(groups.drop_last(), pos);
    let last = groups.last();
    let kept = reindex(last.1, pos);
    if kept.len() > 1 && g == (last.0, kept) {
        assert(groups[groups.len() - 1] == last);
    } else {
        assert(rest.contains(g)) by {
            let i = choose|i: int| 0 <= i < regroup(groups, pos).len() && regroup(groups, pos)[i] == g;
            if kept.len() > 1 {
                assert(regroup(groups, pos) == rest.push((last.0, kept)));
                assert(i < rest.len());
                assert(rest[i] == g);
            }
        }
        lemma_regroup_member(groups.drop_last(), pos, g);
        let j = choose|j: int|
            0 <= j < groups.drop_last().len() && g == (#[trigger] groups.drop_last()[j].0, reindex(
                groups.drop_last()[j].1,
                pos,
            ));
        assert(groups[j] == groups.drop_last()[j]);
    }
}

proof fn lemma_sum_sizes_remove(files: Seq<FileEntry>, pos: int)
    requires
        0 <= pos < files.len(),
    ensures
        sum_sizes(files.remove(pos)) == sum_sizes(files) - files[pos].size,
        sum_sizes(files) >= files[pos].size,
    decreases files.len(),
{
    lemma_sum_sizes_nonneg(files.drop_last());
    if pos == files.len() - 1 {
        assert(files.remove(pos) =~= files.drop_last());
    } else {
        lemma_sum_sizes_remove(files.drop_last(), pos);
        assert(files.remove(pos).drop_last() =~= files.drop_last().remove(pos));
        assert(files.remove(pos).last() == files.last());
    }
}

/// Sizes never add up to less than zero.
pub proof fn lemma_sum_sizes_nonneg(files: Seq<FileEntry>)
    ensures
        sum_sizes(files) >= 0,
    decreases files.len(),
{
    if files.len() > 0 {
        lemma_sum_sizes_nonneg(files.drop_last());
    }
}

/// Before the removal at `pos`, `file` sat at a position other than `pos` in
/// some duplicate group of `size` bytes each.
pub open spec fn held_in_group(old: ScanResult, pos: int, size: u64, file: FileEntry) -> bool {
    exists|j: int, m: int|
        0 <= j < old.duplicate_groups@.len() && 0 <= m < old.duplicate_groups@[j].file_indices@.len()
            && old.duplicate_groups@[j].file_indices@[m] != pos
            && old.duplicate_groups@[j].size_each == size
            && #[trigger] old.files@[old.duplicate_groups@[j].file_indices@[m] as int] == file
}

/// A removal keeps the duplicate groups sound (and leaves them ordered, so
/// the result is well formed), whatever order the groups had before; and
/// every position that a duplicate group still holds names a file that some
/// group held before, other than the removed one, and that file is unchanged
/// and still has the group's size.
pub proof fn lemma_removal_keeps_groups(old: ScanResult, new: ScanResult, pos: int)
    requires
        old.groups_sound(),
        removal_outcome(old, new, pos),
    ensures
        new.well_formed(),
        forall|g: int, k: int|
            0 <= g < new.duplicate_groups@.len() && 0 <= k
                < new.duplicate_groups@[g].file_indices@.len() ==> held_in_group(
                old,
                pos,
                new.duplicate_groups@[g].size_each,
                new.files@[#[trigger] new.duplicate_groups@[g].file_indices@[k] as int],
            ),
{
    let olds = group_views(old.duplicate_groups@);
    let news = group_views(new.duplicate_groups@);
    let n = old.files@.len() as int;
    assert forall|g: int|
        0 <= g < new.duplicate_groups@.len() implies {
        &&& group_sound(new.files@, #[trigger] new.duplicate_groups@[g]@)
        &&& exists|j: int|
            0 <= j < old.duplicate_groups@.len() && new.duplicate_groups@[g]@ == (
                old.duplicate_groups@[j].size_each,
                reindex(old.duplicate_groups@[j].file_indices@, pos),
            )
    } by {
        let v = new.duplicate_groups@[g]@;
        assert(news[g] == v);
        assert(news.to_multiset().count(v) > 0) by {
            vstd::seq_lib::to_multiset_contains(news, v);
        }
        vstd::seq_lib::to_multiset_contains(regroup(olds, pos), v);
        lemma_regroup_member(olds, pos, v);
        let j = choose|j: int| 0 <= j < olds.len() && v == (#[trigger] olds[j].0, reindex(olds[j].1, pos));
        let ind = old.duplicate_groups@[j].file_indices@;
        assert(olds[j] == old.duplicate_groups@[j]@);
        assert(group_sound(old.files@, old.duplicate_groups@[j]@));
        lemma_reindex(ind, pos, n);
        assert forall|k: int| 0 <= k < v.1.len() implies #[trigger] v.1[k] < new.files@.len()
            && new.files@[v.1[k] as int].size == v.0 by {
            assert(comes_from(ind, pos, v.1[k]));
            let m = choose|m: int| 0 <= m < ind.len() && ind[m] != pos && v.1[k] == shifted(#[trigger] ind[m], pos);
            assert(ind[m] < n);
            assert(new.files@[v.1[k] as int] == old.files@[ind[m] as int]);
        }
    }
    assert forall|g: int, k: int|
        0 <= g < new.duplicate_groups@.len() && 0 <= k
            < new.duplicate_groups@[g].file_indices@.len() implies held_in_group(
        old,
        pos,
        new.duplicate_groups@[g].size_each,
        new.files@[#[trigger] new.duplicate_groups@[g].file_indices@[k] as int],
    ) by {
        let v = new.duplicate_groups@[g]@;
        assert(group_sound(new.files@, new.duplicate_groups@[g]@));
        let j = choose|j: int|
            0 <= j < old.duplicate_groups@.len() && new.duplicate_groups@[g]@ == (
                old.duplicate_groups@[j].size_each,
                reindex(old.duplicate_groups@[j].file_indices@, pos),
            );
        let ind = old.duplicate_groups@[j].file_indices@;
        assert(group_sound(old.files@, old.duplicate_groups@[j]@));
        lemma_reindex(ind, pos, n);
        assert(comes_from(ind, pos, v.1[k]));
        let m = choose|m: int| 0 <= m < ind.len() && ind[m] != pos && v.1[k] == shifted(#[trigger] ind[m], pos);
        assert(ind[m] < n);
        assert(new.files@[v.1[k] as int] == old.files@[ind[m] as int]);
        assert(old.files@[old.duplicate_groups@[j].file_indices@[m] as int] == old.files@[ind[m] as int]);
    }
}

/// When the total was the sum of the file sizes before a removal, it still is
/// afterwards.
pub proof fn lemma_removal_keeps_total(old: ScanResult, new: ScanResult, pos: int)
    requires
        removal_outcome(old, new, pos),
        old.total_bytes == sum_sizes(old.files@),
    ensures
        new.total_bytes == sum_sizes(new.files@),
{
    lemma_sum_sizes_remove(old.files@, pos);
}

/// Two group views share no file position.
pub open spec fn groups_apart(g: (u64, Seq<usize>), h: (u64, Seq<usize>)) -> bool {
    forall|x: int, y: int| 0 <= x < g.1.len() && 0 <= y < h.1.len() ==> #[trigger] g.1[x] != #[trigger] h.1[y]
}

/// No file position belongs to two of `groups`.
pub open spec fn disjoint_groups(groups: Seq<(u64, Seq<usize>)>) -> bool {
    forall|a: int, b: int| 0 <= a < b < groups.len() ==> groups_apart(#[trigger] groups[a], #[trigger] groups[b])
}

impl ScanResult {
    /// No file belongs to two duplicate groups.
    pub open spec fn groups_disjoint(&self) -> bool {
        disjoint_groups(group_views(self.duplicate_groups@))
    }
}

/// Every position that `reindex` gives comes from a position of `indices`
/// other than `pos`.
proof fn lemma_reindex_origin(indices: Seq<usize>, pos: int)
    ensures
        forall|k: int|
            0 <= k < reindex(indices, pos).len() ==> comes_from(
                indices,
                pos,
                #[trigger] reindex(indices, pos)[k],
            ),
    decreases indices.len(),
{
    if indices.len() > 0 {
        let init = indices.drop_last();
        lemma_reindex_origin(init, pos);
        let rest = reindex(init, pos);
        assert forall|k: int| 0 <= k < rest.len() implies comes_from(indices, pos, #[trigger] rest[k]) by {
            assert(comes_from(init, pos, rest[k]));
            let m = choose|m: int|
                0 <= m < init.len() && init[m] != pos && rest[k] == shifted(#[trigger] init[m], pos);
            assert(indices[m] == init[m]);
        }
        if indices.last() != pos {
            let r = rest.push(shifted(indices.last(), pos));
            assert(comes_from(indices, pos, shifted(indices.last(), pos))) by {
                assert(indices[indices.len() - 1] == indices.last());
            }
            assert forall|k: int| 0 <= k < r.len() implies comes_from(indices, pos, #[trigger] r[k]) by {
                if k < rest.len() {
                    assert(r[k] == rest[k]);
                }
            }
        }
    }
}

/// Position lists that share nothing still share nothing once the file at
/// `pos` is gone: the shift is one to one on the positions that stay.
proof fn lemma_reindex_apart(g: (u64, Seq<usize>), h: (u64, Seq<usize>), pos: int)
    requires
        0 <= pos,
        groups_apart(g, h),
    ensures
        groups_apart((g.0, reindex(g.1, pos)), (h.0, reindex(h.1, pos))),
{
    let rg = reindex(g.1, pos);
    let rh = reindex(h.1, pos);
    lemma_reindex_origin(g.1, pos);
    lemma_reindex_origin(h.1, pos);
    assert forall|x: int, y: int| 0 <= x < rg.len() && 0 <= y < rh.len() implies #[trigger] rg[x] != #[trigger] rh[y] by {
        assert(comes_from(g.1, pos, rg[x]));
        assert(comes_from(h.1, pos, rh[y]));
        let m = choose|m: int| 0 <= m < g.1.len() && g.1[m] != pos && rg[x] == shifted(#[trigger] g.1[m], pos);
        let n = choose|n: int| 0 <= n < h.1.len() && h.1[n] != pos && rh[y] == shifted(#[trigger] h.1[n], pos);
        assert(g.1[m] != h.1[n]);
    }
}

proof fn lemma_regroup_disjoint(groups: Seq<(u64, Seq<usize>)>, pos: int)
    requires
        0 <= pos,
        disjoint_groups(groups),
    ensures
        disjoint_groups(regroup(groups, pos)),
    decreases groups.len(),
{
    if groups.len() > 0 {
        let init = groups.drop_last();
        assert forall|a: int, b: int| 0 <= a < b < init.len() implies groups_apart(#[trigger] init[a], #[trigger] init[b]) by {
            assert(init[a] == groups[a]);
            assert(init[b] == groups[b]);
        }
        lemma_regroup_disjoint(init, pos);
        let rest = regroup(init, pos);
        let g = groups.last();
        let kept = reindex(g.1, pos);
        if kept.len() > 1 {
            let r = rest.push((g.0, kept));
            assert forall|a: int, b: int| 0 <= a < b < r.len() implies groups_apart(#[trigger] r[a], #[trigger] r[b]) by {
                assert(r[a] == rest[a]);
                if b < rest.len() {
                    assert(r[b] == rest[b]);
                } else {
                    assert(rest.contains(rest[a]));
                    lemma_regroup_member(init, pos, rest[a]);
                    let j = choose|j: int|
                        0 <= j < init.len() && rest[a] == (#[trigger] init[j].0, reindex(init[j].1, pos));
                    assert(init[j] == groups[j]);
                    assert(groups_apart(groups[j], groups[groups.len() - 1]));
                    lemma_reindex_apart(groups[j], g, pos);
                }
            }
        }
    }
}

/// A removal keeps the duplicate groups pairwise disjoint: when no file
/// belonged to two groups before, none does afterwards.
pub proof fn lemma_removal_keeps_groups_disjoint(old: ScanResult, new: ScanResult, pos: int)
    requires
        old.groups_disjoint(),
        removal_outcome(old, new, pos),
    ensures
        new.groups_disjoint(),
{
    let olds = group_views(old.duplicate_groups@);
    let news = group_views(new.duplicate_groups@);
    lemma_regroup_disjoint(olds, pos);
    let apart = |g: (u64, Seq<usize>), h: (u64, Seq<usize>)| groups_apart(g, h);
    assert forall|g: (u64, Seq<usize>), h: (u64, Seq<usize>)| #[trigger] apart(g, h) implies apart(h, g) by {
        assert forall|x: int, y: int| 0 <= x < h.1.len() && 0 <= y < g.1.len() implies #[trigger] h.1[x] != #[trigger] g.1[y] by {
            assert(g.1[y] != h.1[x]);
        }
    }
    lemma_permutation_keeps_apart(regroup(olds, pos), news, apart);
}

/// Some position of `indices` is `pos`.
pub open spec fn holds_position(indices: Seq<usize>, pos: int) -> bool {
    exists|m: int| 0 <= m < indices.len() && indices[m] == pos
}

/// The reclaimable bytes of a group view.
pub open spec fn view_reclaimable(v: (u64, Seq<usize>)) -> int {
    spec_reclaimable(v.0, v.1.len()) as int
}

/// The reclaimable bytes of every group view, added up.
pub open spec fn sum_view_reclaimable(vs: Seq<(u64, Seq<usize>)>) -> int
    decreases vs.len(),
{
    if vs.len() == 0 {
        0
    } else {
        sum_view_reclaimable(vs.drop_last()) + view_reclaimable(vs.last())
    }
}

/// The sizes of the groups that hold position `pos`, added up.
pub open spec fn removed_share(vs: Seq<(u64, Seq<usize>)>, pos: int) -> int
    decreases vs.len(),
{
    if vs.len() == 0 {
        0
    } else {
        removed_share(vs.drop_last(), pos) + if holds_position(vs.last().1, pos) {
            vs.last().0 as int
        } else {
            0
        }
    }
}

/// Every group of `old` frees exactly `size_each` times one less than its
/// number of files: none is held at `u64::MAX`.
pub open spec fn reclaimable_exact(old: ScanResult) -> bool {
    forall|j: int|
        0 <= j < old.duplicate_groups@.len() ==> (#[trigger] old.duplicate_groups@[j]).size_each * (
        old.duplicate_groups@[j].file_indices@.len() - 1) <= u64::MAX
}

proof fn lemma_sum_views_of_groups(groups: Seq<DuplicateGroup>)
    ensures
        sum_reclaimable(groups) == sum_view_reclaimable(group_views(groups)),
    decreases groups.len(),
{
    if groups.len() > 0 {
        lemma_sum_views_of_groups(groups.drop_last());
        assert(group_views(groups).drop_last() =~= group_views(groups.drop_last()));
    }
}

proof fn lemma_sum_views_remove(vs: Seq<(u64, Seq<usize>)>, p: int)
    requires
        0 <= p < vs.len(),
    ensures
        sum_view_reclaimable(vs) == sum_view_reclaimable(vs.remove(p)) + view_reclaimable(vs[p]),
    decreases vs.len(),
{
    if p == vs.len() - 1 {
        assert(vs.remove(p) =~= vs.drop_last());
    } else {
        lemma_sum_views_remove(vs.drop_last(), p);
        assert(vs.remove(p).drop_last() =~= vs.drop_last().remove(p));
        assert(vs.remove(p).last() == vs.last());
    }
}

proof fn lemma_sum_views_permutation(a: Seq<(u64, Seq<usize>)>, b: Seq<(u64, Seq<usize>)>)
    requires
        a.to_multiset() == b.to_multiset(),
    ensures
        sum_view_reclaimable(a) == sum_view_reclaimable(b),
    decreases a.len(),
{
    broadcast use vstd::seq_lib::group_to_multiset_ensures;

    if a.len() == 0 {
        assert(a.to_multiset().len() == 0);
        assert(b.to_multiset().len() == b.len());
    } else {
        let x = a.last();
        assert(a.drop_last().push(x) =~= a);
        assert(b.to_multiset().count(x) > 0);
        assert(b.contains(x));
        let p = choose|p: int| 0 <= p < b.len() && b[p] == x;
        lemma_sum_views_remove(b, p);
        assert(a.drop_last().to_multiset() =~= b.remove(p).to_multiset());
        lemma_sum_views_permutation(a.drop_last(), b.remove(p));
    }
}

/// Removing `pos` from strictly rising positions takes one away exactly when
/// `pos` is among them.
proof fn lemma_reindex_len(indices: Seq<usize>, pos: int)
    requires
        strictly_rising(indices),
    ensures
        reindex(indices, pos).len() == indices.len() - if holds_position(indices, pos) {
            1int
        } else {
            0int
        },
    decreases indices.len(),
{
    if indices.len() > 0 {
        let init = indices.drop_last();
        assert(strictly_rising(init)) by {
            assert forall|a: int, b: int| 0 <= a < b < init.len() implies #[trigger] init[a] < #[trigger] init[b] by {
                assert(init[a] == indices[a] && init[b] == indices[b]);
            }
        }
        lemma_reindex_len(init, pos);
        let last = indices.last();
        if last == pos {
            assert(holds_position(indices, pos)) by {
                assert(indices[indices.len() - 1] == pos);
            }
            assert(!holds_position(init, pos)) by {
                if holds_position(init, pos) {
                    let m = choose|m: int| 0 <= m < init.len() && init[m] == pos;
                    assert(indices[m] < indices[indices.len() - 1]);
                }
            }
        } else {
            assert(holds_position(indices, pos) == holds_position(init, pos)) by {
                if holds_position(indices, pos) {
                    let m = choose|m: int| 0 <= m < indices.len() && indices[m] == pos;
                    assert(m < init.len());
                    assert(init[m] == pos);
                }
                if holds_position(init, pos) {
                    let m = choose|m: int| 0 <= m < init.len() && init[m] == pos;
                    assert(indices[m] == pos);
                }
            }
        }
    }
}

/// One less file in a group of `n` files frees `size` bytes less, or the
/// whole `size` when the group falls below two files.
proof fn lemma_one_copy_less(size: u64, n: nat)
    requires
        n >= 2,
        size * (n - 1) <= u64::MAX,
    ensures
        (spec_reclaimable(size, n) as int) - size == if n - 1 > 1 {
            spec_reclaimable(size, (n - 1) as nat) as int
        } else {
            0int
        },
{
    let whole: int = size * (n - 1);
    let less: int = size * (n - 2);
    assert(whole == less + size) by (nonlinear_arith)
        requires
            whole == size * (n - 1),
            less == size * (n - 2),
    ;
    assert(less >= 0) by (nonlinear_arith)
        requires
            n >= 2,
            less == size * (n - 2),
    ;
    assert(spec_reclaimable(size, n) as int == whole);
    if n - 1 > 1 {
        assert(spec_reclaimable(size, (n - 1) as nat) as int == less);
    } else {
        assert(less == 0) by (nonlinear_arith)
            requires
                n == 2,
                less == size * (n - 2),
        ;
    }
}

proof fn lemma_regroup_sum(vs: Seq<(u64, Seq<usize>)>, pos: int)
    requires
        forall|j: int|
            0 <= j < vs.len() ==> #[trigger] vs[j].1.len() > 1 && strictly_rising(vs[j].1) && vs[j].0 * (
            vs[j].1.len() - 1) <= u64::MAX,
    ensures
        sum_view_reclaimable(regroup(vs, pos)) == sum_view_reclaimable(vs) - removed_share(vs, pos),
    decreases vs.len(),
{
    if vs.len() > 0 {
        let init = vs.drop_last();
        assert forall|j: int| 0 <= j < init.len() implies #[trigger] init[j].1.len() > 1 && strictly_rising(init[j].1)
            && init[j].0 * (init[j].1.len() - 1) <= u64::MAX by {
            assert(init[j] == vs[j]);
        }
        lemma_regroup_sum(init, pos);
        let g = vs.last();
        assert(g == vs[vs.len() - 1]);
        let kept = reindex(g.1, pos);
        lemma_reindex_len(g.1, pos);
        let rest = regroup(init, pos);
        if kept.len() > 1 {
            assert(regroup(vs, pos).drop_last() =~= rest);
        }
        if holds_position(g.1, pos) {
            lemma_one_copy_less(g.0, g.1.len());
        }
    }
}

/// With the groups pairwise disjoint, the share removed at `pos` is the size
/// of the one group that holds `pos`, or zero when none does.
proof fn lemma_removed_share_single(vs: Seq<(u64, Seq<usize>)>, pos: int)
    requires
        disjoint_groups(vs),
    ensures
        forall|j: int| 0 <= j < vs.len() && holds_position(#[trigger] vs[j].1, pos) ==> removed_share(vs, pos) == vs[j].0,
        (forall|j: int| 0 <= j < vs.len() ==> !holds_position(#[trigger] vs[j].1, pos)) ==> removed_share(vs, pos) == 0,
    decreases vs.len(),
{
    if vs.len() > 0 {
        let init = vs.drop_last();
        let last = vs.last();
        assert(last == vs[vs.len() - 1]);
        assert forall|a: int, b: int| 0 <= a < b < init.len() implies groups_apart(#[trigger] init[a], #[trigger] init[b]) by {
            assert(init[a] == vs[a]);
            assert(init[b] == vs[b]);
        }
        lemma_removed_share_single(init, pos);
        assert forall|j: int| 0 <= j < init.len() && holds_position(vs[j].1, pos) implies !holds_position(last.1, pos) by {
            assert(groups_apart(vs[j], vs[vs.len() - 1]));
            let m = choose|m: int| 0 <= m < vs[j].1.len() && vs[j].1[m] == pos;
            if holds_position(last.1, pos) {
                let k = choose|k: int| 0 <= k < last.1.len() && last.1[k] == pos;
                assert(vs[j].1[m] != last.1[k]);
            }
        }
        assert forall|j: int| 0 <= j < vs.len() && holds_position(#[trigger] vs[j].1, pos) implies removed_share(vs, pos) == vs[j].0 by {
            if j < init.len() {
                assert(init[j] == vs[j]);
            } else {
                assert forall|i: int| 0 <= i < init.len() implies !holds_position(#[trigger] init[i].1, pos) by {
                    assert(init[i] == vs[i]);
                }
            }
        }
        if forall|j: int| 0 <= j < vs.len() ==> !holds_position(#[trigger] vs[j].1, pos) {
            assert forall|i: int| 0 <= i < init.len() implies !holds_position(#[trigger] init[i].1, pos) by {
                assert(init[i] == vs[i]);
            }
        }
    }
}

/// What a removal does to the reclaimable bytes: when the groups are sound
/// (in any order) and pairwise disjoint and no group's bytes are held at
/// `u64::MAX`, the
/// total that `duplicate_bytes` reports drops by the size of each file of the
/// group that held the removed file, and stays the same when no group held
/// it.
pub proof fn lemma_removal_reclaimable(old: ScanResult, new: ScanResult, pos: int)
    requires
        old.groups_sound(),
        old.groups_disjoint(),
        reclaimable_exact(old),
        removal_outcome(old, new, pos),
    ensures
        forall|j: int|
            0 <= j < old.duplicate_groups@.len() && holds_position(
                #[trigger] old.duplicate_groups@[j].file_indices@,
                pos,
            ) ==> sum_reclaimable(new.duplicate_groups@) == sum_reclaimable(old.duplicate_groups@)
                - old.duplicate_groups@[j].size_each,
        (forall|j: int|
            0 <= j < old.duplicate_groups@.len() ==> !holds_position(
                #[trigger] old.duplicate_groups@[j].file_indices@,
                pos,
            )) ==> sum_reclaimable(new.duplicate_groups@) == sum_reclaimable(old.duplicate_groups@),
{
    let olds = group_views(old.duplicate_groups@);
    let news = group_views(new.duplicate_groups@);
    assert forall|j: int| 0 <= j < olds.len() implies #[trigger] olds[j].1.len() > 1 && strictly_rising(olds[j].1)
        && olds[j].0 * (olds[j].1.len() - 1) <= u64::MAX by {
        assert(olds[j] == old.duplicate_groups@[j]@);
        assert(group_sound(old.files@, old.duplicate_groups@[j]@));
    }
    lemma_regroup_sum(olds, pos);
    lemma_sum_views_permutation(regroup(olds, pos), news);
    lemma_sum_views_of_groups(old.duplicate_groups@);
    lemma_sum_views_of_groups(new.duplicate_groups@);
    lemma_removed_share_single(olds, pos);
    assert forall|j: int| 0 <= j < old.duplicate_groups@.len() implies olds[j] == (#[trigger] old.duplicate_groups@[j])@ by {}
}

/// When no two files' paths both match `path`, removing by `path` leaves no
/// file whose path matches it, so removing the same path again returns
/// `false` and changes nothing.
pub proof fn lemma_removed_path_gone(old: ScanResult, new: ScanResult, path: &Path)
    requires
        forall|i: int, j: int|
            0 <= i < j < old.files@.len() && path_matches(#[trigger] old.files@[i].path, path) ==> !path_matches(
                #[trigger] old.files@[j].path,
                path,
            ),
        has_match(old.files@, path),
        removal_outcome(old, new, first_match(old.files@, path)),
    ensures
        !has_match(new.files@, path),
{
    let i = choose|i: int| 0 <= i < old.files@.len() && path_matches((#[trigger] old.files@[i]).path, path);
    assert forall|k: int| 0 <= k < i implies !path_matches((#[trigger] old.files@[k]).path, path) by {
        if path_matches(old.files@[k].path, path) {
            assert(!path_matches(old.files@[i].path, path));
        }
    }
    lemma_first_match_unique(old.files@, path, i);
    if has_match(new.files@, path) {
        let k = choose|k: int| 0 <= k < new.files@.len() && path_matches((#[trigger] new.files@[k]).path, path);
        if k < i {
            assert(new.files@[k] == old.files@[k]);
        } else {
            assert(new.files@[k] == old.files@[k + 1]);
            assert(!path_matches(old.files@[k + 1].path, path));
        }
    }
}

} // verus!
