use vstd::prelude::*;
use crate::model::{FileEntry, sum_sizes};
use crate::order::{sort_desc, sorted_desc, RankKey};
use crate::text::{ascii_lower, lowercase_chars, string_of};

verus! {

/// Some part of a path (taken below the scanned folder) starts with a dot.
pub open spec fn spec_is_hidden(components: Seq<String>) -> bool {
    exists|i: int|
        0 <= i < components.len() && (#[trigger] components[i])@.len() > 0 && components[i]@[0]
            == '.'
}

/// Whether a file is hidden: some part of its path below the scanned folder
/// starts with a dot.
pub fn is_hidden(components: &Vec<String>) -> (hidden: bool)
    ensures
        hidden == spec_is_hidden(components@),
{
    let n = components.len();
    for i in 0..n
        invariant
            n == components@.len(),
            forall|k: int|
                0 <= k < i ==> !((#[trigger] components@[k])@.len() > 0 && components@[k]@[0] == '.'),
    {
        let part = components[i].as_str();
        if part.unicode_len() > 0 && part.get_char(0) == '.' {
            return true;
        }
    }
    false
}

/// What the folder walk does with one entry before reading its metadata.
#[derive(Debug)]
pub enum WalkStep {
    /// The walk could not read the entry: it counts as skipped.
    Skip,
    /// Not a regular file, or hidden while hidden files are left out.
    Ignore,
    /// A file to record, once its metadata is read.
    ReadMetadata,
}

/// The step for an entry: `readable` tells whether the walk could read it,
/// `is_file` whether it is a regular file, and `components` are the parts of
/// its path below the scanned folder.
pub open spec fn spec_walk_step(readable: bool, is_file: bool, include_hidden: bool, components: Seq<String>) -> WalkStep {
    if !readable {
        WalkStep::Skip
    } else if !is_file {
        WalkStep::Ignore
    } else if !include_hidden && spec_is_hidden(components) {
        WalkStep::Ignore
    } else {
        WalkStep::ReadMetadata
    }
}

/// Decides what the walk does with one entry: an unreadable entry is
/// skipped, anything but a regular file is ignored, so is a hidden file when
/// hidden files are left out, and every other file has its metadata read.
pub fn walk_step(readable: bool, is_file: bool, include_hidden: bool, components: &Vec<String>) -> (step: WalkStep)
    ensures
        step == spec_walk_step(readable, is_file, include_hidden, components@),
{
    if !readable {
        WalkStep::Skip
    } else if !is_file {
        WalkStep::Ignore
    } else if !include_hidden && is_hidden(components) {
        WalkStep::Ignore
    } else {
        WalkStep::ReadMetadata
    }
}

/// The type of a file from the extension of its name: in ASCII small
/// letters, and `no extension` when it has none or an empty one.
pub open spec fn spec_file_type(raw: Option<Seq<char>>) -> Seq<char> {
    match raw {
        Some(e) => if e.len() > 0 {
            ascii_lower(e)
        } else {
            "no extension"@
        },
        None => "no extension"@,
    }
}

/// The type of a file from the extension of its name, if it has one.
pub fn file_type(raw: Option<&str>) -> (kind: String)
    ensures
        kind@ == spec_file_type(
            match raw {
                Some(e) => Some(e@),
                None => None,
            },
        ),
{
    match raw {
        Some(e) => {
            let lower = lowercase_chars(e);
            if lower.len() > 0 {
                string_of(&lower)
            } else {
                "no extension".to_owned()
            }
        },
        None => "no extension".to_owned(),
    }
}

/// `total + size`, held at `u64::MAX`.
pub open spec fn saturating_total(total: u64, size: u64) -> u64 {
    if total + size > u64::MAX {
        u64::MAX
    } else {
        (total + size) as u64
    }
}

/// What a scan has gathered so far: the files found, their total size (held
/// at `u64::MAX`) and how many entries could not be read.
pub struct ScanTally {
    pub files: Vec<FileEntry>,
    pub total_bytes: u64,
    pub skipped: u64,
}

/// Every how many files a scan reports progress.
pub const PROGRESS_EVERY: usize = 1000;

impl ScanTally {
    /// The size of all files found, held at `u64::MAX`.
    pub open spec fn consistent(&self) -> bool {
        self.total_bytes == (if sum_sizes(self.files@) > u64::MAX {
            u64::MAX as int
        } else {
            sum_sizes(self.files@)
        })
    }

    /// A scan that has found nothing yet.
    pub fn new() -> (tally: ScanTally)
        ensures
            tally.files@.len() == 0,
            tally.total_bytes == 0,
            tally.skipped == 0,
            tally.consistent(),
    {
        ScanTally { files: Vec::new(), total_bytes: 0, skipped: 0 }
    }

    /// Counts one entry that could not be read.
    pub fn record_skip(&mut self)
        requires
            old(self).skipped < u64::MAX,
        ensures
            final(self).skipped == old(self).skipped + 1,
            final(self).files@ == old(self).files@,
            final(self).total_bytes == old(self).total_bytes,
    {
        self.skipped = self.skipped + 1;
    }

    /// Adds a file found; returns whether progress is due, which it is each
    /// time the count of files reaches a multiple of `PROGRESS_EVERY`.
    pub fn record_file(&mut self, entry: FileEntry) -> (progress_due: bool)
        requires
            old(self).files@.len() < usize::MAX,
        ensures
            final(self).files@ == old(self).files@.push(entry),
            final(self).total_bytes == saturating_total(old(self).total_bytes, entry.size),
            final(self).skipped == old(self).skipped,
            old(self).consistent() ==> final(self).consistent(),
            progress_due == (final(self).files@.len() % PROGRESS_EVERY as nat == 0),
    {
        let ghost before = self.files@;
        self.total_bytes = self.total_bytes.saturating_add(entry.size);
        self.files.push(entry);
        proof {
            assert(self.files@.drop_last() =~= before);
            crate::model::lemma_sum_sizes_nonneg(before);
        }
        self.files.len() % PROGRESS_EVERY == 0
    }

    /// The files found, largest first (equal sizes in any order), with the
    /// total size and the count of entries that could not be read.
    pub fn finish(self) -> (done: (Vec<FileEntry>, u64, u64))
        ensures
            sorted_desc(done.0@),
            forall|a: int, b: int| 0 <= a < b < done.0@.len() ==> (#[trigger] done.0@[a]).size >= (#[trigger] done.0@[b]).size,
            done.0@.to_multiset() == self.files@.to_multiset(),
            done.1 == self.total_bytes,
            done.2 == self.skipped,
    {
        let files = sort_desc(self.files);
        proof {
            assert forall|a: int, b: int| 0 <= a < b < files@.len() implies (#[trigger] files@[a]).size >= (#[trigger] files@[b]).size by {
                assert(files@[a].rank_key() >= files@[b].rank_key());
            }
        }
        (files, self.total_bytes, self.skipped)
    }
}


/// A file is hidden when any part of its path below the scanned folder,
/// at any depth, starts with a dot; and then, with hidden files left out,
/// the walk ignores it.
pub proof fn lemma_hidden_at_any_depth(components: Seq<String>, i: int)
    requires
        0 <= i < components.len(),
        components[i]@.len() > 0,
        components[i]@[0] == '.',
    ensures
        spec_is_hidden(components),
        spec_walk_step(true, true, false, components) is Ignore,
        spec_walk_step(true, true, true, components) is ReadMetadata,
{
}

/// A file none of whose parts starts with a dot is not hidden, and the walk
/// reads it.
pub proof fn lemma_not_hidden(components: Seq<String>)
    requires
        forall|i: int| 0 <= i < components.len() ==> !((#[trigger] components[i])@.len() > 0 && components[i]@[0] == '.'),
    ensures
        !spec_is_hidden(components),
        spec_walk_step(true, true, false, components) is ReadMetadata,
{
}

/// An unreadable entry is always skipped, and anything but a regular file is
/// always ignored.
pub proof fn lemma_walk_skips_and_ignores(is_file: bool, include_hidden: bool, components: Seq<String>)
    ensures
        spec_walk_step(false, is_file, include_hidden, components) is Skip,
        spec_walk_step(true, false, include_hidden, components) is Ignore,
{
}

/// A file's type keeps every character of a non-empty extension, in order,
/// with the ASCII capitals `A`..`Z` made small and every other character
/// unchanged; without an extension, or with an empty one, it is
/// "no extension".
pub proof fn lemma_file_type_keeps_extension(e: Seq<char>)
    ensures
        e.len() > 0 ==> spec_file_type(Some(e)).len() == e.len(),
        e.len() > 0 ==> forall|i: int|
            0 <= i < e.len() ==> {
                let c = e[i];
                let t = #[trigger] spec_file_type(Some(e))[i];
                &&& ('A' <= c && c <= 'Z') ==> t as u32 == c as u32 + 32
                &&& !('A' <= c && c <= 'Z') ==> t == c
            },
        e.len() == 0 ==> spec_file_type(Some(e)) == "no extension"@,
        spec_file_type(None) == "no extension"@,
{
    if e.len() > 0 {
        assert forall|i: int| 0 <= i < e.len() implies {
            let c = e[i];
            let t = #[trigger] spec_file_type(Some(e))[i];
            &&& ('A' <= c && c <= 'Z') ==> t as u32 == c as u32 + 32
            &&& !('A' <= c && c <= 'Z') ==> t == c
        } by {
            let c = e[i];
            assert(spec_file_type(Some(e))[i] == crate::text::lower_char(c));
        }
    }
}

} // verus!
