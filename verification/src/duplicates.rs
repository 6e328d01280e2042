use vstd::prelude::*;
use std::collections::HashMap;
use crate::model::{most_freed_first, lemma_sorted_groups_most_freed_first, DuplicateGroup, FileEntry, ScanResult, group_views, group_sound, strictly_rising, groups_apart, disjoint_groups};
use crate::digest::digests_equal;
use crate::order::{sort_desc, sorted_desc, lemma_map_keeps_multiset, lemma_permutation_keeps_apart};

verus! {

broadcast use vstd::std_specs::hash::group_hash_axioms;

/// The positions in `files` of the files of `size` bytes, front to back.
pub open spec fn positions_with_size(files: Seq<FileEntry>, size: u64) -> Seq<usize>
    decreases files.len(),
{
    if files.len() == 0 {
        Seq::empty()
    } else {
        let rest = positions_with_size(files.drop_last(), size);
        if files.last().size == size {
            rest.push((files.len() - 1) as usize)
        } else {
            rest
        }
    }
}

/// The positions of the files of one size rise strictly, lie in `files` and
/// name files of that size.
proof fn lemma_positions_sound(files: Seq<FileEntry>, size: u64)
    requires
        files.len() <= usize::MAX,
    ensures
        strictly_rising(positions_with_size(files, size)),
        forall|k: int|
            0 <= k < positions_with_size(files, size).len() ==> #[trigger] positions_with_size(
                files,
                size,
            )[k] < files.len() && files[positions_with_size(files, size)[k] as int].size == size,
    decreases files.len(),
{
    if files.len() > 0 {
        let init = files.drop_last();
        lemma_positions_sound(init, size);
        let rest = positions_with_size(init, size);
        assert forall|k: int| 0 <= k < rest.len() implies #[trigger] rest[k] < files.len()
            && files[rest[k] as int].size == size by {
            assert(files[rest[k] as int] == init[rest[k] as int]);
        }
        if files.last().size == size {
            let r = rest.push((files.len() - 1) as usize);
            assert(files[files.len() - 1] == files.last());
            assert forall|a: int, b: int| 0 <= a < b < r.len() implies #[trigger] r[a] < #[trigger] r[b] by {
                if b == rest.len() {
                    assert(rest[a] < init.len());
                } else {
                    assert(r[a] == rest[a] && r[b] == rest[b]);
                }
            }
            assert forall|k: int| 0 <= k < r.len() implies #[trigger] r[k] < files.len()
                && files[r[k] as int].size == size by {
                if k < rest.len() {
                    assert(r[k] == rest[k]);
                }
            }
        }
    }
}

proof fn lemma_positions_absent(files: Seq<FileEntry>, size: u64)
    requires
        forall|k: int| 0 <= k < files.len() ==> (#[trigger] files[k]).size != size,
    ensures
        positions_with_size(files, size) == Seq::<usize>::empty(),
    decreases files.len(),
{
    if files.len() > 0 {
        assert forall|k: int| 0 <= k < files.drop_last().len() implies (
        #[trigger] files.drop_last()[k]).size != size by {
            assert(files.drop_last()[k] == files[k]);
        }
        lemma_positions_absent(files.drop_last(), size);
        assert(files[files.len() - 1] == files.last());
    }
}

/// `groups` are the size groups of `files`: one for every non-zero size
/// that at least two files share, each holding all positions of that size
/// front to back, sizes differing from group to group.
#[verifier::opaque]
pub open spec fn size_grouped(files: Seq<FileEntry>, groups: Seq<DuplicateGroup>) -> bool {
    &&& forall|a: int|
        0 <= a < groups.len() ==> {
            &&& (#[trigger] groups[a]).size_each > 0
            &&& groups[a].file_indices@ == positions_with_size(files, groups[a].size_each)
            &&& groups[a].file_indices@.len() > 1
            &&& group_sound(files, groups[a]@)
        }
    &&& forall|a: int, b: int|
        0 <= a < b < groups.len() ==> (#[trigger] groups[a]).size_each != (
        #[trigger] groups[b]).size_each
    &&& forall|i: int|
        0 <= i < files.len() && (#[trigger] files[i]).size > 0 && positions_with_size(
            files,
            files[i].size,
        ).len() > 1 ==> exists|a: int|
            0 <= a < groups.len() && (#[trigger] groups[a]).size_each == files[i].size
}

/// Groups the non-empty files by size: one group for every size that at
/// least two non-empty files share, holding all their positions front to
/// back. Sizes differ from group to group; groups come in no set order.
pub fn size_candidates(files: &Vec<FileEntry>) -> (groups: Vec<DuplicateGroup>)
    ensures
        size_grouped(files@, groups@),
{
    let n = files.len();
    let mut slot_of: HashMap<u64, usize> = HashMap::new();
    let mut sizes: Vec<u64> = Vec::new();
    let mut members: Vec<Vec<usize>> = Vec::new();
    for i in 0..n
        invariant
            n == files@.len(),
            sizes@.len() == members@.len(),
            forall|j: int|
                0 <= j < sizes@.len() ==> {
                    &&& #[trigger] sizes@[j] > 0
                    &&& slot_of@.contains_key(sizes@[j])
                    &&& slot_of@[sizes@[j]] == j
                    &&& members@[j]@ == positions_with_size(files@.take(i as int), sizes@[j])
                },
            forall|s: u64|
                #[trigger] slot_of@.contains_key(s) ==> slot_of@[s] < sizes@.len() && sizes@[slot_of@[s] as int] == s,
            forall|k: int|
                0 <= k < i && (#[trigger] files@[k]).size > 0 ==> slot_of@.contains_key(files@[k].size),
    {
        let size = files[i].size;
        let ghost prefix = files@.take(i as int);
        proof {
            assert(files@.take(i + 1).drop_last() =~= prefix);
            assert(files@.take(i + 1).last() == files@[i as int]);
        }
        if size > 0 {
            match slot_of.get(&size) {
                Some(slot) => {
                    let slot = *slot;
                    members[slot].push(i);
                },
                None => {
                    proof {
                        assert forall|k: int| 0 <= k < prefix.len() implies (
                        #[trigger] prefix[k]).size != size by {
                            assert(prefix[k] == files@[k]);
                        }
                        lemma_positions_absent(prefix, size);
                    }
                    let slot = sizes.len();
                    slot_of.insert(size, slot);
                    sizes.push(size);
                    let mut fresh: Vec<usize> = Vec::new();
                    fresh.push(i);
                    members.push(fresh);
                },
            }
        }
        proof {
            assert forall|j: int| 0 <= j < sizes@.len() implies members@[j]@ == positions_with_size(
                files@.take(i + 1),
                #[trigger] sizes@[j],
            ) by {
                assert(files@.take(i + 1).drop_last() =~= prefix);
            }
        }
    }
    proof {
        assert(files@.take(n as int) =~= files@);
    }
    let count = sizes.len();
    let mut groups: Vec<DuplicateGroup> = Vec::new();
    let ghost all_members = members@;
    for j in 0..count
        invariant
            count == sizes@.len(),
            members@.len() == count,
            all_members.len() == count,
            forall|t: int| j <= t < count ==> #[trigger] members@[t] == all_members[t],
            forall|t: int|
                0 <= t < count ==> {
                    &&& #[trigger] sizes@[t] > 0
                    &&& all_members[t]@ == positions_with_size(files@, sizes@[t])
                },
            forall|a: int, b: int| 0 <= a < b < count ==> #[trigger] sizes@[a] != #[trigger] sizes@[b],
            forall|a: int|
                0 <= a < groups@.len() ==> {
                    &&& (#[trigger] groups@[a]).size_each > 0
                    &&& groups@[a].file_indices@ == positions_with_size(files@, groups@[a].size_each)
                    &&& groups@[a].file_indices@.len() > 1
                    &&& exists|t: int| 0 <= t < j && sizes@[t] == groups@[a].size_each
                },
            forall|a: int, b: int|
                0 <= a < b < groups@.len() ==> (#[trigger] groups@[a]).size_each != (
                #[trigger] groups@[b]).size_each,
            forall|t: int|
                0 <= t < j && all_members[t]@.len() > 1 ==> exists|a: int|
                    0 <= a < groups@.len() && (#[trigger] groups@[a]).size_each == sizes@[t],
    {
        let mut taken: Vec<usize> = Vec::new();
        std::mem::swap(&mut taken, &mut members[j]);
        if taken.len() > 1 {
            let ghost before = groups@;
            let group = DuplicateGroup { size_each: sizes[j], file_indices: taken };
            groups.push(group);
            proof {
                assert forall|a: int| 0 <= a < before.len() implies (#[trigger] groups@[a]).size_each
                    != sizes@[j as int] by {
                    assert(groups@[a] == before[a]);
                    let t = choose|t: int| 0 <= t < j && sizes@[t] == before[a].size_each;
                }
                assert(groups@[before.len() as int].size_each == sizes@[j as int]);
                assert forall|t: int|
                    0 <= t < j + 1 && all_members[t]@.len() > 1 implies exists|a: int|
                    0 <= a < groups@.len() && (#[trigger] groups@[a]).size_each == sizes@[t] by {
                    if t < j {
                        let a = choose|a: int|
                            0 <= a < before.len() && (#[trigger] before[a]).size_each == sizes@[t];
                        assert(groups@[a] == before[a]);
                    } else {
                        assert(groups@[before.len() as int].size_each == sizes@[t]);
                    }
                }
            }
        }
    }
    proof {
        assert forall|a: int| 0 <= a < groups@.len() implies group_sound(
            files@,
            (#[trigger] groups@[a])@,
        ) by {
            lemma_positions_sound(files@, groups@[a].size_each);
        }
        assert forall|i: int|
            0 <= i < files@.len() && (#[trigger] files@[i]).size > 0 && positions_with_size(
                files@,
                files@[i].size,
            ).len() > 1 implies exists|a: int|
            0 <= a < groups@.len() && (#[trigger] groups@[a]).size_each == files@[i].size by {
            let t = slot_of@[files@[i].size];
            assert(sizes@[t as int] == files@[i].size);
        }
    }
    proof {
        reveal(size_grouped);
    }
    groups
}

/// `o` holds a digest whose bytes are `d`.
pub open spec fn holds_digest(o: Option<[u8; 32]>, d: Seq<u8>) -> bool {
    o matches Some(x) && x@ == d
}

/// The positions of `indices` (front to back) whose digest in the parallel
/// list `digests` is `d`.
pub open spec fn members_with_digest(
    indices: Seq<usize>,
    digests: Seq<Option<[u8; 32]>>,
    d: Seq<u8>,
) -> Seq<usize>
    decreases indices.len(),
{
    if indices.len() == 0 || digests.len() == 0 {
        Seq::empty()
    } else {
        let rest = members_with_digest(indices.drop_last(), digests.drop_last(), d);
        if holds_digest(digests.last(), d) {
            rest.push(indices.last())
        } else {
            rest
        }
    }
}

/// `g` is a group made of members of `source`: the same size each, at least
/// two members, positions rising strictly, each one a position of `source`.
pub open spec fn subgroup_of(g: (u64, Seq<usize>), source: (u64, Seq<usize>)) -> bool {
    &&& g.0 == source.0
    &&& g.1.len() > 1
    &&& strictly_rising(g.1)
    &&& forall|k: int| 0 <= k < g.1.len() ==> source.1.contains(#[trigger] g.1[k])
}

/// A group made of members of a sound group is sound for the same files.
pub proof fn lemma_subgroup_sound(files: Seq<FileEntry>, g: (u64, Seq<usize>), source: (u64, Seq<usize>))
    requires
        subgroup_of(g, source),
        group_sound(files, source),
    ensures
        group_sound(files, g),
{
    assert forall|k: int| 0 <= k < g.1.len() implies #[trigger] g.1[k] < files.len()
        && files[g.1[k] as int].size == g.0 by {
        assert(source.1.contains(g.1[k]));
        let m = choose|m: int| 0 <= m < source.1.len() && source.1[m] == g.1[k];
        assert(source.1[m] < files.len());
    }
}

/// Every member with digest `d` sits at some place of `indices` whose digest
/// is `d`; when `indices` rise strictly, so do the members.
pub proof fn lemma_digest_members(indices: Seq<usize>, digests: Seq<Option<[u8; 32]>>, d: Seq<u8>)
    requires
        digests.len() == indices.len(),
    ensures
        forall|p: int|
            0 <= p < members_with_digest(indices, digests, d).len() ==> exists|k: int|
                0 <= k < indices.len() && #[trigger] indices[k] == #[trigger] members_with_digest(
                    indices,
                    digests,
                    d,
                )[p] && holds_digest(digests[k], d),
        strictly_rising(indices) ==> strictly_rising(members_with_digest(indices, digests, d)),
    decreases indices.len(),
{
    if indices.len() > 0 {
        let init = indices.drop_last();
        let dinit = digests.drop_last();
        lemma_digest_members(init, dinit, d);
        let rest = members_with_digest(init, dinit, d);
        let m = members_with_digest(indices, digests, d);
        assert forall|p: int| 0 <= p < rest.len() implies exists|k: int|
            0 <= k < indices.len() && #[trigger] indices[k] == #[trigger] rest[p] && holds_digest(digests[k], d) by {
            let k = choose|k: int|
                0 <= k < init.len() && #[trigger] init[k] == rest[p] && holds_digest(dinit[k], d);
            assert(indices[k] == init[k] && digests[k] == dinit[k]);
        }
        if holds_digest(digests.last(), d) {
            assert(indices[indices.len() - 1] == indices.last());
            assert(digests[digests.len() - 1] == digests.last());
            assert forall|p: int| 0 <= p < m.len() implies exists|k: int|
                0 <= k < indices.len() && #[trigger] indices[k] == #[trigger] m[p] && holds_digest(
                    digests[k],
                    d,
                ) by {
                if p < rest.len() {
                    assert(m[p] == rest[p]);
                } else {
                    assert(m[p] == indices[indices.len() - 1]);
                }
            }
            if strictly_rising(indices) {
                assert forall|a: int, b: int| 0 <= a < b < m.len() implies #[trigger] m[a] < #[trigger] m[b] by {
                    if b == rest.len() {
                        let k = choose|k: int|
                            0 <= k < init.len() && #[trigger] init[k] == rest[a] && holds_digest(dinit[k], d);
                        assert(indices[k] < indices[indices.len() - 1]);
                    } else {
                        assert(m[a] == rest[a] && m[b] == rest[b]);
                    }
                }
            }
        }
    }
}

proof fn lemma_digest_absent(indices: Seq<usize>, digests: Seq<Option<[u8; 32]>>, d: Seq<u8>)
    requires
        digests.len() == indices.len(),
        forall|k: int| 0 <= k < digests.len() ==> !holds_digest(#[trigger] digests[k], d),
    ensures
        members_with_digest(indices, digests, d) == Seq::<usize>::empty(),
    decreases indices.len(),
{
    if indices.len() > 0 {
        assert forall|k: int| 0 <= k < digests.drop_last().len() implies !holds_digest(
            #[trigger] digests.drop_last()[k],
            d,
        ) by {
            assert(digests.drop_last()[k] == digests[k]);
        }
        lemma_digest_absent(indices.drop_last(), digests.drop_last(), d);
        assert(digests[digests.len() - 1] == digests.last());
    }
}

/// Two different digests never share a member of a group whose positions rise
/// strictly.
proof fn lemma_digest_members_differ(
    indices: Seq<usize>,
    digests: Seq<Option<[u8; 32]>>,
    d1: Seq<u8>,
    d2: Seq<u8>,
)
    requires
        digests.len() == indices.len(),
        strictly_rising(indices),
        d1 != d2,
        members_with_digest(indices, digests, d1).len() > 0,
    ensures
        members_with_digest(indices, digests, d1) != members_with_digest(indices, digests, d2),
{
    lemma_digest_members(indices, digests, d1);
    lemma_digest_members(indices, digests, d2);
    let m1 = members_with_digest(indices, digests, d1);
    let m2 = members_with_digest(indices, digests, d2);
    if m1 == m2 {
        let k1 = choose|k: int| 0 <= k < indices.len() && #[trigger] indices[k] == m1[0] && holds_digest(digests[k], d1);
        let k2 = choose|k: int| 0 <= k < indices.len() && #[trigger] indices[k] == m2[0] && holds_digest(digests[k], d2);
        if k1 < k2 {
            assert(indices[k1] < indices[k2]);
        } else if k2 < k1 {
            assert(indices[k2] < indices[k1]);
        }
    }
}

/// The group of positions of `indices` that share the digest found at place
/// `k` of `digests`.
pub open spec fn digest_group_at(indices: Seq<usize>, digests: Seq<Option<[u8; 32]>>, k: int) -> Seq<usize> {
    members_with_digest(indices, digests, digests[k]->0@)
}

/// The place in `keys` of a digest with the bytes of `d`, if any.
fn find_key(keys: &Vec<[u8; 32]>, d: &[u8; 32]) -> (found: Option<usize>)
    ensures
        found matches Some(f) ==> f < keys@.len() && keys@[f as int]@ == d@,
        found is None ==> forall|t: int| 0 <= t < keys@.len() ==> (#[trigger] keys@[t])@ != d@,
{
    let count = keys.len();
    for j in 0..count
        invariant
            count == keys@.len(),
            forall|t: int| 0 <= t < j ==> (#[trigger] keys@[t])@ != d@,
    {
        if digests_equal(&keys[j], d) {
            return Some(j);
        }
    }
    None
}

/// Sorts the members of a group into buckets, one per distinct digest, in the
/// order the digests first appear; unreadable files (`None`) join no bucket.
fn bucket_by_digest(indices: &Vec<usize>, digests: &Vec<Option<[u8; 32]>>) -> (buckets: (
    Vec<[u8; 32]>,
    Vec<Vec<usize>>,
))
    requires
        digests@.len() == indices@.len(),
    ensures
        buckets.0@.len() == buckets.1@.len(),
        forall|j: int|
            0 <= j < buckets.0@.len() ==> (#[trigger] buckets.1@[j])@ == members_with_digest(
                indices@,
                digests@,
                buckets.0@[j]@,
            ) && buckets.1@[j]@.len() > 0,
        forall|a: int, b: int|
            0 <= a < b < buckets.0@.len() ==> (#[trigger] buckets.0@[a])@ != (
            #[trigger] buckets.0@[b])@,
        forall|t: int|
            0 <= t < digests@.len() && (#[trigger] digests@[t]) is Some ==> exists|j: int|
                0 <= j < buckets.0@.len() && (#[trigger] buckets.0@[j])@ == digests@[t]->0@,
{
    let ghost ind = indices@;
    let ghost dig = digests@;
    let n = indices.len();
    let mut keys: Vec<[u8; 32]> = Vec::new();
    let mut members: Vec<Vec<usize>> = Vec::new();
    for k in 0..n
        invariant
            n == ind.len(),
            ind == indices@,
            dig == digests@,
            dig.len() == n,
            keys@.len() == members@.len(),
            forall|j: int|
                0 <= j < keys@.len() ==> (#[trigger] members@[j])@ == members_with_digest(
                    ind.take(k as int),
                    dig.take(k as int),
                    keys@[j]@,
                ) && members@[j]@.len() > 0,
            forall|a: int, b: int|
                0 <= a < b < keys@.len() ==> (#[trigger] keys@[a])@ != (#[trigger] keys@[b])@,
            forall|t: int|
                0 <= t < k && (#[trigger] dig[t]) is Some ==> exists|j: int|
                    0 <= j < keys@.len() && (#[trigger] keys@[j])@ == dig[t]->0@,
    {
        let ghost ind_k = ind.take(k as int);
        let ghost dig_k = dig.take(k as int);
        proof {
            assert(ind.take(k + 1).drop_last() =~= ind_k);
            assert(dig.take(k + 1).drop_last() =~= dig_k);
            assert(ind.take(k + 1).last() == ind[k as int]);
            assert(dig.take(k + 1).last() == dig[k as int]);
        }
        let position = indices[k];
        if let Some(d) = digests[k] {
            match find_key(&keys, &d) {
                Some(j) => {
                    members[j].push(position);
                    proof {
                        assert forall|t: int| 0 <= t < k + 1 && (#[trigger] dig[t]) is Some implies exists|i: int|
                            0 <= i < keys@.len() && (#[trigger] keys@[i])@ == dig[t]->0@ by {
                            if t == k {
                                assert(keys@[j as int]@ == dig[t]->0@);
                            }
                        }
                    }
                },
                None => {
                    proof {
                        assert forall|t: int| 0 <= t < dig_k.len() implies !holds_digest(
                            #[trigger] dig_k[t],
                            d@,
                        ) by {
                            assert(dig_k[t] == dig[t]);
                            if dig[t] is Some && dig[t]->0@ == d@ {
                                let j = choose|j: int|
                                    0 <= j < keys@.len() && (#[trigger] keys@[j])@ == dig[t]->0@;
                            }
                        }
                        lemma_digest_absent(ind_k, dig_k, d@);
                    }
                    let ghost old_keys = keys@;
                    keys.push(d);
                    let mut fresh: Vec<usize> = Vec::new();
                    fresh.push(position);
                    members.push(fresh);
                    proof {
                        assert forall|t: int| 0 <= t < k + 1 && (#[trigger] dig[t]) is Some implies exists|i: int|
                            0 <= i < keys@.len() && (#[trigger] keys@[i])@ == dig[t]->0@ by {
                            if t == k {
                                assert(keys@[keys@.len() - 1]@ == dig[t]->0@);
                            } else {
                                let i = choose|i: int|
                                    0 <= i < old_keys.len() && (#[trigger] old_keys[i])@ == dig[t]->0@;
                                assert(keys@[i] == old_keys[i]);
                            }
                        }
                    }
                },
            }
        }
        proof {
            assert forall|j: int| 0 <= j < keys@.len() implies (#[trigger] members@[j])@
                == members_with_digest(ind.take(k + 1), dig.take(k + 1), keys@[j]@) by {
                assert(ind.take(k + 1).drop_last() =~= ind_k);
                assert(dig.take(k + 1).drop_last() =~= dig_k);
            }
        }
    }
    proof {
        assert(ind.take(n as int) =~= ind);
        assert(dig.take(n as int) =~= dig);
    }
    let buckets = (keys, members);
    proof {
        assert forall|t: int| 0 <= t < digests@.len() && (#[trigger] digests@[t]) is Some implies exists|j: int|
            0 <= j < buckets.0@.len() && (#[trigger] buckets.0@[j])@ == digests@[t]->0@ by {
            assert(dig[t] == digests@[t]);
            let j = choose|j: int| 0 <= j < buckets.0@.len() && (#[trigger] buckets.0@[j])@ == dig[t]->0@;
        }
    }
    buckets
}

/// Splits a group by content digest: `digests[k]` is the digest of the file
/// at `group.file_indices[k]`, or `None` when it could not be read. The result
/// holds, once each, every set of at least two members that share a digest;
/// unreadable files join no group. Groups come in no set order.
pub fn split_by_digest(group: &DuplicateGroup, digests: &Vec<Option<[u8; 32]>>) -> (groups: Vec<
    DuplicateGroup,
>)
    requires
        digests@.len() == group.file_indices@.len(),
        strictly_rising(group.file_indices@),
    ensures
        forall|a: int|
            0 <= a < groups@.len() ==> {
                &&& subgroup_of((#[trigger] groups@[a])@, group@)
                &&& exists|k: int|
                    0 <= k < digests@.len() && digests@[k] is Some && groups@[a].file_indices@
                        == #[trigger] digest_group_at(group.file_indices@, digests@, k)
            },
        forall|a: int, b: int|
            0 <= a < b < groups@.len() ==> (#[trigger] groups@[a]).file_indices@ != (
            #[trigger] groups@[b]).file_indices@,
        forall|k: int|
            0 <= k < digests@.len() && (#[trigger] digests@[k]) is Some && digest_group_at(
                group.file_indices@,
                digests@,
                k,
            ).len() > 1 ==> exists|a: int|
                0 <= a < groups@.len() && (#[trigger] groups@[a]).file_indices@ == digest_group_at(
                    group.file_indices@,
                    digests@,
                    k,
                ),
{
    let ghost ind = group.file_indices@;
    let ghost dig = digests@;
    let (keys, mut members) = bucket_by_digest(&group.file_indices, digests);
    let count = keys.len();
    let ghost all_members = members@;
    let mut groups: Vec<DuplicateGroup> = Vec::new();
    for j in 0..count
        invariant
            count == keys@.len(),
            members@.len() == count,
            all_members.len() == count,
            ind == group.file_indices@,
            dig == digests@,
            dig.len() == ind.len(),
            strictly_rising(ind),
            forall|t: int| j <= t < count ==> #[trigger] members@[t] == all_members[t],
            forall|t: int|
                0 <= t < count ==> (#[trigger] all_members[t])@ == members_with_digest(ind, dig, keys@[t]@)
                    && all_members[t]@.len() > 0,
            forall|a: int, b: int|
                0 <= a < b < keys@.len() ==> (#[trigger] keys@[a])@ != (#[trigger] keys@[b])@,
            forall|a: int|
                0 <= a < groups@.len() ==> {
                    &&& (#[trigger] groups@[a]).size_each == group.size_each
                    &&& groups@[a].file_indices@.len() > 1
                    &&& exists|t: int| 0 <= t < j && groups@[a].file_indices@ == #[trigger] all_members[t]@
                },
            forall|a: int, b: int|
                0 <= a < b < groups@.len() ==> (#[trigger] groups@[a]).file_indices@ != (
                #[trigger] groups@[b]).file_indices@,
            forall|t: int|
                0 <= t < j && (#[trigger] all_members[t])@.len() > 1 ==> exists|a: int|
                    0 <= a < groups@.len() && (#[trigger] groups@[a]).file_indices@ == all_members[t]@,
    {
        let mut taken: Vec<usize> = Vec::new();
        std::mem::swap(&mut taken, &mut members[j]);
        if taken.len() > 1 {
            let ghost before = groups@;
            let entry = DuplicateGroup { size_each: group.size_each, file_indices: taken };
            groups.push(entry);
            proof {
                assert forall|a: int| 0 <= a < before.len() implies (#[trigger] groups@[a]).file_indices@
                    != taken@ by {
                    assert(groups@[a] == before[a]);
                    let t = choose|t: int| 0 <= t < j && before[a].file_indices@ == #[trigger] all_members[t]@;
                    assert(keys@[t]@ != keys@[j as int]@);
                    lemma_digest_members_differ(ind, dig, keys@[j as int]@, keys@[t]@);
                }
                assert forall|t: int|
                    0 <= t < j + 1 && (#[trigger] all_members[t])@.len() > 1 implies exists|a: int|
                    0 <= a < groups@.len() && (#[trigger] groups@[a]).file_indices@ == all_members[t]@ by {
                    if t < j {
                        let a = choose|a: int|
                            0 <= a < before.len() && (#[trigger] before[a]).file_indices@ == all_members[t]@;
                        assert(groups@[a] == before[a]);
                    } else {
                        assert(groups@[before.len() as int].file_indices@ == all_members[t]@);
                    }
                }
                assert forall|a: int| 0 <= a < groups@.len() implies exists|t: int|
                    0 <= t < j + 1 && (#[trigger] groups@[a]).file_indices@ == #[trigger] all_members[t]@ by {
                    if a < before.len() {
                        assert(groups@[a] == before[a]);
                        let t = choose|t: int| 0 <= t < j && before[a].file_indices@ == #[trigger] all_members[t]@;
                    } else {
                        assert(groups@[a].file_indices@ == all_members[j as int]@);
                    }
                }
            }
        }
    }
    proof {
        assert forall|a: int| 0 <= a < groups@.len() implies {
            &&& subgroup_of((#[trigger] groups@[a])@, group@)
            &&& exists|k: int|
                0 <= k < digests@.len() && digests@[k] is Some && groups@[a].file_indices@
                    == #[trigger] digest_group_at(group.file_indices@, digests@, k)
        } by {
            let t = choose|t: int| 0 <= t < count && groups@[a].file_indices@ == #[trigger] all_members[t]@;
            let key = keys@[t]@;
            lemma_digest_members(ind, dig, key);
            let g = groups@[a].file_indices@;
            let k0 = choose|k: int| 0 <= k < ind.len() && #[trigger] ind[k] == #[trigger] members_with_digest(ind, dig, key)[0] && holds_digest(dig[k], key);
            assert(digest_group_at(ind, dig, k0) == g);
            assert forall|p: int| 0 <= p < g.len() implies ind.contains(#[trigger] g[p]) by {
                let k = choose|k: int| 0 <= k < ind.len() && #[trigger] ind[k] == #[trigger] members_with_digest(ind, dig, key)[p] && holds_digest(dig[k], key);
            }
        }
        assert forall|k: int|
            0 <= k < digests@.len() && (#[trigger] digests@[k]) is Some && digest_group_at(
                group.file_indices@,
                digests@,
                k,
            ).len() > 1 implies exists|a: int|
            0 <= a < groups@.len() && (#[trigger] groups@[a]).file_indices@ == digest_group_at(
                group.file_indices@,
                digests@,
                k,
            ) by {
            let j = choose|j: int| 0 <= j < keys@.len() && (#[trigger] keys@[j])@ == dig[k]->0@;
            assert(all_members[j]@ == digest_group_at(ind, dig, k));
        }
    }
    groups
}

/// Orders duplicate groups by the bytes they would free, largest first;
/// groups that free the same amount come in any order.
pub fn rank_duplicate_groups(groups: Vec<DuplicateGroup>) -> (ranked: Vec<DuplicateGroup>)
    ensures
        sorted_desc(ranked@),
        most_freed_first(ranked@),
        group_views(ranked@).to_multiset() == group_views(groups@).to_multiset(),
{
    let ranked = sort_desc(groups);
    proof {
        lemma_map_keeps_multiset(ranked@, groups@, |g: DuplicateGroup| g@);
        lemma_sorted_groups_most_freed_first(ranked@);
    }
    ranked
}

/// Duplicate groups that are each sound for the files of a scan, once ranked
/// into the scan's result, make that result well formed.
pub proof fn lemma_ranked_groups_well_formed(result: ScanResult, groups: Seq<DuplicateGroup>)
    requires
        forall|a: int| 0 <= a < groups.len() ==> group_sound(result.files@, (#[trigger] groups[a])@),
        sorted_desc(result.duplicate_groups@),
        group_views(result.duplicate_groups@).to_multiset() == group_views(groups).to_multiset(),
    ensures
        result.well_formed(),
{
    broadcast use vstd::seq_lib::group_to_multiset_ensures;

    let ranked = group_views(result.duplicate_groups@);
    let given = group_views(groups);
    assert forall|g: int| 0 <= g < result.duplicate_groups@.len() implies group_sound(
        result.files@,
        #[trigger] result.duplicate_groups@[g]@,
    ) by {
        let v = result.duplicate_groups@[g]@;
        assert(ranked[g] == v);
        assert(ranked.to_multiset().count(v) > 0);
        assert(given.contains(v));
        let a = choose|a: int| 0 <= a < given.len() && given[a] == v;
        assert(groups[a]@ == v);
    }
}

/// The digest lists of `digests`, as sequences.
pub open spec fn digest_views(digests: Seq<Vec<Option<[u8; 32]>>>) -> Seq<Seq<Option<[u8; 32]>>> {
    digests.map_values(|v: Vec<Option<[u8; 32]>>| v@)
}

/// Each group of `groups` has one digest for each of its members, and its
/// positions rise strictly.
pub open spec fn digests_fit(groups: Seq<DuplicateGroup>, digests: Seq<Seq<Option<[u8; 32]>>>) -> bool {
    &&& digests.len() == groups.len()
    &&& forall|a: int|
        0 <= a < groups.len() ==> (#[trigger] digests[a]).len() == groups[a].file_indices@.len()
            && strictly_rising(groups[a].file_indices@)
}

/// `g` is the set of members of one of the first `n` groups of `groups` that
/// share a digest in `digests`.
pub open spec fn split_from(
    groups: Seq<DuplicateGroup>,
    digests: Seq<Seq<Option<[u8; 32]>>>,
    g: DuplicateGroup,
    n: int,
) -> bool {
    exists|a: int, k: int|
        #![trigger digest_group_at(groups[a].file_indices@, digests[a], k)]
        0 <= a < n && 0 <= k < digests[a].len() && digests[a][k] is Some && subgroup_of(g@, groups[a]@)
            && g.file_indices@ == digest_group_at(groups[a].file_indices@, digests[a], k)
}

/// `g` is the set of members of `group` that share one digest in the
/// parallel list `digests`.
pub open spec fn piece_of(group: DuplicateGroup, digests: Seq<Option<[u8; 32]>>, g: DuplicateGroup) -> bool {
    &&& subgroup_of(g@, group@)
    &&& exists|k: int|
        0 <= k < digests.len() && digests[k] is Some && g.file_indices@ == #[trigger] digest_group_at(
            group.file_indices@,
            digests,
            k,
        )
}

/// The first `n` groups of `groups` are split into `out` by `digests`:
/// every group of `out` is the set of members of one of them that share a
/// digest (holding at least two), and every such set of at least two members
/// is a group of `out`.
#[verifier::opaque]
pub open spec fn refined_upto(
    groups: Seq<DuplicateGroup>,
    digests: Seq<Seq<Option<[u8; 32]>>>,
    out: Seq<DuplicateGroup>,
    n: int,
) -> bool {
    &&& forall|b: int| 0 <= b < out.len() ==> split_from(groups, digests, #[trigger] out[b], n)
    &&& forall|a: int, k: int|
        0 <= a < n && 0 <= k < digests[a].len() && digests[a][k] is Some && (#[trigger] digest_group_at(
            groups[a].file_indices@,
            digests[a],
            k,
        )).len() > 1 ==> exists|b: int|
            0 <= b < out.len() && (#[trigger] out[b])@ == (
                groups[a].size_each,
                digest_group_at(groups[a].file_indices@, digests[a], k),
            )
}

/// `out` is what splitting every group of `groups` by `digests` gives; when
/// no file belongs to two groups of `groups`, none belongs to two groups of
/// `out`.
pub open spec fn refined(
    groups: Seq<DuplicateGroup>,
    digests: Seq<Seq<Option<[u8; 32]>>>,
    out: Seq<DuplicateGroup>,
) -> bool {
    &&& refined_upto(groups, digests, out, groups.len() as int)
    &&& disjoint_groups(group_views(groups)) ==> disjoint_groups(group_views(out))
}

proof fn lemma_refined_step(
    groups: Seq<DuplicateGroup>,
    dv: Seq<Seq<Option<[u8; 32]>>>,
    before: Seq<DuplicateGroup>,
    added: Seq<DuplicateGroup>,
    a: int,
)
    requires
        0 <= a < groups.len(),
        a < dv.len(),
        refined_upto(groups, dv, before, a),
        forall|e: int| 0 <= e < added.len() ==> piece_of(groups[a], dv[a], #[trigger] added[e]),
        forall|k: int|
            0 <= k < dv[a].len() && (#[trigger] dv[a][k]) is Some && digest_group_at(
                groups[a].file_indices@,
                dv[a],
                k,
            ).len() > 1 ==> exists|e: int|
                0 <= e < added.len() && (#[trigger] added[e]).file_indices@ == digest_group_at(
                    groups[a].file_indices@,
                    dv[a],
                    k,
                ),
    ensures
        refined_upto(groups, dv, before + added, a + 1),
{
    reveal(refined_upto);
    let out = before + added;
    let ga = groups[a];
    assert forall|b: int| 0 <= b < out.len() implies split_from(groups, dv, #[trigger] out[b], a + 1) by {
        if b < before.len() {
            assert(out[b] == before[b]);
            assert(split_from(groups, dv, before[b], a));
            let (c, k) = choose|c: int, k: int|
                #![trigger digest_group_at(groups[c].file_indices@, dv[c], k)]
                0 <= c < a && 0 <= k < dv[c].len() && dv[c][k] is Some && subgroup_of(
                    before[b]@,
                    groups[c]@,
                ) && before[b].file_indices@ == digest_group_at(groups[c].file_indices@, dv[c], k);
            assert(0 <= c < a + 1 && 0 <= k < dv[c].len() && dv[c][k] is Some && subgroup_of(out[b]@, groups[c]@)
                && out[b].file_indices@ == digest_group_at(groups[c].file_indices@, dv[c], k));
        } else {
            let e = b - before.len();
            assert(out[b] == added[e]);
            assert(piece_of(groups[a], dv[a], added[e]));
            let k = choose|k: int|
                0 <= k < dv[a].len() && dv[a][k] is Some && added[e].file_indices@
                    == #[trigger] digest_group_at(ga.file_indices@, dv[a], k);
            assert(0 <= a < a + 1 && 0 <= k < dv[a].len() && dv[a][k] is Some && subgroup_of(out[b]@, groups[a]@)
                && out[b].file_indices@ == digest_group_at(groups[a].file_indices@, dv[a], k));
        }
    }
    assert forall|c: int, k: int|
        0 <= c < a + 1 && 0 <= k < dv[c].len() && dv[c][k] is Some && (#[trigger] digest_group_at(
            groups[c].file_indices@,
            dv[c],
            k,
        )).len() > 1 implies exists|b: int|
        0 <= b < out.len() && (#[trigger] out[b])@ == (
            groups[c].size_each,
            digest_group_at(groups[c].file_indices@, dv[c], k),
        ) by {
        if c < a {
            let b = choose|b: int|
                0 <= b < before.len() && (#[trigger] before[b])@ == (
                    groups[c].size_each,
                    digest_group_at(groups[c].file_indices@, dv[c], k),
                );
            assert(out[b] == before[b]);
        } else {
            assert(dv[a][k] is Some);
            let e = choose|e: int|
                0 <= e < added.len() && (#[trigger] added[e]).file_indices@ == digest_group_at(
                    ga.file_indices@,
                    dv[a],
                    k,
                );
            assert(subgroup_of(added[e]@, ga@));
            assert(out[before.len() + e] == added[e]);
        }
    }
}

/// Members of a group with strictly rising positions that have different
/// digests are different positions.
proof fn lemma_members_apart(indices: Seq<usize>, digests: Seq<Option<[u8; 32]>>, d1: Seq<u8>, d2: Seq<u8>)
    requires
        digests.len() == indices.len(),
        strictly_rising(indices),
        d1 != d2,
    ensures
        forall|x: int, y: int|
            0 <= x < members_with_digest(indices, digests, d1).len() && 0 <= y < members_with_digest(
                indices,
                digests,
                d2,
            ).len() ==> #[trigger] members_with_digest(indices, digests, d1)[x] != #[trigger] members_with_digest(
                indices,
                digests,
                d2,
            )[y],
{
    let m1 = members_with_digest(indices, digests, d1);
    let m2 = members_with_digest(indices, digests, d2);
    lemma_digest_members(indices, digests, d1);
    lemma_digest_members(indices, digests, d2);
    assert forall|x: int, y: int| 0 <= x < m1.len() && 0 <= y < m2.len() implies #[trigger] m1[x] != #[trigger] m2[y] by {
        let p1 = choose|k: int| 0 <= k < indices.len() && #[trigger] indices[k] == m1[x] && holds_digest(digests[k], d1);
        let p2 = choose|k: int| 0 <= k < indices.len() && #[trigger] indices[k] == m2[y] && holds_digest(digests[k], d2);
        if p1 < p2 {
            assert(indices[p1] < indices[p2]);
        } else if p2 < p1 {
            assert(indices[p2] < indices[p1]);
        }
    }
}

/// The pieces split from one group with strictly rising positions, all
/// different, share no file.
proof fn lemma_pieces_apart(group: DuplicateGroup, digests: Seq<Option<[u8; 32]>>, added: Seq<DuplicateGroup>)
    requires
        digests.len() == group.file_indices@.len(),
        strictly_rising(group.file_indices@),
        forall|e: int| 0 <= e < added.len() ==> piece_of(group, digests, #[trigger] added[e]),
        forall|e: int, f: int|
            0 <= e < f < added.len() ==> (#[trigger] added[e]).file_indices@ != (#[trigger] added[f]).file_indices@,
    ensures
        forall|e: int, f: int| 0 <= e < f < added.len() ==> groups_apart((#[trigger] added[e])@, (#[trigger] added[f])@),
{
    let ind = group.file_indices@;
    assert forall|e: int, f: int| 0 <= e < f < added.len() implies groups_apart((#[trigger] added[e])@, (#[trigger] added[f])@) by {
        assert(piece_of(group, digests, added[e]));
        assert(piece_of(group, digests, added[f]));
        let k1 = choose|k: int|
            0 <= k < digests.len() && digests[k] is Some && added[e].file_indices@ == #[trigger] digest_group_at(ind, digests, k);
        let k2 = choose|k: int|
            0 <= k < digests.len() && digests[k] is Some && added[f].file_indices@ == #[trigger] digest_group_at(ind, digests, k);
        let d1 = digests[k1]->0@;
        let d2 = digests[k2]->0@;
        if d1 != d2 {
            lemma_members_apart(ind, digests, d1, d2);
            assert forall|x: int, y: int| 0 <= x < added[e]@.1.len() && 0 <= y < added[f]@.1.len() implies #[trigger] added[e]@.1[x] != #[trigger] added[f]@.1[y] by {
                assert(added[e]@.1[x] == members_with_digest(ind, digests, d1)[x]);
                assert(added[f]@.1[y] == members_with_digest(ind, digests, d2)[y]);
            }
        }
    }
}

/// Gathering the pieces of group `a` after those of the groups before it
/// keeps the pieces pairwise disjoint, when the groups are.
proof fn lemma_refined_step_disjoint(
    groups: Seq<DuplicateGroup>,
    dv: Seq<Seq<Option<[u8; 32]>>>,
    before: Seq<DuplicateGroup>,
    added: Seq<DuplicateGroup>,
    a: int,
)
    requires
        0 <= a < groups.len(),
        a < dv.len(),
        dv[a].len() == groups[a].file_indices@.len(),
        strictly_rising(groups[a].file_indices@),
        disjoint_groups(group_views(groups)),
        disjoint_groups(group_views(before)),
        refined_upto(groups, dv, before, a),
        forall|e: int| 0 <= e < added.len() ==> piece_of(groups[a], dv[a], #[trigger] added[e]),
        forall|e: int, f: int|
            0 <= e < f < added.len() ==> (#[trigger] added[e]).file_indices@ != (#[trigger] added[f]).file_indices@,
    ensures
        disjoint_groups(group_views(before + added)),
{
    reveal(refined_upto);
    let out = before + added;
    let ov = group_views(out);
    let gv = group_views(groups);
    lemma_pieces_apart(groups[a], dv[a], added);
    assert forall|b: int, f: int| 0 <= b < f < ov.len() implies groups_apart(#[trigger] ov[b], #[trigger] ov[f]) by {
        assert(ov[b] == out[b]@);
        assert(ov[f] == out[f]@);
        if f < before.len() {
            assert(out[b] == before[b] && out[f] == before[f]);
            assert(group_views(before)[b] == before[b]@);
            assert(group_views(before)[f] == before[f]@);
        } else if b >= before.len() {
            assert(out[b] == added[b - before.len()] && out[f] == added[f - before.len()]);
        } else {
            assert(out[b] == before[b]);
            let e = f - before.len();
            assert(out[f] == added[e]);
            assert(split_from(groups, dv, before[b], a));
            let (c, k) = choose|c: int, k: int|
                #![trigger digest_group_at(groups[c].file_indices@, dv[c], k)]
                0 <= c < a && 0 <= k < dv[c].len() && dv[c][k] is Some && subgroup_of(before[b]@, groups[c]@)
                    && before[b].file_indices@ == digest_group_at(groups[c].file_indices@, dv[c], k);
            assert(piece_of(groups[a], dv[a], added[e]));
            assert(gv[c] == groups[c]@ && gv[a] == groups[a]@);
            assert(groups_apart(gv[c], gv[a]));
            assert forall|x: int, y: int| 0 <= x < ov[b].1.len() && 0 <= y < ov[f].1.len() implies #[trigger] ov[b].1[x] != #[trigger] ov[f].1[y] by {
                assert(groups[c].file_indices@.contains(before[b].file_indices@[x]));
                assert(groups[a].file_indices@.contains(added[e].file_indices@[y]));
                let p = choose|p: int| 0 <= p < groups[c].file_indices@.len() && groups[c].file_indices@[p] == before[b].file_indices@[x];
                let q = choose|q: int| 0 <= q < groups[a].file_indices@.len() && groups[a].file_indices@[q] == added[e].file_indices@[y];
                assert(gv[c].1[p] != gv[a].1[q]);
            }
        }
    }
}

/// Splits every group of `groups` by content digest and gathers the pieces:
/// `digests[a][k]` is the digest of the file at `groups[a].file_indices[k]`,
/// or `None` when it could not be read. The result holds every set of at
/// least two members of one group that share a digest; unreadable files join
/// no group. Groups come in no set order.
pub fn refine_groups(groups: &Vec<DuplicateGroup>, digests: &Vec<Vec<Option<[u8; 32]>>>) -> (out: Vec<
    DuplicateGroup,
>)
    requires
        digests_fit(groups@, digest_views(digests@)),
    ensures
        refined(groups@, digest_views(digests@), out@),
{
    let ghost dv = digest_views(digests@);
    let mut out: Vec<DuplicateGroup> = Vec::new();
    let n = groups.len();
    proof {
        reveal(refined_upto);
        assert(group_views(out@) =~= Seq::<(u64, Seq<usize>)>::empty());
    }
    for a in 0..n
        invariant
            n == groups@.len(),
            dv == digest_views(digests@),
            digests_fit(groups@, dv),
            refined_upto(groups@, dv, out@, a as int),
            disjoint_groups(group_views(groups@)) ==> disjoint_groups(group_views(out@)),
    {
        proof {
            assert(dv[a as int] == digests@[a as int]@);
            assert(dv[a as int].len() == groups@[a as int].file_indices@.len());
        }
        let mut pieces = split_by_digest(&groups[a], &digests[a]);
        let ghost before = out@;
        let ghost added = pieces@;
        out.append(&mut pieces);
        proof {
            assert forall|e: int| 0 <= e < added.len() implies piece_of(groups@[a as int], dv[a as int], #[trigger] added[e]) by {
                assert(subgroup_of(added[e]@, groups@[a as int]@));
                let k = choose|k: int|
                    0 <= k < digests@[a as int]@.len() && digests@[a as int]@[k] is Some && added[e].file_indices@
                        == #[trigger] digest_group_at(groups@[a as int].file_indices@, digests@[a as int]@, k);
                assert(added[e].file_indices@ == digest_group_at(groups@[a as int].file_indices@, dv[a as int], k));
            }
            lemma_refined_step(groups@, dv, before, added, a as int);
            if disjoint_groups(group_views(groups@)) {
                lemma_refined_step_disjoint(groups@, dv, before, added, a as int);
            }
        }
    }
    out
}

/// Every file at position `i` of `files` with `size` bytes is among the
/// positions of that size.
proof fn lemma_positions_complete(files: Seq<FileEntry>, size: u64, i: int)
    requires
        0 <= i < files.len(),
        files[i].size == size,
        files.len() <= usize::MAX,
    ensures
        positions_with_size(files, size).contains(i as usize),
    decreases files.len(),
{
    let rest = positions_with_size(files.drop_last(), size);
    if i == files.len() - 1 {
        assert(files.last() == files[i]);
        let r = rest.push(i as usize);
        assert(r[r.len() - 1] == i as usize);
    } else {
        assert(files.drop_last()[i] == files[i]);
        lemma_positions_complete(files.drop_last(), size, i);
        let p = choose|p: int| 0 <= p < rest.len() && rest[p] == i as usize;
        if files.last().size == size {
            assert(rest.push((files.len() - 1) as usize)[p] == i as usize);
        }
    }
}

/// Every place of `indices` whose digest is `d` puts its position among the
/// members with digest `d`.
proof fn lemma_digest_members_complete(indices: Seq<usize>, digests: Seq<Option<[u8; 32]>>, d: Seq<u8>, k: int)
    requires
        digests.len() == indices.len(),
        0 <= k < indices.len(),
        holds_digest(digests[k], d),
    ensures
        members_with_digest(indices, digests, d).contains(indices[k]),
    decreases indices.len(),
{
    let rest = members_with_digest(indices.drop_last(), digests.drop_last(), d);
    if k == indices.len() - 1 {
        assert(digests.last() == digests[k]);
        let r = rest.push(indices.last());
        assert(r[r.len() - 1] == indices[k]);
    } else {
        assert(digests.drop_last()[k] == digests[k]);
        assert(indices.drop_last()[k] == indices[k]);
        lemma_digest_members_complete(indices.drop_last(), digests.drop_last(), d, k);
        let p = choose|p: int| 0 <= p < rest.len() && rest[p] == indices[k];
        if holds_digest(digests.last(), d) {
            assert(rest.push(indices.last())[p] == indices[k]);
        }
    }
}

/// The digests in `digests` are what `read` gives for each member of each
/// group of `groups`, place by place.
#[verifier::opaque]
pub open spec fn digests_read(
    groups: Seq<DuplicateGroup>,
    digests: Seq<Seq<Option<[u8; 32]>>>,
    read: spec_fn(usize) -> Option<[u8; 32]>,
) -> bool {
    &&& digests.len() == groups.len()
    &&& forall|a: int|
        0 <= a < groups.len() ==> (#[trigger] digests[a]).len() == groups[a].file_indices@.len()
    &&& forall|a: int, k: int|
        0 <= a < groups.len() && 0 <= k < digests[a].len() ==> #[trigger] digests[a][k] == read(
            groups[a].file_indices@[k],
        )
}

/// `read` gives a digest for both positions, and the two are the same.
pub open spec fn same_digest(read: spec_fn(usize) -> Option<[u8; 32]>, i: usize, j: usize) -> bool {
    &&& read(i) is Some
    &&& read(j) is Some
    &&& read(i)->0@ == read(j)->0@
}

/// A confirmed duplicate group: sound for `files`, of a non-zero size, and
/// every member has the same partial digest and the same full digest as the
/// first, none of them missing.
pub open spec fn confirmed_group(
    files: Seq<FileEntry>,
    g: (u64, Seq<usize>),
    partial_read: spec_fn(usize) -> Option<[u8; 32]>,
    full_read: spec_fn(usize) -> Option<[u8; 32]>,
) -> bool {
    &&& group_sound(files, g)
    &&& g.0 > 0
    &&& forall|x: int|
        0 <= x < g.1.len() ==> same_digest(partial_read, #[trigger] g.1[x], g.1[0]) && same_digest(
            full_read,
            g.1[x],
            g.1[0],
        )
}

/// The members of a piece split from `group` by digests read with `read`
/// all have the digest at the piece's place.
proof fn lemma_piece_digests(
    group: DuplicateGroup,
    digests: Seq<Option<[u8; 32]>>,
    read: spec_fn(usize) -> Option<[u8; 32]>,
    k: int,
)
    requires
        digests.len() == group.file_indices@.len(),
        0 <= k < digests.len(),
        digests[k] is Some,
        forall|q: int| 0 <= q < digests.len() ==> #[trigger] digests[q] == read(group.file_indices@[q]),
    ensures
        forall|p: int|
            0 <= p < digest_group_at(group.file_indices@, digests, k).len() ==> {
                let x = #[trigger] digest_group_at(group.file_indices@, digests, k)[p];
                read(x) is Some && read(x)->0@ == digests[k]->0@
            },
{
    let d = digests[k]->0@;
    lemma_digest_members(group.file_indices@, digests, d);
    let m = digest_group_at(group.file_indices@, digests, k);
    assert forall|p: int| 0 <= p < m.len() implies {
        let x = #[trigger] m[p];
        read(x) is Some && read(x)->0@ == d
    } by {
        let q = choose|q: int|
            0 <= q < group.file_indices@.len() && #[trigger] group.file_indices@[q] == m[p] && holds_digest(
                digests[q],
                d,
            );
        assert(digests[q] == read(group.file_indices@[q]));
    }
}

proof fn lemma_refined_piece(
    groups: Seq<DuplicateGroup>,
    digests: Seq<Seq<Option<[u8; 32]>>>,
    out: Seq<DuplicateGroup>,
    b: int,
)
    requires
        refined(groups, digests, out),
        0 <= b < out.len(),
    ensures
        split_from(groups, digests, out[b], groups.len() as int),
{
    reveal(refined_upto);
}

proof fn lemma_refined_covers(
    groups: Seq<DuplicateGroup>,
    digests: Seq<Seq<Option<[u8; 32]>>>,
    out: Seq<DuplicateGroup>,
    a: int,
    k: int,
)
    requires
        refined(groups, digests, out),
        0 <= a < groups.len(),
        0 <= k < digests[a].len(),
        digests[a][k] is Some,
        digest_group_at(groups[a].file_indices@, digests[a], k).len() > 1,
    ensures
        exists|b: int|
            0 <= b < out.len() && (#[trigger] out[b])@ == (
                groups[a].size_each,
                digest_group_at(groups[a].file_indices@, digests[a], k),
            ),
{
    reveal(refined_upto);
}

proof fn lemma_read_group(
    groups: Seq<DuplicateGroup>,
    digests: Seq<Seq<Option<[u8; 32]>>>,
    read: spec_fn(usize) -> Option<[u8; 32]>,
    a: int,
)
    requires
        digests_read(groups, digests, read),
        0 <= a < groups.len(),
    ensures
        digests[a].len() == groups[a].file_indices@.len(),
        forall|q: int| 0 <= q < digests[a].len() ==> #[trigger] digests[a][q] == read(groups[a].file_indices@[q]),
{
    reveal(digests_read);
}

proof fn lemma_size_group_at(files: Seq<FileEntry>, groups: Seq<DuplicateGroup>, a: int)
    requires
        size_grouped(files, groups),
        0 <= a < groups.len(),
    ensures
        groups[a].size_each > 0,
        groups[a].file_indices@ == positions_with_size(files, groups[a].size_each),
        group_sound(files, groups[a]@),
{
    reveal(size_grouped);
}

proof fn lemma_size_group_for(files: Seq<FileEntry>, groups: Seq<DuplicateGroup>, i: int)
    requires
        size_grouped(files, groups),
        0 <= i < files.len(),
        files[i].size > 0,
        positions_with_size(files, files[i].size).len() > 1,
    ensures
        exists|a: int| 0 <= a < groups.len() && (#[trigger] groups[a]).size_each == files[i].size,
{
    reveal(size_grouped);
    assert(files[i].size > 0);
}

/// Size groups share no file: each file has one size.
proof fn lemma_size_groups_disjoint(files: Seq<FileEntry>, groups: Seq<DuplicateGroup>)
    requires
        size_grouped(files, groups),
    ensures
        disjoint_groups(group_views(groups)),
{
    reveal(size_grouped);
    let gv = group_views(groups);
    assert forall|a: int, b: int| 0 <= a < b < gv.len() implies groups_apart(#[trigger] gv[a], #[trigger] gv[b]) by {
        assert(gv[a] == groups[a]@ && gv[b] == groups[b]@);
        assert(group_sound(files, groups[a]@));
        assert(group_sound(files, groups[b]@));
        assert(groups[a].size_each != groups[b].size_each);
        assert forall|x: int, y: int| 0 <= x < gv[a].1.len() && 0 <= y < gv[b].1.len() implies #[trigger] gv[a].1[x] != #[trigger] gv[b].1[y] by {
            assert(files[gv[a].1[x] as int].size == gv[a].0);
            assert(files[gv[b].1[y] as int].size == gv[b].0);
        }
    }
}

/// Each piece that the two splits give is a confirmed duplicate group.
proof fn lemma_search_sound(
    files: Seq<FileEntry>,
    candidates: Seq<DuplicateGroup>,
    partial_digests: Seq<Seq<Option<[u8; 32]>>>,
    partial: Seq<DuplicateGroup>,
    full_digests: Seq<Seq<Option<[u8; 32]>>>,
    full: Seq<DuplicateGroup>,
    partial_read: spec_fn(usize) -> Option<[u8; 32]>,
    full_read: spec_fn(usize) -> Option<[u8; 32]>,
    c: int,
)
    requires
        files.len() <= usize::MAX,
        size_grouped(files, candidates),
        digests_read(candidates, partial_digests, partial_read),
        refined(candidates, partial_digests, partial),
        digests_read(partial, full_digests, full_read),
        refined(partial, full_digests, full),
        0 <= c < full.len(),
    ensures
        confirmed_group(files, full[c]@, partial_read, full_read),
{
    let v = full[c]@;
    lemma_refined_piece(partial, full_digests, full, c);
    let (a, k) = choose|a: int, k: int|
        #![trigger digest_group_at(partial[a].file_indices@, full_digests[a], k)]
        0 <= a < partial.len() && 0 <= k < full_digests[a].len() && full_digests[a][k] is Some
            && subgroup_of(full[c]@, partial[a]@) && full[c].file_indices@ == digest_group_at(
            partial[a].file_indices@,
            full_digests[a],
            k,
        );
    lemma_refined_piece(candidates, partial_digests, partial, a);
    let (a0, k0) = choose|a0: int, k0: int|
        #![trigger digest_group_at(candidates[a0].file_indices@, partial_digests[a0], k0)]
        0 <= a0 < candidates.len() && 0 <= k0 < partial_digests[a0].len() && partial_digests[a0][k0] is Some
            && subgroup_of(partial[a]@, candidates[a0]@) && partial[a].file_indices@ == digest_group_at(
            candidates[a0].file_indices@,
            partial_digests[a0],
            k0,
        );
    lemma_size_group_at(files, candidates, a0);
    lemma_subgroup_sound(files, partial[a]@, candidates[a0]@);
    lemma_subgroup_sound(files, v, partial[a]@);
    lemma_read_group(partial, full_digests, full_read, a);
    lemma_piece_digests(partial[a], full_digests[a], full_read, k);
    lemma_read_group(candidates, partial_digests, partial_read, a0);
    lemma_piece_digests(candidates[a0], partial_digests[a0], partial_read, k0);
    let pm = partial[a].file_indices@;
    assert forall|x: int| 0 <= x < v.1.len() implies same_digest(partial_read, #[trigger] v.1[x], v.1[0])
        && same_digest(full_read, v.1[x], v.1[0]) by {
        assert(pm.contains(v.1[x]));
        assert(pm.contains(v.1[0]));
        let p1 = choose|p: int| 0 <= p < pm.len() && pm[p] == v.1[x];
        let p2 = choose|p: int| 0 <= p < pm.len() && pm[p] == v.1[0];
        assert(pm[p1] == digest_group_at(candidates[a0].file_indices@, partial_digests[a0], k0)[p1]);
        assert(pm[p2] == digest_group_at(candidates[a0].file_indices@, partial_digests[a0], k0)[p2]);
        assert(v.1[x] == digest_group_at(partial[a].file_indices@, full_digests[a], k)[x]);
        assert(v.1[0] == digest_group_at(partial[a].file_indices@, full_digests[a], k)[0]);
    }
}

/// Two different files of one non-zero size whose partial and full digests
/// agree stand together in a piece that the two splits give.
proof fn lemma_search_complete(
    files: Seq<FileEntry>,
    candidates: Seq<DuplicateGroup>,
    partial_digests: Seq<Seq<Option<[u8; 32]>>>,
    partial: Seq<DuplicateGroup>,
    full_digests: Seq<Seq<Option<[u8; 32]>>>,
    full: Seq<DuplicateGroup>,
    partial_read: spec_fn(usize) -> Option<[u8; 32]>,
    full_read: spec_fn(usize) -> Option<[u8; 32]>,
    i: usize,
    j: usize,
)
    requires
        files.len() <= usize::MAX,
        size_grouped(files, candidates),
        digests_read(candidates, partial_digests, partial_read),
        refined(candidates, partial_digests, partial),
        digests_read(partial, full_digests, full_read),
        refined(partial, full_digests, full),
        i != j,
        i < files.len(),
        j < files.len(),
        files[i as int].size == files[j as int].size,
        files[i as int].size > 0,
        same_digest(partial_read, i, j),
        same_digest(full_read, i, j),
    ensures
        exists|c: int|
            0 <= c < full.len() && (#[trigger] full[c]).file_indices@.contains(i) && full[c].file_indices@.contains(j),
{
    let size = files[i as int].size;
    let ps = positions_with_size(files, size);
    lemma_positions_complete(files, size, i as int);
    lemma_positions_complete(files, size, j as int);
    let k0 = choose|p: int| 0 <= p < ps.len() && ps[p] == i;
    let k1 = choose|p: int| 0 <= p < ps.len() && ps[p] == j;
    assert(ps.len() > 1);
    lemma_size_group_for(files, candidates, i as int);
    let a0 = choose|a0: int| 0 <= a0 < candidates.len() && (#[trigger] candidates[a0]).size_each == files[i as int].size;
    let cand = candidates[a0];
    lemma_size_group_at(files, candidates, a0);
    lemma_read_group(candidates, partial_digests, partial_read, a0);
    assert(cand.file_indices@ == ps);
    assert(partial_digests[a0][k0] == partial_read(i));
    assert(partial_digests[a0][k1] == partial_read(j));
    let d0 = partial_read(i)->0@;
    lemma_digest_members_complete(ps, partial_digests[a0], d0, k0);
    lemma_digest_members_complete(ps, partial_digests[a0], d0, k1);
    let m0 = digest_group_at(cand.file_indices@, partial_digests[a0], k0);
    let q0 = choose|p: int| 0 <= p < m0.len() && m0[p] == i;
    let q1 = choose|p: int| 0 <= p < m0.len() && m0[p] == j;
    assert(m0.len() > 1);
    lemma_refined_covers(candidates, partial_digests, partial, a0, k0);
    let b1 = choose|b: int| 0 <= b < partial.len() && (#[trigger] partial[b])@ == (cand.size_each, m0);
    let pg = partial[b1];
    assert(pg.file_indices@ == m0);
    lemma_read_group(partial, full_digests, full_read, b1);
    assert(full_digests[b1][q0] == full_read(i));
    assert(full_digests[b1][q1] == full_read(j));
    let d1 = full_read(i)->0@;
    lemma_digest_members_complete(m0, full_digests[b1], d1, q0);
    lemma_digest_members_complete(m0, full_digests[b1], d1, q1);
    let m1 = digest_group_at(pg.file_indices@, full_digests[b1], q0);
    let r0 = choose|p: int| 0 <= p < m1.len() && m1[p] == i;
    let r1 = choose|p: int| 0 <= p < m1.len() && m1[p] == j;
    assert(m1.len() > 1);
    lemma_refined_covers(partial, full_digests, full, b1, q0);
    let c = choose|c: int| 0 <= c < full.len() && (#[trigger] full[c])@ == (pg.size_each, m1);
    assert(full[c].file_indices@[r0] == i);
    assert(full[c].file_indices@[r1] == j);
}

/// What comes out of the duplicate search for `files`: files grouped by
/// size, each group split by the partial digests that `partial_read` gives,
/// each piece split again by the full digests that `full_read` gives, and the
/// pieces ranked. Every group that comes out is a confirmed duplicate group,
/// no file belongs to two of them, and any two different files of the same
/// non-zero size whose partial digests agree and whose full digests agree,
/// none missing, stand together in some group.
pub proof fn lemma_duplicate_search(
    files: Seq<FileEntry>,
    candidates: Seq<DuplicateGroup>,
    partial_digests: Seq<Seq<Option<[u8; 32]>>>,
    partial: Seq<DuplicateGroup>,
    full_digests: Seq<Seq<Option<[u8; 32]>>>,
    full: Seq<DuplicateGroup>,
    ranked: Seq<DuplicateGroup>,
    partial_read: spec_fn(usize) -> Option<[u8; 32]>,
    full_read: spec_fn(usize) -> Option<[u8; 32]>,
)
    requires
        files.len() <= usize::MAX,
        size_grouped(files, candidates),
        digests_read(candidates, partial_digests, partial_read),
        refined(candidates, partial_digests, partial),
        digests_read(partial, full_digests, full_read),
        refined(partial, full_digests, full),
        group_views(ranked).to_multiset() == group_views(full).to_multiset(),
    ensures
        forall|b: int|
            0 <= b < ranked.len() ==> confirmed_group(files, (#[trigger] ranked[b])@, partial_read, full_read),
        disjoint_groups(group_views(ranked)),
        forall|i: usize, j: usize|
            i != j && i < files.len() && j < files.len() && files[i as int].size == files[j as int].size
                && files[i as int].size > 0 && #[trigger] same_digest(partial_read, i, j)
                && #[trigger] same_digest(full_read, i, j) ==> exists|b: int|
                0 <= b < ranked.len() && ranked[b].file_indices@.contains(i)
                    && ranked[b].file_indices@.contains(j),
{
    broadcast use vstd::seq_lib::group_to_multiset_ensures;

    let rv = group_views(ranked);
    let fv = group_views(full);
    lemma_size_groups_disjoint(files, candidates);
    assert(disjoint_groups(group_views(partial)));
    assert(disjoint_groups(fv));
    let apart = |g: (u64, Seq<usize>), h: (u64, Seq<usize>)| groups_apart(g, h);
    assert forall|g: (u64, Seq<usize>), h: (u64, Seq<usize>)| #[trigger] apart(g, h) implies apart(h, g) by {
        assert forall|x: int, y: int| 0 <= x < h.1.len() && 0 <= y < g.1.len() implies #[trigger] h.1[x] != #[trigger] g.1[y] by {
            assert(g.1[y] != h.1[x]);
        }
    }
    lemma_permutation_keeps_apart(fv, rv, apart);
    assert forall|b: int| 0 <= b < ranked.len() implies confirmed_group(
        files,
        (#[trigger] ranked[b])@,
        partial_read,
        full_read,
    ) by {
        let v = ranked[b]@;
        assert(rv[b] == v);
        assert(rv.to_multiset().count(v) > 0);
        assert(fv.contains(v));
        let c = choose|c: int| 0 <= c < fv.len() && fv[c] == v;
        lemma_search_sound(files, candidates, partial_digests, partial, full_digests, full, partial_read, full_read, c);
    }
    assert forall|i: usize, j: usize|
        i != j && i < files.len() && j < files.len() && files[i as int].size == files[j as int].size
            && files[i as int].size > 0 && #[trigger] same_digest(partial_read, i, j)
            && #[trigger] same_digest(full_read, i, j) implies exists|b: int|
        0 <= b < ranked.len() && ranked[b].file_indices@.contains(i) && ranked[b].file_indices@.contains(j) by {
        lemma_search_complete(files, candidates, partial_digests, partial, full_digests, full, partial_read, full_read, i, j);
        let c = choose|c: int|
            0 <= c < full.len() && (#[trigger] full[c]).file_indices@.contains(i) && full[c].file_indices@.contains(j);
        assert(fv[c] == full[c]@);
        assert(fv.to_multiset().count(full[c]@) > 0);
        assert(rv.contains(full[c]@));
        let b = choose|b: int| 0 <= b < rv.len() && rv[b] == full[c]@;
        assert(ranked[b]@ == full[c]@);
    }
}

} // verus!
