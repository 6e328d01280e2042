use vstd::prelude::*;
use crate::model::FileEntry;
use vstd::string::StringSliceAdditionalSpecFns;
use crate::order::{RankKey, sorted_desc, sort_desc, lemma_permutation_keeps_distinct};
use crate::text::{
    ascii_lower, chars_of, chars_equal, contains_chars, lowercase_chars, occurs_in, saturating_diff,
    saturating_sub_i64, trim_bounds, trim_cut, trimmed, lemma_trim_cut_trimmed, chars_lt, chars_less,
    lemma_chars_lt_transitive, lemma_chars_lt_total,
};

verus! {

/// What the file views currently show: a search text, a file type (or
/// `All types`), a minimum-size choice and a modified-time choice.
pub struct FileFilter {
    pub search: String,
    pub extension: String,
    pub min_size_index: usize,
    pub age_index: usize,
}

/// The minimum size of each size choice: any, 1 MiB, 100 MiB, 1 GiB.
pub open spec fn spec_min_size(index: usize) -> u64 {
    if index == 0 {
        0u64
    } else if index == 1 {
        1_048_576u64
    } else if index == 2 {
        104_857_600u64
    } else {
        1_073_741_824u64
    }
}

/// The largest age in seconds of each time choice: any (`i64::MAX`), 30
/// days, a year of 365 days, three such years.
pub open spec fn spec_max_age(index: usize) -> i64 {
    if index == 0 {
        i64::MAX
    } else if index == 1 {
        2_592_000i64
    } else if index == 2 {
        31_536_000i64
    } else {
        94_608_000i64
    }
}

/// The minimum size of a size choice.
pub fn min_size(index: usize) -> (bytes: u64)
    requires
        index < 4,
    ensures
        bytes == spec_min_size(index),
{
    if index == 0 {
        0
    } else if index == 1 {
        1024 * 1024
    } else if index == 2 {
        100 * 1024 * 1024
    } else {
        1024 * 1024 * 1024
    }
}

/// The largest age in seconds of a time choice.
pub fn max_age(index: usize) -> (seconds: i64)
    requires
        index < 4,
    ensures
        seconds == spec_max_age(index),
{
    if index == 0 {
        i64::MAX
    } else if index == 1 {
        30 * 86_400
    } else if index == 2 {
        365 * 86_400
    } else {
        3 * 365 * 86_400
    }
}

/// The search text as it is matched: without leading and trailing white
/// space, with ASCII letters made small.
pub open spec fn search_query(search: Seq<char>) -> Seq<char> {
    ascii_lower(trimmed(search))
}

/// Whether `file` passes the filter, with `query` the search text as matched
/// and `now` the current time in seconds since the Unix epoch: its type
/// matches (or all types are shown), it is large enough, it is recent enough
/// (any age passes the first time choice; otherwise its time must be
/// positive), and the query is empty or occurs in its name or path, compared
/// without regard to ASCII case.
pub open spec fn visible(file: FileEntry, filter: FileFilter, query: Seq<char>, now: i64) -> bool {
    &&& (filter.extension@ == "All types"@ || file.extension@ == filter.extension@)
    &&& file.size >= spec_min_size(filter.min_size_index)
    &&& (spec_max_age(filter.age_index) == i64::MAX || (file.modified_unix > 0 && saturating_diff(
        now,
        file.modified_unix,
    ) <= spec_max_age(filter.age_index)))
    &&& (query.len() == 0 || occurs_in(ascii_lower(file.name@), query) || occurs_in(
        ascii_lower(file.display_path@),
        query,
    ))
}

/// The positions of the visible files among `files`, front to back.
pub open spec fn visible_positions(files: Seq<FileEntry>, filter: FileFilter, query: Seq<char>, now: i64) -> Seq<usize>
    decreases files.len(),
{
    if files.len() == 0 {
        Seq::empty()
    } else {
        let rest = visible_positions(files.drop_last(), filter, query, now);
        if visible(files.last(), filter, query, now) {
            rest.push((files.len() - 1) as usize)
        } else {
            rest
        }
    }
}

/// The search text of `filter` as it is matched.
fn query_of(filter: &FileFilter) -> (query: Vec<char>)
    ensures
        query@ == search_query(filter.search@),
{
    let chars = chars_of(filter.search.as_str());
    let (start, end) = trim_bounds(&chars);
    let mut query: Vec<char> = Vec::new();
    for i in start..end
        invariant
            chars@ == filter.search@,
            trim_cut(chars@, start as int, end as int),
            query@ == ascii_lower(chars@.subrange(start as int, i as int)),
    {
        query.push(crate::text::to_lower_char(chars[i]));
        proof {
            assert(ascii_lower(chars@.subrange(start as int, i + 1)) =~= ascii_lower(
                chars@.subrange(start as int, i as int),
            ).push(crate::text::lower_char(chars@[i as int])));
        }
    }
    proof {
        lemma_trim_cut_trimmed(chars@, start as int, end as int);
    }
    query
}

/// Whether one file passes the filter.
fn passes(file: &FileEntry, filter: &FileFilter, all_types: &Vec<char>, query: &Vec<char>, now: i64) -> (shown: bool)
    requires
        filter.min_size_index < 4,
        filter.age_index < 4,
        all_types@ == "All types"@,
    ensures
        shown == visible(*file, *filter, query@, now),
{
    let wanted = chars_of(filter.extension.as_str());
    let type_ok = chars_equal(&wanted, all_types) || file.extension == filter.extension;
    if !type_ok {
        return false;
    }
    if file.size < min_size(filter.min_size_index) {
        return false;
    }
    let limit = max_age(filter.age_index);
    if limit != i64::MAX {
        if file.modified_unix <= 0 {
            return false;
        }
        if saturating_sub_i64(now, file.modified_unix) > limit {
            return false;
        }
    }
    if query.len() == 0 {
        return true;
    }
    let name = lowercase_chars(file.name.as_str());
    if contains_chars(&name, query) {
        return true;
    }
    let path = lowercase_chars(file.display_path.as_str());
    contains_chars(&path, query)
}

/// The positions of the files that pass `filter` at time `now` (seconds
/// since the Unix epoch), front to back.
pub fn filtered_indices(files: &Vec<FileEntry>, filter: &FileFilter, now: i64) -> (shown: Vec<usize>)
    requires
        filter.min_size_index < 4,
        filter.age_index < 4,
    ensures
        shown@ == visible_positions(files@, *filter, search_query(filter.search@), now),
{
    let query = query_of(filter);
    let all_types = chars_of("All types");
    let n = files.len();
    let mut shown: Vec<usize> = Vec::new();
    for i in 0..n
        invariant
            n == files@.len(),
            filter.min_size_index < 4,
            filter.age_index < 4,
            all_types@ == "All types"@,
            shown@ == visible_positions(files@.take(i as int), *filter, query@, now),
    {
        proof {
            assert(files@.take(i + 1).drop_last() =~= files@.take(i as int));
            assert(files@.take(i + 1).last() == files@[i as int]);
        }
        if passes(&files[i], filter, &all_types, &query, now) {
            shown.push(i);
        }
    }
    proof {
        assert(files@.take(n as int) =~= files@);
    }
    shown
}

/// Where `key` belongs in `keys`, which rise strictly in the order of
/// strings: every key before the place comes before `key`, none from it on
/// does.
fn search_place(keys: &Vec<Vec<char>>, key: &Vec<char>) -> (place: usize)
    requires
        forall|a: int, b: int|
            0 <= a < b < keys@.len() ==> chars_lt(#[trigger] keys@[a]@, #[trigger] keys@[b]@),
    ensures
        place <= keys@.len(),
        forall|j: int| 0 <= j < place ==> chars_lt(#[trigger] keys@[j]@, key@),
        forall|j: int| place <= j < keys@.len() ==> !chars_lt(#[trigger] keys@[j]@, key@),
{
    let mut lo: usize = 0;
    let mut hi: usize = keys.len();
    while lo < hi
        invariant
            lo <= hi <= keys@.len(),
            forall|a: int, b: int|
                0 <= a < b < keys@.len() ==> chars_lt(#[trigger] keys@[a]@, #[trigger] keys@[b]@),
            forall|j: int| 0 <= j < lo ==> chars_lt(#[trigger] keys@[j]@, key@),
            forall|j: int| hi <= j < keys@.len() ==> !chars_lt(#[trigger] keys@[j]@, key@),
        decreases hi - lo,
    {
        let mid = lo + (hi - lo) / 2;
        if chars_less(&keys[mid], key) {
            proof {
                assert forall|j: int| 0 <= j < mid + 1 implies chars_lt(#[trigger] keys@[j]@, key@) by {
                    if j < mid {
                        lemma_chars_lt_transitive(keys@[j]@, keys@[mid as int]@, key@);
                    }
                }
            }
            lo = mid + 1;
        } else {
            proof {
                assert forall|j: int| mid <= j < keys@.len() implies !chars_lt(#[trigger] keys@[j]@, key@) by {
                    if j > mid && chars_lt(keys@[j]@, key@) {
                        lemma_chars_lt_transitive(keys@[mid as int]@, keys@[j]@, key@);
                    }
                }
            }
            hi = mid;
        }
    }
    lo
}

/// Some file among the first `count` of `files` has the type `t`.
pub open spec fn type_among(files: Seq<FileEntry>, count: int, t: Seq<char>) -> bool {
    exists|k: int| 0 <= k < count && 0 <= k < files.len() && (#[trigger] files[k]).extension@ == t
}

/// Some string of `types` holds `t`.
pub open spec fn listed(types: Seq<String>, t: Seq<char>) -> bool {
    exists|a: int| 0 <= a < types.len() && (#[trigger] types[a])@ == t
}

/// The file types found in `files`, each once, in the order of strings.
pub fn distinct_extensions(files: &Vec<FileEntry>) -> (types: Vec<String>)
    ensures
        forall|a: int, b: int|
            0 <= a < b < types@.len() ==> chars_lt(#[trigger] types@[a]@, #[trigger] types@[b]@),
        forall|a: int|
            0 <= a < types@.len() ==> type_among(files@, files@.len() as int, (#[trigger] types@[a])@),
        forall|i: int| 0 <= i < files@.len() ==> listed(types@, (#[trigger] files@[i]).extension@),
{
    let n = files.len();
    let mut keys: Vec<Vec<char>> = Vec::new();
    let mut types: Vec<String> = Vec::new();
    for i in 0..n
        invariant
            n == files@.len(),
            keys@.len() == types@.len(),
            forall|j: int| 0 <= j < keys@.len() ==> (#[trigger] keys@[j])@ == types@[j]@,
            forall|a: int, b: int|
                0 <= a < b < keys@.len() ==> chars_lt(#[trigger] keys@[a]@, #[trigger] keys@[b]@),
            forall|a: int| 0 <= a < types@.len() ==> type_among(files@, i as int, (#[trigger] types@[a])@),
            forall|k: int| 0 <= k < i ==> listed(types@, (#[trigger] files@[k]).extension@),
    {
        let key = chars_of(files[i].extension.as_str());
        let place = search_place(&keys, &key);
        let present = place < keys.len() && crate::text::chars_equal(&keys[place], &key);
        if present {
            proof {
                assert forall|a: int| 0 <= a < types@.len() implies type_among(
                    files@,
                    i + 1,
                    (#[trigger] types@[a])@,
                ) by {
                    let k = choose|k: int| 0 <= k < i && 0 <= k < files@.len() && (#[trigger] files@[k]).extension@ == types@[a]@;
                }
                assert forall|k: int| 0 <= k < i + 1 implies listed(types@, (#[trigger] files@[k]).extension@) by {
                    if k == i {
                        assert(types@[place as int]@ == files@[k].extension@);
                    }
                }
            }
        } else {
            let ghost old_keys = keys@;
            let ghost old_types = types@;
            proof {
                if place < keys@.len() {
                    lemma_chars_lt_total(keys@[place as int]@, key@);
                }
            }
            let name = files[i].extension.clone();
            keys.insert(place, key);
            types.insert(place, name);
            proof {
                assert forall|j: int| 0 <= j < keys@.len() implies (#[trigger] keys@[j])@ == types@[j]@ by {
                    if j < place {
                        assert(keys@[j] == old_keys[j] && types@[j] == old_types[j]);
                    } else if j > place {
                        assert(keys@[j] == old_keys[j - 1] && types@[j] == old_types[j - 1]);
                    }
                }
                assert forall|a: int, b: int|
                    0 <= a < b < keys@.len() implies chars_lt(#[trigger] keys@[a]@, #[trigger] keys@[b]@) by {
                    if b < place {
                        assert(keys@[a] == old_keys[a] && keys@[b] == old_keys[b]);
                    } else if b == place {
                        assert(keys@[a] == old_keys[a]);
                    } else if a == place {
                        assert(keys@[b] == old_keys[b - 1]);
                        if b - 1 > place {
                            lemma_chars_lt_transitive(key@, old_keys[place as int]@, old_keys[b - 1]@);
                        }
                    } else if a < place {
                        assert(keys@[a] == old_keys[a] && keys@[b] == old_keys[b - 1]);
                    } else {
                        assert(keys@[a] == old_keys[a - 1] && keys@[b] == old_keys[b - 1]);
                    }
                }
                assert forall|a: int| 0 <= a < types@.len() implies type_among(
                    files@,
                    i + 1,
                    (#[trigger] types@[a])@,
                ) by {
                    if a < place {
                        assert(types@[a] == old_types[a]);
                        assert(type_among(files@, i as int, old_types[a]@));
                        let k = choose|k: int| 0 <= k < i && 0 <= k < files@.len() && (#[trigger] files@[k]).extension@ == old_types[a]@;
                    } else if a > place {
                        assert(types@[a] == old_types[a - 1]);
                        assert(type_among(files@, i as int, old_types[a - 1]@));
                        let k = choose|k: int| 0 <= k < i && 0 <= k < files@.len() && (#[trigger] files@[k]).extension@ == old_types[a - 1]@;
                    } else {
                        assert(files@[i as int].extension@ == types@[a]@);
                    }
                }
                assert forall|k: int| 0 <= k < i + 1 implies listed(types@, (#[trigger] files@[k]).extension@) by {
                    if k == i {
                        assert(types@[place as int]@ == files@[k].extension@);
                    } else {
                        assert(listed(old_types, files@[k].extension@));
                        let a = choose|a: int| 0 <= a < old_types.len() && (#[trigger] old_types[a])@ == files@[k].extension@;
                        if a < place {
                            assert(types@[a] == old_types[a]);
                        } else {
                            assert(types@[a + 1] == old_types[a]);
                        }
                    }
                }
            }
        }
    }
    proof {
        assert forall|a: int, b: int|
            0 <= a < b < types@.len() implies chars_lt(#[trigger] types@[a]@, #[trigger] types@[b]@) by {
            assert(keys@[a]@ == types@[a]@ && keys@[b]@ == types@[b]@);
        }
    }
    types
}

/// The weight of a file on the heatmap: its size, and 1 for an empty file.
pub open spec fn weight(file: FileEntry) -> int {
    if file.size == 0 {
        1
    } else {
        file.size as int
    }
}

/// The entries of `chosen` (positions in `files`), front to back, whose file
/// has the type `t`.
pub open spec fn members_of_type(files: Seq<FileEntry>, chosen: Seq<usize>, t: Seq<char>) -> Seq<usize>
    decreases chosen.len(),
{
    if chosen.len() == 0 {
        Seq::empty()
    } else {
        let rest = members_of_type(files, chosen.drop_last(), t);
        if files[chosen.last() as int].extension@ == t {
            rest.push(chosen.last())
        } else {
            rest
        }
    }
}

/// The weights of the files at `members`, added up.
pub open spec fn weight_sum(files: Seq<FileEntry>, members: Seq<usize>) -> int
    decreases members.len(),
{
    if members.len() == 0 {
        0
    } else {
        weight_sum(files, members.drop_last()) + weight(files[members.last() as int])
    }
}

/// The files the heatmap draws: the first 1,500 of `indices`.
pub open spec fn heatmap_chosen(indices: Seq<usize>) -> Seq<usize> {
    indices.take(if indices.len() < 1500 { indices.len() as int } else { 1500 })
}

/// The files of one type drawn together on the heatmap, with their combined
/// weight.
pub struct TypeGroup {
    pub extension: String,
    pub members: Vec<usize>,
    pub total: u64,
}

impl RankKey for TypeGroup {
    open spec fn rank_key(&self) -> u64 {
        self.total
    }

    fn rank(&self) -> (k: u64) {
        self.total
    }
}

/// `groups` holds a group of the type `t`.
pub open spec fn has_group_for(groups: Seq<TypeGroup>, t: Seq<char>) -> bool {
    exists|a: int| 0 <= a < groups.len() && (#[trigger] groups[a]).extension@ == t
}

/// A group gathers exactly the chosen files of its type, at least one, with
/// their combined weight.
pub open spec fn type_group_exact(files: Seq<FileEntry>, chosen: Seq<usize>, g: TypeGroup) -> bool {
    &&& g.members@ == members_of_type(files, chosen, g.extension@)
    &&& g.members@.len() > 0
    &&& g.total == weight_sum(files, g.members@)
}

proof fn lemma_weight_sum_prefix(files: Seq<FileEntry>, chosen: Seq<usize>, t: Seq<char>, k: int)
    requires
        0 <= k <= chosen.len(),
    ensures
        weight_sum(files, members_of_type(files, chosen.take(k), t)) <= weight_sum(
            files,
            members_of_type(files, chosen, t),
        ),
    decreases chosen.len() - k,
{
    if k < chosen.len() {
        lemma_weight_sum_prefix(files, chosen, t, k + 1);
        assert(chosen.take(k + 1).drop_last() =~= chosen.take(k));
        let m = members_of_type(files, chosen.take(k), t);
        if files[chosen.take(k + 1).last() as int].extension@ == t {
            assert(m.push(chosen.take(k + 1).last()).drop_last() =~= m);
        }
    } else {
        assert(chosen.take(k) =~= chosen);
    }
}

/// The position in `groups` of the group whose type is `key`, if any.
fn find_type(keys: &Vec<Vec<char>>, key: &Vec<char>) -> (found: Option<usize>)
    ensures
        found matches Some(f) ==> f < keys@.len() && keys@[f as int]@ == key@,
        found is None ==> forall|t: int| 0 <= t < keys@.len() ==> (#[trigger] keys@[t])@ != key@,
{
    let count = keys.len();
    for j in 0..count
        invariant
            count == keys@.len(),
            forall|t: int| 0 <= t < j ==> (#[trigger] keys@[t])@ != key@,
    {
        if chars_equal(&keys[j], key) {
            return Some(j);
        }
    }
    None
}

/// Gathers the chosen files by type, in the order the types first appear.
fn gather_types(files: &Vec<FileEntry>, chosen: &Vec<usize>) -> (groups: Vec<TypeGroup>)
    requires
        forall|k: int| 0 <= k < chosen@.len() ==> #[trigger] chosen@[k] < files@.len(),
        forall|k: int|
            0 <= k < chosen@.len() ==> weight_sum(
                files@,
                members_of_type(files@, chosen@, files@[#[trigger] chosen@[k] as int].extension@),
            ) <= u64::MAX,
    ensures
        forall|a: int| 0 <= a < groups@.len() ==> type_group_exact(files@, chosen@, #[trigger] groups@[a]),
        forall|a: int, b: int|
            0 <= a < b < groups@.len() ==> (#[trigger] groups@[a]).extension@ != (#[trigger] groups@[b]).extension@,
        forall|k: int|
            0 <= k < chosen@.len() ==> has_group_for(groups@, files@[#[trigger] chosen@[k] as int].extension@),
{
    let n = chosen.len();
    let mut keys: Vec<Vec<char>> = Vec::new();
    let mut groups: Vec<TypeGroup> = Vec::new();
    for k in 0..n
        invariant
            n == chosen@.len(),
            forall|k: int| 0 <= k < chosen@.len() ==> #[trigger] chosen@[k] < files@.len(),
            forall|k: int|
                0 <= k < chosen@.len() ==> weight_sum(
                    files@,
                    members_of_type(files@, chosen@, files@[#[trigger] chosen@[k] as int].extension@),
                ) <= u64::MAX,
            keys@.len() == groups@.len(),
            forall|j: int| 0 <= j < keys@.len() ==> (#[trigger] keys@[j])@ == groups@[j].extension@,
            forall|a: int|
                0 <= a < groups@.len() ==> type_group_exact(files@, chosen@.take(k as int), #[trigger] groups@[a]),
            forall|a: int, b: int|
                0 <= a < b < groups@.len() ==> (#[trigger] groups@[a]).extension@ != (#[trigger] groups@[b]).extension@,
            forall|t: int|
                0 <= t < k ==> has_group_for(groups@, files@[#[trigger] chosen@[t] as int].extension@),
    {
        let ghost prefix = chosen@.take(k as int);
        let ghost next = chosen@.take(k + 1);
        proof {
            assert(next.drop_last() =~= prefix);
            assert(next.last() == chosen@[k as int]);
        }
        let index = chosen[k];
        let file = &files[index];
        let w: u64 = if file.size == 0 {
            1
        } else {
            file.size
        };
        let key = chars_of(file.extension.as_str());
        let ghost t = file.extension@;
        match find_type(&keys, &key) {
            Some(j) => {
                proof {
                    lemma_weight_sum_prefix(files@, chosen@, t, k + 1);
                    assert(members_of_type(files@, next, t) == groups@[j as int].members@.push(index));
                    assert(members_of_type(files@, next, t).drop_last() =~= groups@[j as int].members@);
                }
                let ghost old_groups = groups@;
                let total = groups[j].total + w;
                groups[j].members.push(index);
                groups[j].total = total;
                proof {
                    assert forall|a: int| 0 <= a < groups@.len() implies type_group_exact(
                        files@,
                        next,
                        #[trigger] groups@[a],
                    ) by {
                        if a != j {
                            assert(groups@[a] == old_groups[a]);
                            assert(old_groups[a].extension@ != t);
                        } else {
                            assert(groups@[a].members@ =~= old_groups[a].members@.push(index));
                            assert(groups@[a].members@.drop_last() =~= old_groups[a].members@);
                            assert(groups@[a].members@.last() == index);
                            assert(groups@[a].extension@ == t);
                            assert(groups@[a].total == old_groups[a].total + w);
                        }
                    }
                    assert forall|s: int| 0 <= s < k + 1 implies has_group_for(
                        groups@,
                        files@[#[trigger] chosen@[s] as int].extension@,
                    ) by {
                        if s == k {
                            assert(groups@[j as int].extension@ == t);
                        } else {
                            let a = choose|a: int|
                                0 <= a < old_groups.len() && (#[trigger] old_groups[a]).extension@
                                    == files@[chosen@[s] as int].extension@;
                            assert(groups@[a].extension@ == old_groups[a].extension@);
                        }
                    }
                }
            },
            None => {
                proof {
                    assert forall|j: int| 0 <= j < groups@.len() implies (#[trigger] groups@[j]).extension@ != t by {
                        assert(keys@[j]@ == groups@[j].extension@);
                    }
                    assert(members_of_type(files@, prefix, t) == Seq::<usize>::empty()) by {
                        if members_of_type(files@, prefix, t).len() > 0 {
                            lemma_member_has_group(files@, prefix, t, groups@);
                        }
                    }
                    lemma_weight_sum_prefix(files@, chosen@, t, k + 1);
                    assert(members_of_type(files@, next, t) =~= seq![index]);
                    assert(seq![index].drop_last() =~= Seq::<usize>::empty());
                }
                let ghost old_groups = groups@;
                let mut members: Vec<usize> = Vec::new();
                members.push(index);
                let group = TypeGroup { extension: file.extension.clone(), members, total: w };
                keys.push(key);
                groups.push(group);
                proof {
                    assert forall|a: int| 0 <= a < groups@.len() implies type_group_exact(
                        files@,
                        next,
                        #[trigger] groups@[a],
                    ) by {
                        if a < old_groups.len() {
                            assert(groups@[a] == old_groups[a]);
                            assert(old_groups[a].extension@ != t);
                        } else {
                            assert(groups@[a].extension@ == t);
                            assert(groups@[a].members@ =~= seq![index]);
                            assert(weight_sum(files@, seq![index]) == weight_sum(files@, Seq::<usize>::empty()) + weight(files@[index as int]));
                            assert(groups@[a].total == w);
                        }
                    }
                    assert forall|s: int| 0 <= s < k + 1 implies has_group_for(
                        groups@,
                        files@[#[trigger] chosen@[s] as int].extension@,
                    ) by {
                        if s == k {
                            assert(groups@[old_groups.len() as int].extension@ == t);
                        } else {
                            let a = choose|a: int|
                                0 <= a < old_groups.len() && (#[trigger] old_groups[a]).extension@
                                    == files@[chosen@[s] as int].extension@;
                            assert(groups@[a] == old_groups[a]);
                        }
                    }
                }
            },
        }
    }
    proof {
        assert(chosen@.take(n as int) =~= chosen@);
    }
    groups
}

/// A chosen file of type `t` in a prefix means some group has type `t`.
proof fn lemma_member_has_group(files: Seq<FileEntry>, prefix: Seq<usize>, t: Seq<char>, groups: Seq<TypeGroup>)
    requires
        members_of_type(files, prefix, t).len() > 0,
        forall|s: int| 0 <= s < prefix.len() ==> has_group_for(groups, files[#[trigger] prefix[s] as int].extension@),
    ensures
        has_group_for(groups, t),
    decreases prefix.len(),
{
    let last = prefix.last();
    if files[last as int].extension@ == t {
        assert(prefix[prefix.len() - 1] == last);
    } else {
        assert forall|s: int| 0 <= s < prefix.drop_last().len() implies has_group_for(
            groups,
            files[#[trigger] prefix.drop_last()[s] as int].extension@,
        ) by {
            assert(prefix.drop_last()[s] == prefix[s]);
        }
        lemma_member_has_group(files, prefix.drop_last(), t, groups);
    }
}

/// The heatmap's groups: the first 1,500 of `indices` (positions in `files`)
/// gathered by file type, each group holding every chosen file of its type in
/// the order chosen and their combined weight, heaviest group first (equal
/// weights in any order). Each type gets exactly one group.
pub fn heatmap_groups(files: &Vec<FileEntry>, indices: &Vec<usize>) -> (groups: Vec<TypeGroup>)
    requires
        forall|k: int|
            0 <= k < heatmap_chosen(indices@).len() ==> #[trigger] heatmap_chosen(indices@)[k]
                < files@.len(),
        forall|k: int|
            0 <= k < heatmap_chosen(indices@).len() ==> weight_sum(
                files@,
                members_of_type(
                    files@,
                    heatmap_chosen(indices@),
                    files@[#[trigger] heatmap_chosen(indices@)[k] as int].extension@,
                ),
            ) <= u64::MAX,
    ensures
        sorted_desc(groups@),
        forall|a: int, b: int| 0 <= a < b < groups@.len() ==> (#[trigger] groups@[a]).total >= (#[trigger] groups@[b]).total,
        forall|a: int|
            0 <= a < groups@.len() ==> type_group_exact(
                files@,
                heatmap_chosen(indices@),
                #[trigger] groups@[a],
            ),
        forall|a: int, b: int|
            0 <= a < b < groups@.len() ==> (#[trigger] groups@[a]).extension@ != (
            #[trigger] groups@[b]).extension@,
        forall|k: int|
            0 <= k < heatmap_chosen(indices@).len() ==> has_group_for(
                groups@,
                files@[#[trigger] heatmap_chosen(indices@)[k] as int].extension@,
            ),
{
    let limit: usize = if indices.len() < 1500 {
        indices.len()
    } else {
        1500
    };
    let mut chosen: Vec<usize> = Vec::new();
    for k in 0..limit
        invariant
            limit <= indices@.len(),
            limit == heatmap_chosen(indices@).len(),
            chosen@ == indices@.take(k as int),
    {
        chosen.push(indices[k]);
        proof {
            assert(indices@.take(k + 1) =~= indices@.take(k as int).push(indices@[k as int]));
        }
    }
    proof {
        assert(chosen@ =~= heatmap_chosen(indices@));
    }
    let gathered = gather_types(files, &chosen);
    let groups = sort_desc(gathered);
    proof {
        broadcast use vstd::seq_lib::group_to_multiset_ensures;

        lemma_permutation_keeps_distinct(gathered@, groups@, |g: TypeGroup| g.extension@);
        assert forall|a: int| 0 <= a < groups@.len() implies type_group_exact(
            files@,
            heatmap_chosen(indices@),
            #[trigger] groups@[a],
        ) by {
            assert(groups@.to_multiset().count(groups@[a]) > 0);
            assert(gathered@.contains(groups@[a]));
        }
        assert forall|k: int| 0 <= k < heatmap_chosen(indices@).len() implies has_group_for(
            groups@,
            files@[#[trigger] heatmap_chosen(indices@)[k] as int].extension@,
        ) by {
            assert(chosen@[k] == heatmap_chosen(indices@)[k]);
            let a = choose|a: int|
                0 <= a < gathered@.len() && (#[trigger] gathered@[a]).extension@
                    == files@[chosen@[k] as int].extension@;
            assert(gathered@.to_multiset().count(gathered@[a]) > 0);
            assert(groups@.contains(gathered@[a]));
            let b = choose|b: int| 0 <= b < groups@.len() && groups@[b] == gathered@[a];
            assert(groups@[b].extension@ == files@[chosen@[k] as int].extension@);
        }
    }
    proof {
        lemma_type_groups_heaviest_first(groups@);
    }
    groups
}

/// The entries of `indices` (front to back) that name a file of `files` of
/// the type `t`; entries past the end of `files` are passed over.
pub open spec fn category_members(files: Seq<FileEntry>, indices: Seq<usize>, t: Seq<char>) -> Seq<usize>
    decreases indices.len(),
{
    if indices.len() == 0 {
        Seq::empty()
    } else {
        let rest = category_members(files, indices.drop_last(), t);
        let i = indices.last();
        if i < files.len() && files[i as int].extension@ == t {
            rest.push(i)
        } else {
            rest
        }
    }
}

/// The sizes of the files at `members`, added up.
pub open spec fn size_sum(files: Seq<FileEntry>, members: Seq<usize>) -> int
    decreases members.len(),
{
    if members.len() == 0 {
        0
    } else {
        size_sum(files, members.drop_last()) + files[members.last() as int].size
    }
}

proof fn lemma_size_sum_push(files: Seq<FileEntry>, members: Seq<usize>, i: usize)
    ensures
        size_sum(files, members.push(i)) == size_sum(files, members) + files[i as int].size,
{
    assert(members.push(i).drop_last() =~= members);
}

proof fn lemma_size_sum_nonneg(files: Seq<FileEntry>, members: Seq<usize>)
    ensures
        size_sum(files, members) >= 0,
    decreases members.len(),
{
    if members.len() > 0 {
        lemma_size_sum_nonneg(files, members.drop_last());
    }
}

proof fn lemma_category_prefix(files: Seq<FileEntry>, indices: Seq<usize>, t: Seq<char>, k: int)
    requires
        0 <= k <= indices.len(),
    ensures
        size_sum(files, category_members(files, indices.take(k), t)) <= size_sum(
            files,
            category_members(files, indices, t),
        ),
    decreases indices.len() - k,
{
    if k < indices.len() {
        lemma_category_prefix(files, indices, t, k + 1);
        assert(indices.take(k + 1).drop_last() =~= indices.take(k));
        let m = category_members(files, indices.take(k), t);
        let i = indices.take(k + 1).last();
        if i < files.len() && files[i as int].extension@ == t {
            lemma_size_sum_push(files, m, i);
        }
    } else {
        assert(indices.take(k) =~= indices);
    }
}

/// The files of one type among `indices` (the files currently shown): their
/// positions, front to back, and their combined size.
pub fn category_summary(files: &Vec<FileEntry>, indices: &Vec<usize>, extension: &str) -> (summary: (
    Vec<usize>,
    u64,
))
    requires
        size_sum(files@, category_members(files@, indices@, extension@)) <= u64::MAX,
    ensures
        summary.0@ == category_members(files@, indices@, extension@),
        summary.1 == size_sum(files@, category_members(files@, indices@, extension@)),
{
    let wanted: String = extension.to_owned();
    let n = indices.len();
    let mut members: Vec<usize> = Vec::new();
    let mut total: u64 = 0;
    let ghost t = extension@;
    for k in 0..n
        invariant
            n == indices@.len(),
            wanted@ == t,
            t == extension@,
            size_sum(files@, category_members(files@, indices@, t)) <= u64::MAX,
            members@ == category_members(files@, indices@.take(k as int), t),
            total == size_sum(files@, category_members(files@, indices@.take(k as int), t)),
    {
        let ghost before = category_members(files@, indices@.take(k as int), t);
        proof {
            assert(indices@.take(k + 1).drop_last() =~= indices@.take(k as int));
            assert(indices@.take(k + 1).last() == indices@[k as int]);
            lemma_category_prefix(files@, indices@, t, k + 1);
        }
        let i = indices[k];
        if i < files.len() && files[i].extension == wanted {
            proof {
                lemma_size_sum_push(files@, before, i);
                lemma_size_sum_nonneg(files@, before);
            }
            members.push(i);
            total = total + files[i].size;
        }
    }
    proof {
        assert(indices@.take(n as int) =~= indices@);
    }
    (members, total)
}

/// The sizes of the files at `indices`, added up.
pub fn total_size(files: &Vec<FileEntry>, indices: &Vec<usize>) -> (total: u64)
    requires
        forall|k: int| 0 <= k < indices@.len() ==> #[trigger] indices@[k] < files@.len(),
        size_sum(files@, indices@) <= u64::MAX,
    ensures
        total == size_sum(files@, indices@),
{
    let n = indices.len();
    let mut total: u64 = 0;
    for k in 0..n
        invariant
            n == indices@.len(),
            forall|k: int| 0 <= k < indices@.len() ==> #[trigger] indices@[k] < files@.len(),
            size_sum(files@, indices@) <= u64::MAX,
            total == size_sum(files@, indices@.take(k as int)),
    {
        proof {
            assert(indices@.take(k + 1).drop_last() =~= indices@.take(k as int));
            lemma_size_sum_take(files@, indices@, k + 1);
        }
        total = total + files[indices[k]].size;
    }
    proof {
        assert(indices@.take(n as int) =~= indices@);
    }
    total
}

proof fn lemma_size_sum_take(files: Seq<FileEntry>, members: Seq<usize>, k: int)
    requires
        0 <= k <= members.len(),
    ensures
        size_sum(files, members.take(k)) <= size_sum(files, members),
    decreases members.len() - k,
{
    if k < members.len() {
        lemma_size_sum_take(files, members, k + 1);
        assert(members.take(k + 1).drop_last() =~= members.take(k));
    } else {
        assert(members.take(k) =~= members);
    }
}

/// Whether some file has the type `extension`.
pub fn has_extension(files: &Vec<FileEntry>, extension: &String) -> (found: bool)
    ensures
        found == exists|i: int| 0 <= i < files@.len() && (#[trigger] files@[i]).extension@ == extension@,
{
    let n = files.len();
    for i in 0..n
        invariant
            n == files@.len(),
            forall|k: int| 0 <= k < i ==> (#[trigger] files@[k]).extension@ != extension@,
    {
        if files[i].extension == *extension {
            return true;
        }
    }
    false
}

/// The palette hash of a type's UTF-8 bytes: starting from 5381, each byte
/// multiplies by 33 (wrapping around the width of `usize`) and is then
/// combined by exclusive or.
pub open spec fn palette_hash(bytes: Seq<u8>) -> usize
    decreases bytes.len(),
{
    if bytes.len() == 0 {
        5381
    } else {
        let h = palette_hash(bytes.drop_last());
        (((h as nat * 33) % (usize::MAX as nat + 1)) as usize) ^ (bytes.last() as usize)
    }
}

/// Which of the nine palette colors a file type gets.
pub fn palette_slot(extension: &str) -> (slot: usize)
    ensures
        slot == palette_hash(extension.spec_bytes()) % 9,
        slot < 9,
{
    let bytes = extension.as_bytes();
    let n = bytes.len();
    let mut hash: usize = 5381;
    for i in 0..n
        invariant
            n == bytes@.len(),
            bytes@ == extension.spec_bytes(),
            hash == palette_hash(bytes@.take(i as int)),
    {
        proof {
            assert(bytes@.take(i + 1).drop_last() =~= bytes@.take(i as int));
        }
        hash = hash.wrapping_mul(33) ^ (bytes[i] as usize);
    }
    proof {
        assert(bytes@.take(n as int) =~= bytes@);
    }
    hash % 9
}

/// The age band of a file, for coloring by age: the whole days since it was
/// modified (a negative time counts as 0, and a time in the future gives a
/// negative count), then 0 up to 30 days, 1 up to 180, 2 up to 365, 3 up to
/// 1095, and 4 beyond or for a negative count.
pub open spec fn spec_age_band(modified: i64, now: i64) -> usize {
    let since = saturating_diff(now, if modified > 0 { modified } else { 0 });
    let days = crate::text::div_toward_zero(since, 86_400);
    if 0 <= days <= 30 {
        0
    } else if 31 <= days <= 180 {
        1
    } else if 181 <= days <= 365 {
        2
    } else if 366 <= days <= 1095 {
        3
    } else {
        4
    }
}

/// The age band of a file, for coloring by age.
pub fn age_band(modified: i64, now: i64) -> (band: usize)
    ensures
        band == spec_age_band(modified, now),
        band < 5,
{
    let start = if modified > 0 {
        modified
    } else {
        0
    };
    let since = saturating_sub_i64(now, start);
    let days: i64 = if since >= 0 {
        since / 86_400
    } else {
        -((-(since as i128) / 86_400) as i64)
    };
    if 0 <= days && days <= 30 {
        0
    } else if 31 <= days && days <= 180 {
        1
    } else if 181 <= days && days <= 365 {
        2
    } else if 366 <= days && days <= 1095 {
        3
    } else {
        4
    }
}

/// The places of the paths that a move to the Trash took away, front to
/// back: all of them when the move succeeded, and otherwise those that no
/// longer exist (`gone`).
pub open spec fn moved_places(succeeded: bool, gone: Seq<bool>) -> Seq<usize>
    decreases gone.len(),
{
    if gone.len() == 0 {
        Seq::empty()
    } else {
        let rest = moved_places(succeeded, gone.drop_last());
        if succeeded || gone.last() {
            rest.push((gone.len() - 1) as usize)
        } else {
            rest
        }
    }
}

/// Which of the paths handed to the Trash count as moved: `gone[i]` tells
/// whether path `i` no longer exists, and is read only when the move as a
/// whole failed.
pub fn trashed_places(succeeded: bool, gone: &Vec<bool>) -> (moved: Vec<usize>)
    ensures
        moved@ == moved_places(succeeded, gone@),
{
    let mut moved: Vec<usize> = Vec::new();
    let n = gone.len();
    for i in 0..n
        invariant
            n == gone@.len(),
            moved@ == moved_places(succeeded, gone@.take(i as int)),
    {
        proof {
            assert(gone@.take(i + 1).drop_last() =~= gone@.take(i as int));
        }
        if succeeded || gone[i] {
            moved.push(i);
        }
    }
    proof {
        assert(gone@.take(n as int) =~= gone@);
    }
    moved
}


/// The time choices, compared with "any time" (choice 0) on the same filter:
/// "last 30 days" (choice 1) also asks for a positive time at most
/// 30 * 86_400 seconds before `now`, "last year" (choice 2) at most
/// 365 * 86_400 seconds, and "last 3 years" (choice 3) at most
/// 3 * 365 * 86_400 seconds.
pub proof fn lemma_age_choices(file: FileEntry, filter: FileFilter, query: Seq<char>, now: i64)
    ensures
        ({
            let any = FileFilter {
                search: filter.search,
                extension: filter.extension,
                min_size_index: filter.min_size_index,
                age_index: 0,
            };
            let recent = file.modified_unix > 0;
            let age = saturating_diff(now, file.modified_unix);
            &&& filter.age_index == 0 ==> (visible(file, filter, query, now) == visible(file, any, query, now))
            &&& filter.age_index == 1 ==> (visible(file, filter, query, now) == (visible(file, any, query, now)
                && recent && age <= 30 * 86_400))
            &&& filter.age_index == 2 ==> (visible(file, filter, query, now) == (visible(file, any, query, now)
                && recent && age <= 365 * 86_400))
            &&& filter.age_index == 3 ==> (visible(file, filter, query, now) == (visible(file, any, query, now)
                && recent && age <= 3 * 365 * 86_400))
        }),
{
}

/// The age limits of the choices "last 30 days", "last year" and "last 3
/// years" strictly rise, and "any time" allows more than any of them.
pub proof fn lemma_age_limits_rise()
    ensures
        spec_max_age(1) < spec_max_age(2),
        spec_max_age(2) < spec_max_age(3),
        spec_max_age(3) < spec_max_age(0),
{
}

/// Type groups ordered for the heatmap come heaviest first: their combined
/// weights never rise from front to back.
pub proof fn lemma_type_groups_heaviest_first(groups: Seq<TypeGroup>)
    requires
        sorted_desc(groups),
    ensures
        forall|a: int, b: int| 0 <= a < b < groups.len() ==> (#[trigger] groups[a]).total >= (#[trigger] groups[b]).total,
{
    assert forall|a: int, b: int| 0 <= a < b < groups.len() implies (#[trigger] groups[a]).total >= (#[trigger] groups[b]).total by {
        assert(groups[a].rank_key() >= groups[b].rank_key());
    }
}

/// The places a move to the Trash took away: all when it succeeded;
/// otherwise exactly the paths that are gone.
pub proof fn lemma_trashed_places(succeeded: bool, gone: Seq<bool>)
    ensures
        forall|k: int| 0 <= k < moved_places(succeeded, gone).len() ==> #[trigger] moved_places(succeeded, gone)[k] < gone.len(),
        succeeded ==> moved_places(succeeded, gone).len() == gone.len(),
    decreases gone.len(),
{
    if gone.len() > 0 {
        lemma_trashed_places(succeeded, gone.drop_last());
        let rest = moved_places(succeeded, gone.drop_last());
        if succeeded || gone.last() {
            assert forall|k: int| 0 <= k < rest.push((gone.len() - 1) as usize).len() implies #[trigger] rest.push((gone.len() - 1) as usize)[k] < gone.len() by {
                if k < rest.len() {
                    assert(rest.push((gone.len() - 1) as usize)[k] == rest[k]);
                }
            }
        }
    }
}


/// The size choices, compared with "any size" (choice 0) on the same filter:
/// choice 1 also asks for at least 1 MiB (1_048_576 bytes), choice 2 for at
/// least 100 MiB, choice 3 for at least 1 GiB.
pub proof fn lemma_size_choices(file: FileEntry, filter: FileFilter, query: Seq<char>, now: i64)
    ensures
        ({
            let any = FileFilter {
                search: filter.search,
                extension: filter.extension,
                min_size_index: 0,
                age_index: filter.age_index,
            };
            &&& filter.min_size_index == 0 ==> (visible(file, filter, query, now) == visible(file, any, query, now))
            &&& filter.min_size_index == 1 ==> (visible(file, filter, query, now) == (visible(file, any, query, now)
                && file.size >= 1024 * 1024))
            &&& filter.min_size_index == 2 ==> (visible(file, filter, query, now) == (visible(file, any, query, now)
                && file.size >= 100 * 1024 * 1024))
            &&& filter.min_size_index == 3 ==> (visible(file, filter, query, now) == (visible(file, any, query, now)
                && file.size >= 1024 * 1024 * 1024))
        }),
{
}

/// The age bands of a file modified at a positive time not after `now`:
/// band 0 for less than 31 days, at most 1 for less than 181 days, at most 2
/// for less than 366 days, at most 3 for less than 1096 days, and 4 beyond;
/// older files never get a smaller band.
pub proof fn lemma_age_bands(modified: i64, now: i64, older: i64)
    requires
        0 < older <= modified <= now,
    ensures
        (spec_age_band(modified, now) == 0) == (now - modified < 31 * 86_400),
        (spec_age_band(modified, now) <= 1) == (now - modified < 181 * 86_400),
        (spec_age_band(modified, now) <= 2) == (now - modified < 366 * 86_400),
        (spec_age_band(modified, now) <= 3) == (now - modified < 1096 * 86_400),
        spec_age_band(modified, now) <= 4,
        spec_age_band(older, now) >= spec_age_band(modified, now),
{
    let d1 = (now - modified) / 86_400;
    let d2 = (now - older) / 86_400;
    assert(d1 <= d2) by (nonlinear_arith)
        requires
            0 <= now - modified <= now - older,
            d1 == (now - modified) / 86_400,
            d2 == (now - older) / 86_400,
    ;
}


/// Every file weighs at least one on the heatmap, so an empty file still
/// gets a tile; any other file weighs its size.
pub proof fn lemma_weight_of_file(file: FileEntry)
    ensures
        weight(file) >= 1,
        file.size > 0 ==> weight(file) == file.size,
        file.size == 0 ==> weight(file) == 1,
{
}

/// The heatmap draws the first 1,500 of the chosen files, in their order,
/// and all of them when there are fewer.
pub proof fn lemma_heatmap_draws_first(indices: Seq<usize>)
    ensures
        heatmap_chosen(indices).len() == (if indices.len() <= 1500 { indices.len() } else { 1500 }),
        forall|k: int| 0 <= k < heatmap_chosen(indices).len() ==> #[trigger] heatmap_chosen(indices)[k] == indices[k],
{
}

} // verus!
