//! Planning one cleaning pass over a folder: which files form a group (the
//! files containing a key that a capture-group pattern takes from a name, or
//! the files a pattern without capture groups matches), and which of them are
//! old enough to go.

use vstd::prelude::*;
use vstd::string::StringExecFns;
use vstd::utf8::{encode_scalar, encode_utf8};
use crate::patterns::{key_for, regex_accepts, whole_match, CompiledPattern, Probe};
use crate::text::{chars_of, contains_chars, has_substring, lemma_substring_of_parts};
use vstd::set_lib::{lemma_int_range, lemma_len_subset, set_int_range};
use vstd::seq_lib::seq_to_set_is_finite;

verus! {

/// One file of the folder being cleaned, as the cleaner sees it.
pub struct FileEntry {
    /// The file's name (last path component).
    pub name: String,
    /// The full path, used to delete the file.
    pub path: String,
    /// Modification time, in nanoseconds relative to the Unix epoch.
    pub modified: i128,
}

/// The names of the files, in order.
pub open spec fn names_of(files: Seq<FileEntry>) -> Seq<Seq<char>> {
    files.map_values(|f: FileEntry| f.name@)
}

/// The pattern texts, in order.
pub open spec fn sources_of(patterns: Seq<CompiledPattern>) -> Seq<Seq<char>> {
    patterns.map_values(|p: CompiledPattern| p@)
}

/// The character views of a list of strings.
pub open spec fn string_views(v: Seq<String>) -> Seq<Seq<char>> {
    v.map_values(|s: String| s@)
}

/// The keys `pattern` yields over `names`, in name order (one per match of a
/// pattern with capture groups that yields a key).
pub open spec fn pattern_keys(pattern: Seq<char>, names: Seq<Seq<char>>) -> Seq<Seq<char>>
    decreases names.len(),
{
    if names.len() == 0 {
        seq![]
    } else {
        let prev = pattern_keys(pattern, names.drop_last());
        match key_for(pattern, names.last()) {
            Some(Some(k)) => prev.push(k),
            _ => prev,
        }
    }
}

/// All candidate keys: pattern by pattern, name by name.
pub open spec fn scanned_keys(patterns: Seq<Seq<char>>, names: Seq<Seq<char>>) -> Seq<Seq<char>>
    decreases patterns.len(),
{
    if patterns.len() == 0 {
        seq![]
    } else {
        scanned_keys(patterns.drop_last(), names) + pattern_keys(patterns.last(), names)
    }
}

/// A key is used only when its UTF-8 encoding has at least two bytes.
pub open spec fn long_enough(k: Seq<char>) -> bool {
    encode_utf8(k).len() >= 2
}

/// The candidates that are long enough, each kept at its first occurrence.
pub open spec fn distinct_keys(cands: Seq<Seq<char>>) -> Seq<Seq<char>>
    decreases cands.len(),
{
    if cands.len() == 0 {
        seq![]
    } else {
        let d = distinct_keys(cands.drop_last());
        let k = cands.last();
        if long_enough(k) && !d.contains(k) {
            d.push(k)
        } else {
            d
        }
    }
}

/// The keys a cleaning pass works on.
pub open spec fn cleanup_keys(patterns: Seq<Seq<char>>, names: Seq<Seq<char>>) -> Seq<Seq<char>> {
    distinct_keys(scanned_keys(patterns, names))
}

/// Every match of every pattern on every name yields a key (no regex with
/// capture groups matches while its group 1 stays out of the match).
pub open spec fn keys_resolvable(patterns: Seq<Seq<char>>, names: Seq<Seq<char>>) -> bool {
    forall|i: int, j: int|
        0 <= i < patterns.len() && 0 <= j < names.len() ==> #[trigger] key_for(patterns[i], names[j])
            != Some(None::<Seq<char>>)
}

proof fn lemma_distinct_step(c: Seq<Seq<char>>, k: Seq<char>)
    ensures
        distinct_keys(c.push(k)) == (if long_enough(k) && !distinct_keys(c).contains(k) {
            distinct_keys(c).push(k)
        } else {
            distinct_keys(c)
        }),
{
    assert(c.push(k).drop_last() =~= c);
}

proof fn lemma_encode_len_at_least_chars(chars: Seq<char>)
    ensures
        encode_utf8(chars).len() >= chars.len(),
    decreases chars.len(),
{
    if chars.len() > 0 {
        lemma_encode_len_at_least_chars(chars.drop_first());
        assert(encode_scalar(chars[0] as u32).len() >= 1);
    }
}

proof fn lemma_long_enough_by_chars(k: Seq<char>)
    ensures
        long_enough(k) <==> (k.len() >= 2 || (k.len() == 1 && k[0] as u32 >= 0x80)),
{
    lemma_encode_len_at_least_chars(k);
    if k.len() == 1 {
        assert(k.drop_first().len() == 0);
        assert(encode_utf8(k.drop_first()) =~= seq![]);
        assert(encode_utf8(k) =~= encode_scalar(k[0] as u32));
    }
}

/// Whether the UTF-8 form of `k` has at least two bytes.
fn is_long_enough(k: &str) -> (res: bool)
    ensures
        res == long_enough(k@),
{
    let kc = chars_of(k);
    proof {
        lemma_long_enough_by_chars(k@);
    }
    kc.len() >= 2 || (kc.len() == 1 && (kc[0] as u32) >= 0x80)
}

/// Whether `s` is among `v`.
fn contains_string(v: &Vec<String>, s: &String) -> (res: bool)
    ensures
        res == string_views(v@).contains(s@),
{
    for i in 0..v.len()
        invariant
            forall|j: int| 0 <= j < i ==> v@[j]@ != s@,
    {
        if v[i] == *s {
            assert(string_views(v@)[i as int] == s@);
            return true;
        }
    }
    assert forall|j: int| 0 <= j < string_views(v@).len() implies string_views(v@)[j] != s@ by {
        assert(string_views(v@)[j] == v@[j]@);
    }
    false
}

/// The keys of a cleaning pass: for each pattern in order and each file in
/// order, the text of group 1 when a pattern with capture groups matches the
/// file's name, kept when its UTF-8 form has at least two bytes and it was not
/// seen before.
pub fn collect_keys(files: &Vec<FileEntry>, patterns: &Vec<CompiledPattern>) -> (keys: Vec<String>)
    requires
        keys_resolvable(sources_of(patterns@), names_of(files@)),
    ensures
        string_views(keys@) == cleanup_keys(sources_of(patterns@), names_of(files@)),
        forall|k: int|
            0 <= k < keys@.len() ==> #[trigger] group_has_file(names_of(files@), keys@[k]@),
{
    let ghost pats = sources_of(patterns@);
    let ghost names = names_of(files@);
    let mut keys: Vec<String> = Vec::new();
    for i in 0..patterns.len()
        invariant
            pats == sources_of(patterns@),
            names == names_of(files@),
            keys_resolvable(pats, names),
            string_views(keys@) == distinct_keys(scanned_keys(pats.take(i as int), names)),
            forall|k: int| 0 <= k < keys@.len() ==> #[trigger] group_has_file(names, keys@[k]@),
    {
        let ghost base = scanned_keys(pats.take(i as int), names);
        assert(pattern_keys(pats[i as int], names.take(0)) =~= seq![]);
        assert(base + seq![] =~= base);
        for j in 0..files.len()
            invariant
                pats == sources_of(patterns@),
                names == names_of(files@),
                keys_resolvable(pats, names),
                0 <= i < pats.len(),
                base == scanned_keys(pats.take(i as int), names),
                string_views(keys@) == distinct_keys(
                    base + pattern_keys(pats[i as int], names.take(j as int)),
                ),
                forall|k: int| 0 <= k < keys@.len() ==> #[trigger] group_has_file(names, keys@[k]@),
        {
            let ghost before = base + pattern_keys(pats[i as int], names.take(j as int));
            assert(names.take(j + 1).drop_last() =~= names.take(j as int));
            assert(names.take(j + 1).last() == names[j as int]);
            assert(pats[i as int] == patterns@[i as int]@);
            assert(names[j as int] == files@[j as int].name@);
            let found = patterns[i].probe(files[j].name.as_str());
            match found {
                Probe::Key(k) => {
                    let ghost after = before.push(k@);
                    assert(key_for(pats[i as int], names[j as int]) == Some(Some(k@)));
                    assert(pattern_keys(pats[i as int], names.take(j + 1)) == pattern_keys(
                        pats[i as int],
                        names.take(j as int),
                    ).push(k@));
                    assert(base + pattern_keys(pats[i as int], names.take(j + 1)) =~= after);
                    proof {
                        lemma_distinct_step(before, k@);
                    }
                    if is_long_enough(k.as_str()) && !contains_string(&keys, &k) {
                        let ghost kv = k@;
                        let ghost prev_keys = keys@;
                        assert(group_members(names, false, kv).contains(j as int));
                        keys.push(k);
                        assert forall|q: int| 0 <= q < keys@.len() implies #[trigger] group_has_file(
                            names,
                            keys@[q]@,
                        ) by {
                            if q < prev_keys.len() {
                                assert(keys@[q] == prev_keys[q]);
                            } else {
                                assert(group_members(names, false, keys@[q]@).contains(j as int));
                            }
                        }
                        assert(string_views(keys@) =~= distinct_keys(before).push(kv));
                        assert(string_views(keys@) == distinct_keys(after));
                    } else {
                        assert(string_views(keys@) == distinct_keys(after));
                    }
                },
                Probe::MissingGroup => {
                    assert(key_for(pats[i as int], names[j as int]) != Some(None::<Seq<char>>));
                    assert(false);
                },
                _ => {
                    assert(key_for(pats[i as int], names[j as int]) is None);
                    assert(base + pattern_keys(pats[i as int], names.take(j + 1)) =~= before);
                },
            }
        }
        assert(names.take(files@.len() as int) =~= names);
        assert(pats.take(i + 1).drop_last() =~= pats.take(i as int));
        assert(pats.take(i + 1).last() == pats[i as int]);
    }
    assert(pats.take(patterns@.len() as int) =~= pats);
    keys
}


/// File `a` is ranked before file `b`: it is newer, or equally new and listed
/// later (the order a stable ascending sort by time, reversed, gives).
pub open spec fn ranks_before(files: Seq<FileEntry>, a: int, b: int) -> bool {
    files[a].modified > files[b].modified || (files[a].modified == files[b].modified && a > b)
}

/// Whether a name belongs to a group. A key group (taken by a pattern with
/// capture groups) holds every name that contains the key; a pattern group
/// (for a pattern without capture groups) holds every name the pattern
/// matches.
pub open spec fn in_group(by_pattern: bool, label: Seq<char>, name: Seq<char>) -> bool {
    if by_pattern {
        whole_match(label, name)
    } else {
        has_substring(name, label)
    }
}

/// The positions of the files in a group.
pub open spec fn group_members(names: Seq<Seq<char>>, by_pattern: bool, label: Seq<char>) -> Set<
    int,
> {
    Set::new(|i: int| 0 <= i < names.len() && in_group(by_pattern, label, names[i]))
}

/// Some file of the folder belongs to the group of `key`.
pub open spec fn group_has_file(names: Seq<Seq<char>>, key: Seq<char>) -> bool {
    exists|j: int| group_members(names, false, key).contains(j)
}

/// A key group holds every file whose name contains the key anywhere: as its
/// start, in its middle, at its end, or as the whole name.
pub proof fn lemma_key_group_holds_containing_names(
    names: Seq<Seq<char>>,
    key: Seq<char>,
    j: int,
    before: Seq<char>,
    after: Seq<char>,
)
    requires
        0 <= j < names.len(),
        names[j] == before + key + after,
    ensures
        group_members(names, false, key).contains(j),
{
    lemma_substring_of_parts(before, key, after);
}

/// The positions whose flag is set.
pub open spec fn flagged(flags: Seq<bool>) -> Set<int> {
    Set::new(|i: int| 0 <= i < flags.len() && flags[i])
}

/// The positions below `n` whose flag is set.
pub open spec fn flagged_below(flags: Seq<bool>, n: int) -> Set<int> {
    Set::new(|i: int| 0 <= i < n && i < flags.len() && flags[i])
}

/// `order` lists exactly the positions in `members`, newest first.
pub open spec fn is_ranking(files: Seq<FileEntry>, members: Set<int>, order: Seq<int>) -> bool {
    &&& order.to_set() == members
    &&& forall|a: int, b: int|
        0 <= a < b < order.len() ==> #[trigger] ranks_before(files, order[a], order[b])
}

/// Positions as mathematical integers.
pub open spec fn positions(v: Seq<usize>) -> Seq<int> {
    v.map_values(|i: usize| i as int)
}

/// What to do about one group: every file in it, newest first, and the files
/// past the first `keep` of them, which are to be deleted. A group is named by
/// its key (`by_pattern` false) or by the text of its pattern (`by_pattern`
/// true).
pub struct GroupPlan {
    pub by_pattern: bool,
    pub label: String,
    pub ranked: Vec<usize>,
    pub remove: Vec<usize>,
}

/// The entries of `s` after the first `n` (none when there are no more).
pub open spec fn beyond<A>(s: Seq<A>, n: nat) -> Seq<A> {
    if n < s.len() {
        s.skip(n as int)
    } else {
        seq![]
    }
}

/// `plan` is the plan for its group over `files` when `keep` files are kept.
pub open spec fn is_group_plan(files: Seq<FileEntry>, keep: nat, plan: GroupPlan) -> bool {
    &&& is_ranking(
        files,
        group_members(names_of(files), plan.by_pattern, plan.label@),
        positions(plan.ranked@),
    )
    &&& positions(plan.remove@) == beyond(positions(plan.ranked@), keep)
}

proof fn lemma_ranks_before_time(files: Seq<FileEntry>, a: int, b: int)
    requires
        ranks_before(files, a, b),
    ensures
        files[a].modified >= files[b].modified,
        a != b,
{
}

/// A ranking has no repeated position, so its length is the size of the
/// group.
pub proof fn lemma_ranking_len(files: Seq<FileEntry>, members: Set<int>, order: Seq<int>)
    requires
        is_ranking(files, members, order),
    ensures
        order.no_duplicates(),
        order.len() == members.len(),
        members.finite(),
{
    assert forall|a: int, b: int| 0 <= a < order.len() && 0 <= b < order.len() && a != b implies
        order[a] != order[b] by {
        if a < b {
            assert(ranks_before(files, order[a], order[b]));
        } else {
            assert(ranks_before(files, order[b], order[a]));
        }
    }
    order.unique_seq_to_set();
}

/// Lists the flagged positions newest first.
fn rank_flagged(files: &Vec<FileEntry>, flags: &Vec<bool>) -> (order: Vec<usize>)
    requires
        flags@.len() == files@.len(),
    ensures
        is_ranking(files@, flagged(flags@), positions(order@)),
        forall|x: int| 0 <= x < order@.len() ==> order@[x] < files@.len(),
{
    let mut order: Vec<usize> = Vec::new();
    assert(positions(order@).to_set() =~= flagged_below(flags@, 0));
    for j in 0..files.len()
        invariant
            flags@.len() == files@.len(),
            positions(order@).to_set() == flagged_below(flags@, j as int),
            forall|a: int, b: int|
                0 <= a < b < order@.len() ==> #[trigger] ranks_before(
                    files@,
                    order@[a] as int,
                    order@[b] as int,
                ),
            forall|x: int| 0 <= x < order@.len() ==> order@[x] < j,
    {
        if flags[j] {
            let mut p: usize = 0;
            while p < order.len() && files[order[p]].modified > files[j].modified
                invariant
                    p <= order@.len(),
                    j < files@.len(),
                    forall|x: int| 0 <= x < order@.len() ==> order@[x] < j,
                    forall|x: int|
                        0 <= x < p ==> files@[order@[x] as int].modified > files@[j as int].modified,
                decreases order@.len() - p,
            {
                p = p + 1;
            }
            let ghost old_order = order@;
            assert forall|y: int| p <= y < old_order.len() implies files@[old_order[y] as int].modified
                <= files@[j as int].modified by {
                if y > p {
                    lemma_ranks_before_time(files@, old_order[p as int] as int, old_order[y] as int);
                }
            }
            order.insert(p, j);
            assert(order@ == old_order.insert(p as int, j));
            assert forall|a: int, b: int| 0 <= a < b < order@.len() implies #[trigger] ranks_before(
                files@,
                order@[a] as int,
                order@[b] as int,
            ) by {
                if b < p {
                    assert(order@[a] == old_order[a] && order@[b] == old_order[b]);
                } else if b == p {
                    assert(order@[a] == old_order[a]);
                } else if a == p {
                    assert(order@[b] == old_order[b - 1]);
                } else if a < p {
                    assert(order@[a] == old_order[a] && order@[b] == old_order[b - 1]);
                } else {
                    assert(order@[a] == old_order[a - 1] && order@[b] == old_order[b - 1]);
                }
            }
            assert forall|x: int| 0 <= x < order@.len() implies order@[x] < j + 1 by {
                if x < p {
                    assert(order@[x] == old_order[x]);
                } else if x > p {
                    assert(order@[x] == old_order[x - 1]);
                }
            }
            assert(positions(order@).to_set() =~= flagged_below(flags@, j + 1)) by {
                assert forall|v: int| positions(order@).to_set().contains(v) implies flagged_below(flags@, j + 1).contains(v) by {
                    let x = choose|x: int| 0 <= x < positions(order@).len() && positions(order@)[x] == v;
                    if x < p {
                        assert(positions(old_order)[x] == v);
                        assert(positions(old_order).to_set().contains(v));
                    } else if x > p {
                        assert(positions(old_order)[x - 1] == v);
                        assert(positions(old_order).to_set().contains(v));
                    } else {
                        assert(v == j);
                    }
                }
                assert forall|v: int| flagged_below(flags@, j + 1).contains(v) implies positions(
                    order@,
                ).to_set().contains(v) by {
                    if v == j {
                        assert(positions(order@)[p as int] == v);
                    } else {
                        assert(positions(old_order).to_set().contains(v));
                        let x = choose|x: int|
                            0 <= x < positions(old_order).len() && positions(old_order)[x] == v;
                        if x < p {
                            assert(positions(order@)[x] == v);
                        } else {
                            assert(positions(order@)[x + 1] == v);
                        }
                    }
                }
            }
        } else {
            assert(positions(order@).to_set() =~= flagged_below(flags@, j + 1));
        }
    }
    assert(flagged_below(flags@, files@.len() as int) =~= flagged(flags@));
    order
}

/// The last `ranked.len() - keep` entries of `ranked` (nothing when there are
/// no more than `keep`).
fn past_first(ranked: &Vec<usize>, keep: usize) -> (res: Vec<usize>)
    ensures
        res@ == beyond(ranked@, keep as nat),
{
    let mut res: Vec<usize> = Vec::new();
    if keep >= ranked.len() {
        return res;
    }
    let mut i: usize = keep;
    while i < ranked.len()
        invariant
            keep <= i <= ranked@.len(),
            res@ == ranked@.subrange(keep as int, i as int),
        decreases ranked@.len() - i,
    {
        res.push(ranked[i]);
        assert(ranked@.subrange(keep as int, i + 1) =~= ranked@.subrange(keep as int, i as int).push(
            ranked@[i as int],
        ));
        i = i + 1;
    }
    assert(res@ =~= ranked@.skip(keep as int));
    res
}


/// The labels, in order, whose groups hold more than `keep` files.
pub open spec fn labels_over(
    names: Seq<Seq<char>>,
    by_pattern: bool,
    labels: Seq<Seq<char>>,
    keep: nat,
) -> Seq<Seq<char>>
    decreases labels.len(),
{
    if labels.len() == 0 {
        seq![]
    } else {
        let prev = labels_over(names, by_pattern, labels.drop_last(), keep);
        if group_members(names, by_pattern, labels.last()).len() > keep {
            prev.push(labels.last())
        } else {
            prev
        }
    }
}

/// Labels tagged with their kind.
pub open spec fn tagged(by_pattern: bool, labels: Seq<Seq<char>>) -> Seq<(bool, Seq<char>)> {
    labels.map_values(|l: Seq<char>| (by_pattern, l))
}

/// The groups a pass plans, in order: first the keys of the capture-group
/// patterns, then the patterns themselves, each when its group holds more
/// than `keep` files.
pub open spec fn planned_groups(names: Seq<Seq<char>>, patterns: Seq<Seq<char>>, keep: nat) -> Seq<
    (bool, Seq<char>),
> {
    tagged(false, labels_over(names, false, cleanup_keys(patterns, names), keep)) + tagged(
        true,
        labels_over(names, true, patterns, keep),
    )
}

/// The kind and label of each plan.
pub open spec fn plan_labels(plans: Seq<GroupPlan>) -> Seq<(bool, Seq<char>)> {
    plans.map_values(|p: GroupPlan| (p.by_pattern, p.label@))
}

/// `plans` is the plan of a cleaning pass over `files` with `patterns`,
/// keeping `keep` files per group: one plan per planned group, in order.
pub open spec fn is_cleanup_plan(
    files: Seq<FileEntry>,
    patterns: Seq<Seq<char>>,
    keep: nat,
    plans: Seq<GroupPlan>,
) -> bool {
    &&& plan_labels(plans) == planned_groups(names_of(files), patterns, keep)
    &&& forall|i: int| 0 <= i < plans.len() ==> #[trigger] is_group_plan(files, keep, plans[i])
}

/// The characters of every file name.
fn name_chars(files: &Vec<FileEntry>) -> (res: Vec<Vec<char>>)
    ensures
        res@.len() == files@.len(),
        forall|i: int| 0 <= i < res@.len() ==> #[trigger] res@[i]@ == files@[i].name@,
{
    let mut res: Vec<Vec<char>> = Vec::new();
    for i in 0..files.len()
        invariant
            res@.len() == i,
            forall|k: int| 0 <= k < i ==> #[trigger] res@[k]@ == files@[k].name@,
    {
        res.push(chars_of(files[i].name.as_str()));
    }
    res
}

/// For each file, whether its name contains `key`.
fn key_flags(names: &Vec<Vec<char>>, key: &Vec<char>) -> (flags: Vec<bool>)
    ensures
        flags@.len() == names@.len(),
        forall|j: int| 0 <= j < flags@.len() ==> #[trigger] flags@[j] == has_substring(names@[j]@, key@),
{
    let mut flags: Vec<bool> = Vec::new();
    for j in 0..names.len()
        invariant
            flags@.len() == j,
            forall|k: int| 0 <= k < j ==> #[trigger] flags@[k] == has_substring(names@[k]@, key@),
    {
        flags.push(contains_chars(&names[j], key));
    }
    flags
}

/// For each file, whether `pattern` (without capture groups) matches its name.
fn pattern_flags(files: &Vec<FileEntry>, pattern: &CompiledPattern) -> (flags: Vec<bool>)
    ensures
        flags@.len() == files@.len(),
        forall|j: int| 0 <= j < flags@.len() ==> #[trigger] flags@[j] == whole_match(pattern@, files@[j].name@),
{
    let mut flags: Vec<bool> = Vec::new();
    for j in 0..files.len()
        invariant
            flags@.len() == j,
            forall|k: int| 0 <= k < j ==> #[trigger] flags@[k] == whole_match(pattern@, files@[k].name@),
    {
        let m = match pattern.probe(files[j].name.as_str()) {
            Probe::Whole => true,
            _ => false,
        };
        flags.push(m);
    }
    flags
}

/// Plans one cleaning pass. The keys that the patterns with capture groups
/// take from the file names each form a group of the files containing the
/// key; each pattern without capture groups forms a group of the files it
/// matches. For every group with more than `keep` files the files are listed
/// newest first and all but the `keep` newest are marked for deletion.
pub fn plan_cleanup(files: &Vec<FileEntry>, patterns: &Vec<CompiledPattern>, keep: u8) -> (plans:
    Vec<GroupPlan>)
    requires
        keys_resolvable(sources_of(patterns@), names_of(files@)),
    ensures
        is_cleanup_plan(files@, sources_of(patterns@), keep as nat, plans@),
{
    let keys = collect_keys(files, patterns);
    let names = name_chars(files);
    let ghost fnames = names_of(files@);
    let ghost pats = sources_of(patterns@);
    let ghost all_keys = string_views(keys@);
    let mut plans: Vec<GroupPlan> = Vec::new();
    assert(plan_labels(plans@) =~= tagged(false, labels_over(fnames, false, all_keys.take(0), keep as nat)));
    for i in 0..keys.len()
        invariant
            fnames == names_of(files@),
            all_keys == string_views(keys@),
            names@.len() == files@.len(),
            forall|k: int| 0 <= k < names@.len() ==> #[trigger] names@[k]@ == files@[k].name@,
            plan_labels(plans@) == tagged(
                false,
                labels_over(fnames, false, all_keys.take(i as int), keep as nat),
            ),
            forall|k: int| 0 <= k < plans@.len() ==> #[trigger] is_group_plan(
                files@,
                keep as nat,
                plans@[k],
            ),
    {
        assert(all_keys.take(i + 1).drop_last() =~= all_keys.take(i as int));
        assert(all_keys.take(i + 1).last() == keys@[i as int]@);
        let kc = chars_of(keys[i].as_str());
        let flags = key_flags(&names, &kc);
        assert(flagged(flags@) =~= group_members(fnames, false, keys@[i as int]@));
        let ranked = rank_flagged(files, &flags);
        proof {
            lemma_ranking_len(files@, flagged(flags@), positions(ranked@));
        }
        if ranked.len() > keep as usize {
            let remove = past_first(&ranked, keep as usize);
            assert(positions(remove@) =~= beyond(positions(ranked@), keep as nat));
            let plan = GroupPlan { by_pattern: false, label: keys[i].clone(), ranked, remove };
            let ghost before = plan_labels(plans@);
            plans.push(plan);
            assert(plan_labels(plans@) =~= before.push((false, keys@[i as int]@)));
        }
        assert(plan_labels(plans@) =~= tagged(
            false,
            labels_over(fnames, false, all_keys.take(i + 1), keep as nat),
        ));
    }
    assert(all_keys.take(keys@.len() as int) =~= all_keys);
    let ghost key_part = plan_labels(plans@);
    assert(plan_labels(plans@) =~= key_part + tagged(true, labels_over(fnames, true, pats.take(0), keep as nat)));
    for i in 0..patterns.len()
        invariant
            fnames == names_of(files@),
            pats == sources_of(patterns@),
            key_part == tagged(false, labels_over(fnames, false, all_keys, keep as nat)),
            plan_labels(plans@) == key_part + tagged(
                true,
                labels_over(fnames, true, pats.take(i as int), keep as nat),
            ),
            forall|k: int| 0 <= k < plans@.len() ==> #[trigger] is_group_plan(
                files@,
                keep as nat,
                plans@[k],
            ),
    {
        assert(pats.take(i + 1).drop_last() =~= pats.take(i as int));
        assert(pats.take(i + 1).last() == patterns@[i as int]@);
        let flags = pattern_flags(files, &patterns[i]);
        assert(flagged(flags@) =~= group_members(fnames, true, patterns@[i as int]@));
        let ranked = rank_flagged(files, &flags);
        proof {
            lemma_ranking_len(files@, flagged(flags@), positions(ranked@));
        }
        let ghost tail = tagged(true, labels_over(fnames, true, pats.take(i as int), keep as nat));
        if ranked.len() > keep as usize {
            let remove = past_first(&ranked, keep as usize);
            assert(positions(remove@) =~= beyond(positions(ranked@), keep as nat));
            let label = String::from_str(patterns[i].source());
            let plan = GroupPlan { by_pattern: true, label, ranked, remove };
            let ghost before = plan_labels(plans@);
            plans.push(plan);
            assert(plan_labels(plans@) =~= before.push((true, patterns@[i as int]@)));
            assert(tagged(true, labels_over(fnames, true, pats.take(i + 1), keep as nat)) =~= tail.push(
                (true, patterns@[i as int]@),
            ));
            assert(key_part + tail.push((true, patterns@[i as int]@)) =~= (key_part + tail).push(
                (true, patterns@[i as int]@),
            ));
        } else {
            assert(tagged(true, labels_over(fnames, true, pats.take(i + 1), keep as nat)) =~= tail);
        }
    }
    assert(pats.take(patterns@.len() as int) =~= pats);
    plans
}

/// Whether every match of every pattern on every file name yields a key.
pub fn check_keys_resolvable(files: &Vec<FileEntry>, patterns: &Vec<CompiledPattern>) -> (ok: bool)
    ensures
        ok == keys_resolvable(sources_of(patterns@), names_of(files@)),
{
    let ghost pats = sources_of(patterns@);
    let ghost names = names_of(files@);
    for i in 0..patterns.len()
        invariant
            pats == sources_of(patterns@),
            names == names_of(files@),
            forall|a: int, b: int|
                0 <= a < i && 0 <= b < names.len() ==> #[trigger] key_for(pats[a], names[b])
                    != Some(None::<Seq<char>>),
    {
        for j in 0..files.len()
            invariant
                pats == sources_of(patterns@),
                names == names_of(files@),
                0 <= i < pats.len(),
                forall|a: int, b: int|
                    0 <= a < i && 0 <= b < names.len() ==> #[trigger] key_for(pats[a], names[b])
                        != Some(None::<Seq<char>>),
                forall|b: int| 0 <= b < j ==> #[trigger] key_for(pats[i as int], names[b]) != Some(
                    None::<Seq<char>>,
                ),
        {
            assert(pats[i as int] == patterns@[i as int]@);
            assert(names[j as int] == files@[j as int].name@);
            match patterns[i].probe(files[j].name.as_str()) {
                Probe::MissingGroup => {
                    assert(key_for(pats[i as int], names[j as int]) == Some(None::<Seq<char>>));
                    return false;
                },
                _ => {},
            }
        }
    }
    true
}

/// Plans one cleaning pass when every match of a pattern with capture groups
/// yields a key; `None` when some such pattern matches a name while its group
/// 1 stays out of the match (a pass cannot handle such a match).
pub fn try_plan_cleanup(files: &Vec<FileEntry>, patterns: &Vec<CompiledPattern>, keep: u8) -> (res:
    Option<Vec<GroupPlan>>)
    ensures
        res is None <==> !keys_resolvable(sources_of(patterns@), names_of(files@)),
        res matches Some(plans) ==> is_cleanup_plan(files@, sources_of(patterns@), keep as nat, plans@),
{
    if check_keys_resolvable(files, patterns) {
        Some(plan_cleanup(files, patterns, keep))
    } else {
        None
    }
}


/// Every file position deleted by some plan of `plans`.
pub open spec fn removed_by(plans: Seq<GroupPlan>) -> Set<int> {
    Set::new(|x: int| exists|i: int| 0 <= i < plans.len() && positions(plans[i].remove@).contains(x))
}

/// The members of a group that rank before `x`.
pub open spec fn newer_in(files: Seq<FileEntry>, members: Set<int>, x: int) -> Set<int> {
    Set::new(|y: int| members.contains(y) && ranks_before(files, y, x))
}

/// The surplus of a group: its files that have at least `keep` newer files in
/// the group (everything but the `keep` newest).
pub open spec fn surplus(files: Seq<FileEntry>, members: Set<int>, keep: nat) -> Set<int> {
    Set::new(|x: int| members.contains(x) && newer_in(files, members, x).len() >= keep)
}

/// A group's set of files is finite.
pub proof fn lemma_members_finite(names: Seq<Seq<char>>, by_pattern: bool, label: Seq<char>)
    ensures
        group_members(names, by_pattern, label).finite(),
        group_members(names, by_pattern, label).len() <= names.len(),
{
    lemma_int_range(0, names.len() as int);
    assert(group_members(names, by_pattern, label).subset_of(set_int_range(0, names.len() as int)));
    lemma_len_subset(group_members(names, by_pattern, label), set_int_range(0, names.len() as int));
}

proof fn lemma_first_difference(o1: Seq<int>, o2: Seq<int>, d: int) -> (m: int)
    requires
        0 <= d < o1.len(),
        d < o2.len(),
        o1[d] != o2[d],
    ensures
        0 <= m <= d,
        o1[m] != o2[m],
        forall|e: int| 0 <= e < m ==> o1[e] == o2[e],
    decreases d,
{
    if exists|e: int| 0 <= e < d && o1[e] != o2[e] {
        let e = choose|e: int| 0 <= e < d && o1[e] != o2[e];
        lemma_first_difference(o1, o2, e)
    } else {
        d
    }
}

/// There is only one ranking of a group: the order is fully decided by
/// modification time and, between equal times, by position.
pub proof fn lemma_ranking_unique(files: Seq<FileEntry>, members: Set<int>, o1: Seq<int>, o2: Seq<int>)
    requires
        is_ranking(files, members, o1),
        is_ranking(files, members, o2),
    ensures
        o1 == o2,
{
    lemma_ranking_len(files, members, o1);
    lemma_ranking_len(files, members, o2);
    if exists|d: int| 0 <= d < o1.len() && o1[d] != o2[d] {
        let d0 = choose|d: int| 0 <= d < o1.len() && o1[d] != o2[d];
        let m = lemma_first_difference(o1, o2, d0);
        let x = o1[m];
        let y = o2[m];
        assert(o1.to_set().contains(x));
        assert(o2.to_set().contains(x));
        let e = choose|e: int| 0 <= e < o2.len() && o2[e] == x;
        assert(o2.to_set().contains(y));
        assert(o1.to_set().contains(y));
        let f = choose|f: int| 0 <= f < o1.len() && o1[f] == y;
        if e < m {
            assert(o1[e] == x);
        }
        if f < m {
            assert(o2[f] == y);
        }
        assert(e > m && f > m);
        assert(ranks_before(files, o2[m], o2[e]));
        assert(ranks_before(files, o1[m], o1[f]));
        assert(false);
    }
    assert(o1 =~= o2);
}


/// In a ranking, the files newer than the one at place `a` are the `a` before
/// it.
proof fn lemma_ranking_newer(files: Seq<FileEntry>, members: Set<int>, o: Seq<int>, a: int)
    requires
        is_ranking(files, members, o),
        0 <= a < o.len(),
    ensures
        newer_in(files, members, o[a]) == o.take(a).to_set(),
        newer_in(files, members, o[a]).len() == a,
{
    lemma_ranking_len(files, members, o);
    let x = o[a];
    assert forall|y: int| newer_in(files, members, x).contains(y) implies o.take(a).to_set().contains(
        y,
    ) by {
        assert(o.to_set().contains(y));
        let b = choose|b: int| 0 <= b < o.len() && o[b] == y;
        if b > a {
            assert(ranks_before(files, o[a], o[b]));
        }
        assert(o.take(a)[b] == y);
    }
    assert forall|y: int| o.take(a).to_set().contains(y) implies newer_in(files, members, x).contains(
        y,
    ) by {
        let b = choose|b: int| 0 <= b < o.take(a).len() && o.take(a)[b] == y;
        assert(o[b] == y);
        assert(ranks_before(files, o[b], o[a]));
        assert(o.to_set().contains(y));
    }
    assert(newer_in(files, members, x) =~= o.take(a).to_set());
    assert(o.take(a).no_duplicates());
    o.take(a).unique_seq_to_set();
}

/// What a ranking drops past its first `keep` entries is the group's surplus.
pub proof fn lemma_ranking_surplus(files: Seq<FileEntry>, members: Set<int>, o: Seq<int>, keep: nat)
    requires
        is_ranking(files, members, o),
    ensures
        beyond(o, keep).to_set() == surplus(files, members, keep),
{
    assert forall|x: int| beyond(o, keep).to_set().contains(x) implies surplus(
        files,
        members,
        keep,
    ).contains(x) by {
        let b = choose|b: int| 0 <= b < beyond(o, keep).len() && beyond(o, keep)[b] == x;
        assert(o[b + keep] == x);
        lemma_ranking_newer(files, members, o, b + keep);
        assert(o.to_set().contains(x));
    }
    assert forall|x: int| surplus(files, members, keep).contains(x) implies beyond(
        o,
        keep,
    ).to_set().contains(x) by {
        assert(o.to_set().contains(x));
        let a = choose|a: int| 0 <= a < o.len() && o[a] == x;
        lemma_ranking_newer(files, members, o, a);
        assert(beyond(o, keep)[a - keep] == x);
    }
    assert(beyond(o, keep).to_set() =~= surplus(files, members, keep));
}

/// For a ranking, what remains of the matching files after dropping all but
/// the first `keep` is exactly those first `keep`.
proof fn lemma_kept_prefix(files: Seq<FileEntry>, members: Set<int>, o: Seq<int>, keep: nat)
    requires
        is_ranking(files, members, o),
    ensures
        members.difference(beyond(o, keep).to_set()) == o.take(
            if keep < o.len() { keep as int } else { o.len() as int },
        ).to_set(),
        o.take(if keep < o.len() { keep as int } else { o.len() as int }).to_set().len() == (if keep
            < o.len() { keep as int } else { o.len() as int }),
{
    lemma_ranking_len(files, members, o);
    let n: int = if keep < o.len() { keep as int } else { o.len() as int };
    let m = members;
    let r = beyond(o, keep).to_set();
    let t = o.take(n);
    assert forall|x: int| m.difference(r).contains(x) implies t.to_set().contains(x) by {
        assert(o.to_set().contains(x));
        let a = choose|a: int| 0 <= a < o.len() && o[a] == x;
        if a >= n {
            assert(beyond(o, keep)[a - keep] == x);
            assert(r.contains(x));
        }
        assert(t[a] == x);
    }
    assert forall|x: int| t.to_set().contains(x) implies m.difference(r).contains(x) by {
        let a = choose|a: int| 0 <= a < t.len() && t[a] == x;
        assert(o[a] == x);
        assert(o.to_set().contains(x));
        if r.contains(x) {
            let b = choose|b: int| 0 <= b < beyond(o, keep).len() && beyond(o, keep)[b] == x;
            assert(o[b + keep] == x);
        }
    }
    assert(m.difference(r) =~= t.to_set());
    assert(t.no_duplicates());
    t.unique_seq_to_set();
}

/// A group's plan deletes exactly the group's surplus (the files with at least
/// `keep` newer files in the group): as many files as the group has beyond
/// `keep`, only files of the group, each older than every file kept, and the
/// files kept number `min(group size, keep)`.
pub proof fn lemma_group_plan_keeps_newest(files: Seq<FileEntry>, keep: nat, plan: GroupPlan)
    requires
        is_group_plan(files, keep, plan),
    ensures
        ({
            let m = group_members(names_of(files), plan.by_pattern, plan.label@);
            let gone = positions(plan.remove@).to_set();
            &&& plan.remove@.len() == (if m.len() > keep { m.len() - keep } else { 0 })
            &&& gone.subset_of(m)
            &&& forall|x: int, y: int|
                m.difference(gone).contains(x) && gone.contains(y) ==> #[trigger] ranks_before(
                    files,
                    x,
                    y,
                )
            &&& m.difference(gone).len() == (if m.len() > keep { keep } else { m.len() })
            &&& gone == surplus(files, m, keep)
        }),
{
    let o = positions(plan.ranked@);
    let m = group_members(names_of(files), plan.by_pattern, plan.label@);
    let gone = positions(plan.remove@).to_set();
    lemma_ranking_len(files, m, o);
    lemma_kept_prefix(files, m, o, keep);
    lemma_ranking_surplus(files, m, o, keep);
    assert(positions(plan.remove@) == beyond(o, keep));
    assert forall|y: int| gone.contains(y) implies m.contains(y) by {
        let b = choose|b: int| 0 <= b < beyond(o, keep).len() && beyond(o, keep)[b] == y;
        assert(o[b + keep] == y);
        assert(o.to_set().contains(y));
    }
    let n: int = if keep < o.len() { keep as int } else { o.len() as int };
    assert forall|x: int, y: int| m.difference(gone).contains(x) && gone.contains(y) implies
        #[trigger] ranks_before(files, x, y) by {
        assert(o.take(n).to_set().contains(x));
        let a = choose|a: int| 0 <= a < o.take(n).len() && o.take(n)[a] == x;
        let b = choose|b: int| 0 <= b < beyond(o, keep).len() && beyond(o, keep)[b] == y;
        assert(o[a] == x);
        assert(o[b + keep] == y);
    }
}

/// `labels_over` keeps every label whose group holds more than `keep` files.
proof fn lemma_labels_over_contains(
    names: Seq<Seq<char>>,
    by_pattern: bool,
    keys: Seq<Seq<char>>,
    keep: nat,
    k: Seq<char>,
)
    requires
        keys.contains(k),
        group_members(names, by_pattern, k).len() > keep,
    ensures
        labels_over(names, by_pattern, keys, keep).contains(k),
    decreases keys.len(),
{
    if keys.last() == k {
        assert(labels_over(names, by_pattern, keys, keep).last() == k);
    } else {
        let i = choose|i: int| 0 <= i < keys.len() && keys[i] == k;
        assert(keys.drop_last()[i] == k);
        lemma_labels_over_contains(names, by_pattern, keys.drop_last(), keep, k);
        let prev = labels_over(names, by_pattern, keys.drop_last(), keep);
        let j = choose|j: int| 0 <= j < prev.len() && prev[j] == k;
        if group_members(names, by_pattern, keys.last()).len() > keep {
            assert(prev.push(keys.last())[j] == k);
        }
    }
}

/// `labels_over` holds only labels of the list, each with more than `keep`
/// files.
proof fn lemma_labels_over_subset(
    names: Seq<Seq<char>>,
    by_pattern: bool,
    keys: Seq<Seq<char>>,
    keep: nat,
    k: Seq<char>,
)
    requires
        labels_over(names, by_pattern, keys, keep).contains(k),
    ensures
        keys.contains(k),
        group_members(names, by_pattern, k).len() > keep,
    decreases keys.len(),
{
    if keys.len() > 0 {
        let prev = labels_over(names, by_pattern, keys.drop_last(), keep);
        if prev.contains(k) {
            lemma_labels_over_subset(names, by_pattern, keys.drop_last(), keep, k);
            let i = choose|i: int| 0 <= i < keys.drop_last().len() && keys.drop_last()[i] == k;
            assert(keys[i] == k);
        } else {
            assert(keys[keys.len() - 1] == k);
        }
    }
}

/// `label` names a group of a pass with `patterns`: a key of its
/// capture-group patterns, or one of its patterns.
pub open spec fn is_pass_group(
    patterns: Seq<Seq<char>>,
    names: Seq<Seq<char>>,
    by_pattern: bool,
    label: Seq<char>,
) -> bool {
    if by_pattern {
        patterns.contains(label)
    } else {
        cleanup_keys(patterns, names).contains(label)
    }
}

/// Every group of the pass with more than `keep` files has a plan.
proof fn lemma_plan_of_group(
    files: Seq<FileEntry>,
    patterns: Seq<Seq<char>>,
    keep: nat,
    plans: Seq<GroupPlan>,
    by_pattern: bool,
    label: Seq<char>,
) -> (i: int)
    requires
        is_cleanup_plan(files, patterns, keep, plans),
        is_pass_group(patterns, names_of(files), by_pattern, label),
        group_members(names_of(files), by_pattern, label).len() > keep,
    ensures
        0 <= i < plans.len(),
        plans[i].by_pattern == by_pattern,
        plans[i].label@ == label,
{
    let names = names_of(files);
    let kp = labels_over(names, false, cleanup_keys(patterns, names), keep);
    let pp = labels_over(names, true, patterns, keep);
    let labels = plan_labels(plans);
    assert(labels.len() == plans.len());
    assert(labels == tagged(false, kp) + tagged(true, pp));
    assert(tagged(false, kp).len() == kp.len());
    assert(tagged(true, pp).len() == pp.len());
    if by_pattern {
        lemma_labels_over_contains(names, true, patterns, keep, label);
        let j = choose|j: int| 0 <= j < pp.len() && pp[j] == label;
        let idx = kp.len() + j;
        assert(labels[idx] == tagged(true, pp)[j]);
        assert(labels[idx] == (plans[idx].by_pattern, plans[idx].label@));
        idx
    } else {
        lemma_labels_over_contains(names, false, cleanup_keys(patterns, names), keep, label);
        let j = choose|j: int| 0 <= j < kp.len() && kp[j] == label;
        assert(labels[j] == tagged(false, kp)[j]);
        assert(labels[j] == (plans[j].by_pattern, plans[j].label@));
        j
    }
}

/// Every plan is for a group of the pass with more than `keep` files.
proof fn lemma_group_of_plan(
    files: Seq<FileEntry>,
    patterns: Seq<Seq<char>>,
    keep: nat,
    plans: Seq<GroupPlan>,
    i: int,
)
    requires
        is_cleanup_plan(files, patterns, keep, plans),
        0 <= i < plans.len(),
    ensures
        is_pass_group(patterns, names_of(files), plans[i].by_pattern, plans[i].label@),
        group_members(names_of(files), plans[i].by_pattern, plans[i].label@).len() > keep,
{
    let names = names_of(files);
    let kp = labels_over(names, false, cleanup_keys(patterns, names), keep);
    let pp = labels_over(names, true, patterns, keep);
    let labels = plan_labels(plans);
    assert(labels.len() == plans.len());
    assert(labels == tagged(false, kp) + tagged(true, pp));
    assert(tagged(false, kp).len() == kp.len());
    assert(tagged(true, pp).len() == pp.len());
    assert(labels[i] == (plans[i].by_pattern, plans[i].label@));
    if i < kp.len() {
        assert(labels[i] == tagged(false, kp)[i]);
        assert(kp.contains(plans[i].label@));
        lemma_labels_over_subset(names, false, cleanup_keys(patterns, names), keep, plans[i].label@);
    } else {
        assert(labels[i] == tagged(true, pp)[i - kp.len()]);
        assert(pp.contains(plans[i].label@));
        lemma_labels_over_subset(names, true, patterns, keep, plans[i].label@);
    }
}

/// After a cleaning pass every group of the pass (every key of its
/// capture-group patterns, and every pattern) is left with at most `keep`
/// files, whatever the other groups' plans delete as well.
pub proof fn lemma_cleanup_leaves_at_most_keep(
    files: Seq<FileEntry>,
    patterns: Seq<Seq<char>>,
    keep: nat,
    plans: Seq<GroupPlan>,
    by_pattern: bool,
    label: Seq<char>,
)
    requires
        is_cleanup_plan(files, patterns, keep, plans),
        is_pass_group(patterns, names_of(files), by_pattern, label),
    ensures
        group_members(names_of(files), by_pattern, label).difference(removed_by(plans)).len() <= keep,
{
    let names = names_of(files);
    let m = group_members(names, by_pattern, label);
    lemma_members_finite(names, by_pattern, label);
    let left = m.difference(removed_by(plans));
    lemma_len_subset(left, m);
    if m.len() > keep {
        let i = lemma_plan_of_group(files, patterns, keep, plans, by_pattern, label);
        let plan = plans[i];
        assert(is_group_plan(files, keep, plans[i]));
        lemma_group_plan_keeps_newest(files, keep, plan);
        let gone = positions(plan.remove@).to_set();
        assert forall|x: int| left.contains(x) implies m.difference(gone).contains(x) by {
            if gone.contains(x) {
                assert(removed_by(plans).contains(x));
            }
        }
        lemma_len_subset(left, m.difference(gone));
    }
}

/// The files a pass deletes: the surplus of every group of the pass.
pub open spec fn pass_surplus(files: Seq<FileEntry>, patterns: Seq<Seq<char>>, keep: nat) -> Set<int> {
    Set::new(
        |x: int|
            exists|by_pattern: bool, label: Seq<char>|
                is_pass_group(patterns, names_of(files), by_pattern, label) && #[trigger] surplus(
                    files,
                    group_members(names_of(files), by_pattern, label),
                    keep,
                ).contains(x),
    )
}

/// A cleaning pass deletes exactly the union, over its groups, of each
/// group's surplus (everything but the `keep` newest files of the group), and
/// leaves every other file in place.
pub proof fn lemma_pass_deletes_exactly_surplus(
    files: Seq<FileEntry>,
    patterns: Seq<Seq<char>>,
    keep: nat,
    plans: Seq<GroupPlan>,
)
    requires
        is_cleanup_plan(files, patterns, keep, plans),
    ensures
        removed_by(plans) == pass_surplus(files, patterns, keep),
{
    let names = names_of(files);
    assert forall|x: int| removed_by(plans).contains(x) implies pass_surplus(
        files,
        patterns,
        keep,
    ).contains(x) by {
        let i = choose|i: int| 0 <= i < plans.len() && positions(plans[i].remove@).contains(x);
        let plan = plans[i];
        lemma_group_of_plan(files, patterns, keep, plans, i);
        assert(is_group_plan(files, keep, plans[i]));
        lemma_group_plan_keeps_newest(files, keep, plan);
        assert(positions(plan.remove@).to_set().contains(x));
        assert(surplus(files, group_members(names, plan.by_pattern, plan.label@), keep).contains(x));
    }
    assert forall|x: int| pass_surplus(files, patterns, keep).contains(x) implies removed_by(
        plans,
    ).contains(x) by {
        let (bp, label) = choose|bp: bool, label: Seq<char>|
            is_pass_group(patterns, names, bp, label) && #[trigger] surplus(
                files,
                group_members(names, bp, label),
                keep,
            ).contains(x);
        let m = group_members(names, bp, label);
        lemma_members_finite(names, bp, label);
        let nx = newer_in(files, m, x);
        assert(nx.subset_of(m.remove(x)));
        lemma_len_subset(nx, m.remove(x));
        let i = lemma_plan_of_group(files, patterns, keep, plans, bp, label);
        let plan = plans[i];
        assert(is_group_plan(files, keep, plans[i]));
        lemma_group_plan_keeps_newest(files, keep, plan);
        assert(positions(plan.remove@).to_set().contains(x));
    }
    assert(removed_by(plans) =~= pass_surplus(files, patterns, keep));
}

/// The files whose positions are not in `gone`, in order.
pub open spec fn files_kept(files: Seq<FileEntry>, gone: Set<int>) -> Seq<FileEntry>
    decreases files.len(),
{
    if files.len() == 0 {
        seq![]
    } else {
        let prev = files_kept(files.drop_last(), gone);
        if gone.contains(files.len() - 1) {
            prev
        } else {
            prev.push(files.last())
        }
    }
}

proof fn lemma_names_drop_last(files: Seq<FileEntry>)
    requires
        files.len() > 0,
    ensures
        names_of(files.drop_last()) == names_of(files).drop_last(),
        names_of(files).last() == files.last().name@,
{
    assert(names_of(files.drop_last()) =~= names_of(files).drop_last());
}

/// Every name left after dropping files was a name before.
proof fn lemma_kept_names(files: Seq<FileEntry>, gone: Set<int>, j: int)
    requires
        0 <= j < files_kept(files, gone).len(),
    ensures
        exists|i: int|
            0 <= i < files.len() && #[trigger] names_of(files)[i] == names_of(
                files_kept(files, gone),
            )[j],
    decreases files.len(),
{
    let kept = files_kept(files, gone);
    let prev = files_kept(files.drop_last(), gone);
    lemma_names_drop_last(files);
    if j < prev.len() {
        lemma_kept_names(files.drop_last(), gone, j);
        let i = choose|i: int|
            0 <= i < files.drop_last().len() && #[trigger] names_of(files.drop_last())[i]
                == names_of(prev)[j];
        assert(names_of(kept)[j] == names_of(prev)[j]);
        assert(names_of(files)[i] == names_of(kept)[j]);
    } else {
        assert(names_of(files)[files.len() - 1] == names_of(kept)[j]);
    }
}

/// Among the files left, a group holds as many files as it held outside
/// `gone`.
proof fn lemma_kept_members_len(files: Seq<FileEntry>, gone: Set<int>, by_pattern: bool, key: Seq<char>)
    ensures
        group_members(names_of(files_kept(files, gone)), by_pattern, key).len() == group_members(
            names_of(files),
            by_pattern,
            key,
        ).difference(gone).len(),
    decreases files.len(),
{
    let names = names_of(files);
    let kept = files_kept(files, gone);
    if files.len() == 0 {
        assert(group_members(names_of(kept), by_pattern, key) =~= Set::empty());
        assert(group_members(names, by_pattern, key).difference(gone) =~= Set::empty());
    } else {
        let n = files.len() - 1;
        let prev = files_kept(files.drop_last(), gone);
        lemma_kept_members_len(files.drop_last(), gone, by_pattern, key);
        lemma_names_drop_last(files);
        let m_prev = group_members(names_of(files.drop_last()), by_pattern, key);
        let m = group_members(names, by_pattern, key);
        let k_prev = group_members(names_of(prev), by_pattern, key);
        let k_now = group_members(names_of(kept), by_pattern, key);
        lemma_members_finite(names_of(files.drop_last()), by_pattern, key);
        lemma_members_finite(names_of(prev), by_pattern, key);
        let contains = in_group(by_pattern, key, names[n]);
        assert forall|i: int| 0 <= i < n implies names[i] == names_of(files.drop_last())[i] by {}
        if gone.contains(n) || !contains {
            assert(m.difference(gone) =~= m_prev.difference(gone));
            if !gone.contains(n) {
                assert(names_of(kept) =~= names_of(prev).push(names[n]));
                assert forall|i: int| 0 <= i < prev.len() implies names_of(kept)[i] == names_of(
                    prev,
                )[i] by {}
            }
            assert(k_now =~= k_prev);
        } else {
            assert(names_of(kept) =~= names_of(prev).push(names[n]));
            assert forall|i: int| 0 <= i < prev.len() implies names_of(kept)[i] == names_of(prev)[i] by {}
            assert(k_now =~= k_prev.insert(prev.len() as int));
            assert(!k_prev.contains(prev.len() as int));
            assert(m.difference(gone) =~= m_prev.difference(gone).insert(n));
            assert(!m_prev.difference(gone).contains(n));
            vstd::set_lib::lemma_len_difference(m_prev, gone);
            assert(m_prev.difference(gone).subset_of(m_prev));
            vstd::set_lib::lemma_len_subset(m_prev.difference(gone), m_prev);
        }
    }
}

/// A long-enough candidate is among the distinct keys, and only those are.
proof fn lemma_distinct_contains(cands: Seq<Seq<char>>, k: Seq<char>)
    ensures
        distinct_keys(cands).contains(k) <==> (cands.contains(k) && long_enough(k)),
    decreases cands.len(),
{
    if cands.len() > 0 {
        let prev = cands.drop_last();
        lemma_distinct_contains(prev, k);
        let d = distinct_keys(prev);
        let last = cands.last();
        assert(cands =~= prev.push(last));
        assert(cands.contains(k) <==> (prev.contains(k) || last == k)) by {
            if cands.contains(k) {
                let i = choose|i: int| 0 <= i < cands.len() && cands[i] == k;
                if i < prev.len() {
                    assert(prev[i] == k);
                }
            }
            if prev.contains(k) {
                let i = choose|i: int| 0 <= i < prev.len() && prev[i] == k;
                assert(cands[i] == k);
            }
            if last == k {
                assert(cands[cands.len() - 1] == k);
            }
        }
        if long_enough(last) && !d.contains(last) {
            assert(distinct_keys(cands) =~= d.push(last));
            assert(distinct_keys(cands).contains(k) <==> (d.contains(k) || last == k)) by {
                let dc = d.push(last);
                if dc.contains(k) {
                    let i = choose|i: int| 0 <= i < dc.len() && dc[i] == k;
                    if i < d.len() {
                        assert(d[i] == k);
                    }
                }
                if d.contains(k) {
                    let i = choose|i: int| 0 <= i < d.len() && d[i] == k;
                    assert(dc[i] == k);
                }
                if last == k {
                    assert(dc[d.len() as int] == k);
                }
            }
        }
    }
}

/// The keys a pattern yields are exactly its usable keys on the names.
proof fn lemma_pattern_keys_contains(p: Seq<char>, names: Seq<Seq<char>>, k: Seq<char>)
    ensures
        pattern_keys(p, names).contains(k) <==> exists|j: int|
            0 <= j < names.len() && #[trigger] key_for(p, names[j]) == Some(Some(k)),
    decreases names.len(),
{
    if names.len() > 0 {
        let prev_names = names.drop_last();
        lemma_pattern_keys_contains(p, prev_names, k);
        let prev = pattern_keys(p, prev_names);
        let n = names.len() - 1;
        if pattern_keys(p, names).contains(k) {
            if prev.contains(k) {
                let j = choose|j: int|
                    0 <= j < prev_names.len() && #[trigger] key_for(p, prev_names[j]) == Some(
                        Some(k),
                    );
                assert(names[j] == prev_names[j]);
            } else {
                match key_for(p, names.last()) {
                    Some(Some(kk)) => {
                        let pk = prev.push(kk);
                        let i = choose|i: int| 0 <= i < pk.len() && pk[i] == k;
                        if i < prev.len() {
                            assert(prev[i] == k);
                        }
                        assert(key_for(p, names[n]) == Some(Some(k)));
                    },
                    _ => {},
                }
            }
        }
        if exists|j: int| 0 <= j < names.len() && #[trigger] key_for(p, names[j]) == Some(Some(k)) {
            let j = choose|j: int|
                0 <= j < names.len() && #[trigger] key_for(p, names[j]) == Some(Some(k));
            if j < n {
                assert(prev_names[j] == names[j]);
                assert(key_for(p, prev_names[j]) == Some(Some(k)));
                let i = choose|i: int| 0 <= i < prev.len() && prev[i] == k;
                match key_for(p, names.last()) {
                    Some(Some(kk)) => {
                        assert(prev.push(kk)[i] == k);
                    },
                    _ => {},
                }
            } else {
                assert(pattern_keys(p, names) == prev.push(k));
                assert(prev.push(k)[prev.len() as int] == k);
            }
        }
    }
}

/// The candidates of a pass are exactly the usable keys of some pattern on
/// some name.
proof fn lemma_scanned_contains(pats: Seq<Seq<char>>, names: Seq<Seq<char>>, k: Seq<char>)
    ensures
        scanned_keys(pats, names).contains(k) <==> exists|i: int, j: int|
            0 <= i < pats.len() && 0 <= j < names.len() && #[trigger] key_for(pats[i], names[j])
                == Some(Some(k)),
    decreases pats.len(),
{
    if pats.len() > 0 {
        let prev_pats = pats.drop_last();
        lemma_scanned_contains(prev_pats, names, k);
        let a = scanned_keys(prev_pats, names);
        let b = pattern_keys(pats.last(), names);
        lemma_pattern_keys_contains(pats.last(), names, k);
        let s = a + b;
        if s.contains(k) {
            let x = choose|x: int| 0 <= x < s.len() && s[x] == k;
            if x < a.len() {
                assert(a[x] == k);
                let (i, j) = choose|i: int, j: int|
                    0 <= i < prev_pats.len() && 0 <= j < names.len() && #[trigger] key_for(
                        prev_pats[i],
                        names[j],
                    ) == Some(Some(k));
                assert(pats[i] == prev_pats[i]);
            } else {
                assert(b[x - a.len()] == k);
                let j = choose|j: int|
                    0 <= j < names.len() && #[trigger] key_for(pats.last(), names[j]) == Some(
                        Some(k),
                    );
                assert(key_for(pats[pats.len() - 1], names[j]) == Some(Some(k)));
            }
        }
        if exists|i: int, j: int|
            0 <= i < pats.len() && 0 <= j < names.len() && #[trigger] key_for(pats[i], names[j])
                == Some(Some(k)) {
            let (i, j) = choose|i: int, j: int|
                0 <= i < pats.len() && 0 <= j < names.len() && #[trigger] key_for(pats[i], names[j])
                    == Some(Some(k));
            if i < prev_pats.len() {
                assert(prev_pats[i] == pats[i]);
                assert(key_for(prev_pats[i], names[j]) == Some(Some(k)));
                let x = choose|x: int| 0 <= x < a.len() && a[x] == k;
                assert(s[x] == k);
            } else {
                assert(key_for(pats.last(), names[j]) == Some(Some(k)));
                let x = choose|x: int| 0 <= x < b.len() && b[x] == k;
                assert(s[a.len() + x] == k);
            }
        }
    }
}

/// With every label's group at or under the limit, no label is over it.
proof fn lemma_labels_over_empty(
    names: Seq<Seq<char>>,
    by_pattern: bool,
    labels: Seq<Seq<char>>,
    keep: nat,
)
    requires
        forall|i: int|
            0 <= i < labels.len() ==> group_members(names, by_pattern, #[trigger] labels[i]).len()
                <= keep,
    ensures
        labels_over(names, by_pattern, labels, keep).len() == 0,
    decreases labels.len(),
{
    if labels.len() > 0 {
        assert forall|i: int| 0 <= i < labels.drop_last().len() implies group_members(
            names,
            by_pattern,
            #[trigger] labels.drop_last()[i],
        ).len() <= keep by {
            assert(labels.drop_last()[i] == labels[i]);
        }
        lemma_labels_over_empty(names, by_pattern, labels.drop_last(), keep);
        assert(group_members(names, by_pattern, labels[labels.len() - 1]).len() <= keep);
    }
}

/// Cleaning is idempotent: a pass over the files that the previous pass left
/// plans no deletion at all.
pub proof fn lemma_second_pass_removes_nothing(
    files: Seq<FileEntry>,
    patterns: Seq<Seq<char>>,
    keep: nat,
    plans: Seq<GroupPlan>,
    next_plans: Seq<GroupPlan>,
)
    requires
        is_cleanup_plan(files, patterns, keep, plans),
        is_cleanup_plan(files_kept(files, removed_by(plans)), patterns, keep, next_plans),
    ensures
        next_plans.len() == 0,
{
    let gone = removed_by(plans);
    let left = files_kept(files, gone);
    let names = names_of(files);
    let names2 = names_of(left);
    let keys2 = cleanup_keys(patterns, names2);
    assert forall|i: int| 0 <= i < keys2.len() implies group_members(
        names2,
        false,
        #[trigger] keys2[i],
    ).len() <= keep by {
        let k = keys2[i];
        assert(keys2.contains(k));
        lemma_distinct_contains(scanned_keys(patterns, names2), k);
        lemma_scanned_contains(patterns, names2, k);
        let (a, b) = choose|a: int, b: int|
            0 <= a < patterns.len() && 0 <= b < names2.len() && #[trigger] key_for(
                patterns[a],
                names2[b],
            ) == Some(Some(k));
        lemma_kept_names(files, gone, b);
        let c = choose|c: int| 0 <= c < files.len() && #[trigger] names[c] == names2[b];
        assert(key_for(patterns[a], names[c]) == Some(Some(k)));
        lemma_scanned_contains(patterns, names, k);
        lemma_distinct_contains(scanned_keys(patterns, names), k);
        lemma_cleanup_leaves_at_most_keep(files, patterns, keep, plans, false, k);
        lemma_kept_members_len(files, gone, false, k);
    }
    assert forall|i: int| 0 <= i < patterns.len() implies group_members(
        names2,
        true,
        #[trigger] patterns[i],
    ).len() <= keep by {
        assert(patterns.contains(patterns[i]));
        lemma_cleanup_leaves_at_most_keep(files, patterns, keep, plans, true, patterns[i]);
        lemma_kept_members_len(files, gone, true, patterns[i]);
    }
    lemma_labels_over_empty(names2, false, keys2, keep);
    lemma_labels_over_empty(names2, true, patterns, keep);
    assert(plan_labels(next_plans).len() == 0);
}

/// A pattern the regex crate refuses changes nothing: the accepted patterns,
/// on which a pass depends alone, are those of the list without it.
pub proof fn lemma_refused_pattern_changes_nothing(
    before: Seq<Seq<char>>,
    refused: Seq<char>,
    after: Seq<Seq<char>>,
)
    requires
        !regex_accepts(refused),
    ensures
        (before + seq![refused] + after).filter(|s: Seq<char>| regex_accepts(s)) == (before
            + after).filter(|s: Seq<char>| regex_accepts(s)),
{
    let acc = |s: Seq<char>| regex_accepts(s);
    Seq::filter_distributes_over_add(before + seq![refused], after, acc);
    Seq::filter_distributes_over_add(before, seq![refused], acc);
    Seq::filter_distributes_over_add(before, after, acc);
    reveal(Seq::filter);
    assert(seq![refused].drop_last() =~= Seq::<Seq<char>>::empty());
    assert(Seq::<Seq<char>>::empty().filter(acc) =~= Seq::<Seq<char>>::empty());
    assert(seq![refused].last() == refused);
    assert(!acc(refused));
    assert(seq![refused].filter(acc) =~= Seq::<Seq<char>>::empty());
    assert(before.filter(acc) + Seq::<Seq<char>>::empty() =~= before.filter(acc));
}

} // verus!
