//! Filtering the fortunes by a pattern, and grouping what matches by source.
//!
//! The fortunes that match are taken in their order. A group is a run of them,
//! as long as can be, that come from one source. A source whose matches are
//! parted by matches from another source so gets a group for each run.
use vstd::prelude::*;
use crate::fortune::record_views;
use crate::fortune::Fortune;
use crate::fortune::Record;
use crate::pattern::Pattern;
use crate::scan::lemma_stop_index;
use crate::scan::lemma_stop_index_bounds;
use crate::scan::stop_index;

verus! {

/// The texts of one run of matches, and the source they come from.
#[derive(Debug)]
pub struct Group {
    pub source: String,
    pub texts: Vec<String>,
}

/// What a group holds, as plain text.
pub struct GroupView {
    pub source: Seq<char>,
    pub texts: Seq<Seq<char>>,
}

impl View for Group {
    type V = GroupView;

    open spec fn view(&self) -> GroupView {
        GroupView { source: self.source@, texts: self.texts@.map_values(|text: String| text@) }
    }
}

/// What each group of `groups` holds.
pub open spec fn group_views(groups: Seq<Group>) -> Seq<GroupView> {
    groups.map_values(|group: Group| group@)
}

/// The text of each record.
pub open spec fn texts_of(records: Seq<Record>) -> Seq<Seq<char>> {
    records.map_values(|record: Record| record.text)
}

/// The records whose text `pattern` matches, in their order.
pub open spec fn matching(records: Seq<Record>, pattern: Pattern) -> Seq<Record> {
    records.filter(|record: Record| pattern.matches(record.text))
}

/// How many records at the start of `records` come from the source of the
/// first.
pub open spec fn run_len(records: Seq<Record>) -> nat {
    if records.len() == 0 {
        0
    } else {
        stop_index(records, |record: Record| record.source != records[0].source)
    }
}

/// The runs of `records`, each as a group.
pub open spec fn group_runs(records: Seq<Record>) -> Seq<GroupView>
    decreases records.len(),
    via group_runs_decreases
{
    if records.len() == 0 {
        Seq::empty()
    } else {
        let k = run_len(records) as int;
        seq![GroupView { source: records[0].source, texts: texts_of(records.subrange(0, k)) }]
            + group_runs(records.subrange(k, records.len() as int))
    }
}

#[via_fn]
proof fn group_runs_decreases(records: Seq<Record>) {
    if records.len() > 0 {
        lemma_run_len_bounds(records);
    }
}

/// The groups that `pattern` finds among `records`.
pub open spec fn matching_groups(records: Seq<Record>, pattern: Pattern) -> Seq<GroupView> {
    group_runs(matching(records, pattern))
}

/// The records from the place `start` on; none where there is no such place.
pub open spec fn records_from(records: Seq<Record>, start: int) -> Seq<Record> {
    if 0 <= start <= records.len() {
        records.skip(start)
    } else {
        Seq::empty()
    }
}

/// A run ends where the source changes or the records end.
pub proof fn lemma_run_len(records: Seq<Record>, k: int)
    requires
        1 <= k <= records.len(),
        forall|j: int| 0 <= j < k ==> (#[trigger] records[j]).source == records[0].source,
        k == records.len() || records[k].source != records[0].source,
    ensures
        run_len(records) == k,
{
    lemma_stop_index(records, |record: Record| record.source != records[0].source, k);
}

/// A run is at least one record long and no longer than the records. Its
/// records come from one source, and the record after it from another.
pub proof fn lemma_run_len_bounds(records: Seq<Record>)
    requires
        records.len() > 0,
    ensures
        1 <= run_len(records) <= records.len(),
        forall|j: int| 0 <= j < run_len(records) ==> (#[trigger] records[j]).source
            == records[0].source,
        run_len(records) < records.len() ==> records[run_len(records) as int].source
            != records[0].source,
{
    lemma_stop_index_bounds(records, |record: Record| record.source != records[0].source);
}

/// Every record among the matches is matched by the pattern, and is one of
/// the records.
pub proof fn lemma_matching_members(records: Seq<Record>, pattern: Pattern, j: int)
    requires
        0 <= j < matching(records, pattern).len(),
    ensures
        pattern.matches(matching(records, pattern)[j].text),
        records.contains(matching(records, pattern)[j]),
{
    let matched = |record: Record| pattern.matches(record.text);
    records.lemma_filter_pred(matched, j);
    assert(records.filter(matched).contains(records.filter(matched)[j]));
    records.lemma_filter_contains_rev(matched, records.filter(matched)[j]);
}

/// Every text in a group is the text of one of the records, and that record
/// comes from the source of the group.
pub proof fn lemma_group_members(records: Seq<Record>, g: int, t: int)
    requires
        0 <= g < group_runs(records).len(),
        0 <= t < group_runs(records)[g].texts.len(),
    ensures
        records.contains(
            Record { source: group_runs(records)[g].source, text: group_runs(records)[g].texts[t] },
        ),
    decreases records.len(),
{
    lemma_run_len_bounds(records);
    let k = run_len(records) as int;
    if g == 0 {
        assert(records.subrange(0, k)[t] == records[t]);
        assert(records[t].source == records[0].source);
    } else {
        let rest = records.subrange(k, records.len() as int);
        lemma_group_members(rest, g - 1, t);
        let member = Record {
            source: group_runs(records)[g].source,
            text: group_runs(records)[g].texts[t],
        };
        let i = choose|i: int| 0 <= i < rest.len() && rest[i] == member;
        assert(records[k + i] == member);
    }
}

/// The pattern matches every text of every group that it finds: no fortune
/// that it does not match stands in any group.
pub proof fn lemma_groups_hold_matches(records: Seq<Record>, pattern: Pattern)
    ensures
        forall|g: int, t: int|
            0 <= g < matching_groups(records, pattern).len() && 0 <= t < matching_groups(
                records,
                pattern,
            )[g].texts.len() ==> pattern.matches(
                #[trigger] matching_groups(records, pattern)[g].texts[t],
            ),
{
    let matches = matching(records, pattern);
    let groups = matching_groups(records, pattern);
    assert forall|g: int, t: int|
        0 <= g < groups.len() && 0 <= t < groups[g].texts.len() implies pattern.matches(
        #[trigger] groups[g].texts[t],
    ) by {
        lemma_group_members(matches, g, t);
        let member = Record { source: groups[g].source, text: groups[g].texts[t] };
        let j = choose|j: int| 0 <= j < matches.len() && matches[j] == member;
        lemma_matching_members(records, pattern, j);
    }
}

/// The texts of the groups, group after group, are the texts of the records:
/// grouping loses nothing, adds nothing, and keeps the order.
pub proof fn lemma_groups_keep_texts(records: Seq<Record>)
    ensures
        group_runs(records).map_values(|group: GroupView| group.texts).flatten() == texts_of(
            records,
        ),
    decreases records.len(),
{
    let texts = group_runs(records).map_values(|group: GroupView| group.texts);
    if records.len() == 0 {
        assert(texts == Seq::<Seq<Seq<char>>>::empty());
    } else {
        lemma_run_len_bounds(records);
        let k = run_len(records) as int;
        let rest = records.subrange(k, records.len() as int);
        lemma_groups_keep_texts(rest);
        assert(texts.first() == texts_of(records.subrange(0, k)));
        assert(texts.drop_first() == group_runs(rest).map_values(|group: GroupView| group.texts));
        assert(texts_of(records.subrange(0, k)) + texts_of(rest) == texts_of(records));
    }
}

/// No group is empty, and of two groups that follow each other the second
/// comes from another source than the first.
pub proof fn lemma_groups_are_runs(records: Seq<Record>, g: int)
    requires
        0 <= g < group_runs(records).len(),
    ensures
        group_runs(records)[g].texts.len() > 0,
        g + 1 < group_runs(records).len() ==> group_runs(records)[g + 1].source != group_runs(
            records,
        )[g].source,
    decreases records.len(),
{
    lemma_run_len_bounds(records);
    let k = run_len(records) as int;
    let rest = records.subrange(k, records.len() as int);
    if g == 0 {
        if 1 < group_runs(records).len() {
            assert(group_runs(records)[1] == group_runs(rest)[0]);
            assert(rest[0] == records[k]);
        }
    } else {
        lemma_groups_are_runs(rest, g - 1);
    }
}

/// Leaving out a record that does not match changes nothing.
proof fn lemma_matching_step(records: Seq<Record>, pattern: Pattern, i: int)
    requires
        0 <= i < records.len(),
    ensures
        matching(records.skip(i), pattern) == if pattern.matches(records[i].text) {
            seq![records[i]] + matching(records.skip(i + 1), pattern)
        } else {
            matching(records.skip(i + 1), pattern)
        },
{
    let rest = records.skip(i);
    rest.lemma_filter_eq_filter_alt(|record: Record| pattern.matches(record.text));
    assert(rest.drop_first() == records.skip(i + 1));
}

/// Looks for the next group among the fortunes from the place `start` on.
///
/// Where none of these fortunes matches, there is no group. Else the group
/// holds the first run of matches, and with it comes the place at which to
/// look for the group after it: what is found from there on are the groups
/// that follow this one. Fortunes behind that place are not looked at, so the
/// groups can be had one at a time.
pub fn next_group(fortunes: &[Fortune], pattern: &Pattern, start: usize) -> (found: Option<
    (Group, usize),
>)
    ensures
        ({
            let groups = matching_groups(
                records_from(record_views(fortunes@), start as int),
                *pattern,
            );
            match found {
                None => groups.len() == 0,
                Some((group, next)) => {
                    &&& groups.len() > 0
                    &&& group@ == groups[0]
                    &&& start < next <= fortunes@.len()
                    &&& matching_groups(
                        records_from(record_views(fortunes@), next as int),
                        *pattern,
                    ) == groups.drop_first()
                },
            }
        }),
{
    let ghost records = record_views(fortunes@);
    let n: usize = fortunes.len();
    if start >= n {
        assert(matching(records_from(records, start as int), *pattern) == Seq::<Record>::empty());
        return None;
    }
    let mut i: usize = start;
    while i < n && !pattern.is_match(fortunes[i].text.as_str())
        invariant
            start <= i <= n,
            n == fortunes@.len(),
            records == record_views(fortunes@),
            matching(records.skip(start as int), *pattern) == matching(
                records.skip(i as int),
                *pattern,
            ),
        decreases n - i,
    {
        proof {
            assert(records[i as int] == fortunes@[i as int]@);
            lemma_matching_step(records, *pattern, i as int);
        }
        i = i + 1;
    }
    if i >= n {
        return None;
    }
    let ghost found_at = i;
    let ghost matches = matching(records.skip(found_at as int), *pattern);
    let source = fortunes[i].source.clone();
    let mut texts: Vec<String> = Vec::new();
    texts.push(fortunes[i].text.clone());
    proof {
        assert(records[i as int] == fortunes@[i as int]@);
        lemma_matching_step(records, *pattern, i as int);
        assert(matches.skip(1) == matching(records.skip(i + 1), *pattern));
        assert(texts@.map_values(|text: String| text@) == texts_of(matches.subrange(0, 1)));
    }
    i = i + 1;
    while i < n
        invariant
            found_at < i <= n,
            n == fortunes@.len(),
            records == record_views(fortunes@),
            matches == matching(records.skip(found_at as int), *pattern),
            1 <= texts@.len() <= matches.len(),
            source@ == matches[0].source,
            forall|j: int| 0 <= j < texts@.len() ==> (#[trigger] matches[j]).source == source@,
            texts@.map_values(|text: String| text@) == texts_of(
                matches.subrange(0, texts@.len() as int),
            ),
            matches.skip(texts@.len() as int) == matching(records.skip(i as int), *pattern),
        ensures
            found_at < i <= n,
            1 <= texts@.len() <= matches.len(),
            source@ == matches[0].source,
            forall|j: int| 0 <= j < texts@.len() ==> (#[trigger] matches[j]).source == source@,
            texts@.map_values(|text: String| text@) == texts_of(
                matches.subrange(0, texts@.len() as int),
            ),
            matches.skip(texts@.len() as int) == matching(records.skip(i as int), *pattern),
            texts@.len() == matches.len() || matches[texts@.len() as int].source != source@,
        decreases n - i,
    {
        let fortune = &fortunes[i];
        let ghost k = texts@.len() as int;
        proof {
            assert(records[i as int] == fortune@);
            lemma_matching_step(records, *pattern, i as int);
        }
        if pattern.is_match(fortune.text.as_str()) {
            assert(matches.skip(k).len() >= 1);
            assert(matches.skip(k)[0] == records[i as int]);
            assert(matches[k] == records[i as int]);
            if !(fortune.source == source) {
                break ;
            }
            let text = fortune.text.clone();
            proof {
                assert(matches.skip(k + 1) == matches.skip(k).skip(1));
                assert(texts_of(matches.subrange(0, k + 1)) == texts_of(
                    matches.subrange(0, k),
                ).push(matches[k].text));
                assert(texts@.push(text).map_values(|text: String| text@) == texts@.map_values(
                    |text: String| text@,
                ).push(text@));
            }
            texts.push(text);
        }
        i = i + 1;
    }
    let group = Group { source, texts };
    proof {
        let k = group.texts@.len() as int;
        lemma_run_len(matches, k);
        assert(matches.subrange(k, matches.len() as int) == matches.skip(k));
        assert(records_from(records, start as int) == records.skip(start as int));
        assert(records_from(records, i as int) == records.skip(i as int));
        let groups = group_runs(matches);
        assert(groups.drop_first() == group_runs(matches.skip(k)));
    }
    Some((group, i))
}

/// All the groups that `pattern` finds among `fortunes`, in order.
///
/// Every text in a group is the text of a fortune that the pattern matches,
/// and no match is left out.
pub fn filter(fortunes: &[Fortune], pattern: &Pattern) -> (groups: Vec<Group>)
    ensures
        group_views(groups@) == matching_groups(record_views(fortunes@), *pattern),
        forall|g: int, t: int|
            0 <= g < groups@.len() && 0 <= t < groups@[g].texts@.len() ==> pattern.matches(
                #[trigger] groups@[g].texts@[t]@,
            ),
{
    let ghost records = record_views(fortunes@);
    let mut groups: Vec<Group> = Vec::new();
    let mut start: usize = 0;
    assert(records_from(records, 0) == records);
    loop
        invariant
            start <= fortunes@.len(),
            records == record_views(fortunes@),
            matching_groups(records, *pattern) == group_views(groups@) + matching_groups(
                records_from(records, start as int),
                *pattern,
            ),
        ensures
            group_views(groups@) == matching_groups(records, *pattern),
        decreases fortunes@.len() - start,
    {
        match next_group(fortunes, pattern, start) {
            None => {
                break ;
            },
            Some((group, next)) => {
                proof {
                    let rest = matching_groups(records_from(records, start as int), *pattern);
                    assert(rest == seq![group@] + rest.drop_first());
                    assert(group_views(groups@.push(group)) == group_views(groups@).push(group@));
                }
                groups.push(group);
                start = next;
            },
        }
    }
    proof {
        lemma_groups_hold_matches(records, *pattern);
        let found = matching_groups(records, *pattern);
        assert forall|g: int, t: int|
            0 <= g < groups@.len() && 0 <= t < groups@[g].texts@.len() implies pattern.matches(
            #[trigger] groups@[g].texts@[t]@,
        ) by {
            assert(group_views(groups@)[g] == groups@[g]@);
            assert(found[g].texts[t] == groups@[g].texts@[t]@);
        }
    }
    groups
}

} // verus!
