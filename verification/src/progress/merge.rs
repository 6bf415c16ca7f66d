//! Adding a byte range to a progress list.
use crate::progress::{covered, ordered, within, ProgressEntry};
use vstd::prelude::*;

verus! {

/// Whether the entries that end before `start` come first.
pub open spec fn partitioned(entries: Seq<ProgressEntry>, start: u64) -> bool {
    forall|i: int, j: int|
        0 <= i < j < entries.len() && (#[trigger] entries[j]).end < start
            ==> (#[trigger] entries[i]).end < start
}

/// How many of the leading `entries` end before `start`.
pub open spec fn ending_before(entries: Seq<ProgressEntry>, start: u64) -> nat
    decreases entries.len(),
{
    if entries.len() == 0 || entries[0].end >= start {
        0
    } else {
        1 + ending_before(entries.drop_first(), start)
    }
}

/// The smallest range that holds both `a` and `b`.
pub open spec fn hull(a: ProgressEntry, b: ProgressEntry) -> ProgressEntry {
    ProgressEntry {
        start: if a.start <= b.start {
            a.start
        } else {
            b.start
        },
        end: if a.end >= b.end {
            a.end
        } else {
            b.end
        },
    }
}

/// How many of the leading `entries` a range swallows when it grows by each
/// entry that starts no later than where the range then ends.
pub open spec fn swallowed(entries: Seq<ProgressEntry>, range: ProgressEntry) -> nat
    decreases entries.len(),
{
    if entries.len() == 0 || entries[0].start > range.end {
        0
    } else {
        1 + swallowed(entries.drop_first(), hull(range, entries[0]))
    }
}

/// The range after it has swallowed those entries.
pub open spec fn grown(entries: Seq<ProgressEntry>, range: ProgressEntry) -> ProgressEntry
    decreases entries.len(),
{
    if entries.len() == 0 || entries[0].start > range.end {
        range
    } else {
        grown(entries.drop_first(), hull(range, entries[0]))
    }
}

/// The list after `new` was added: the entries that end before `new` stay, an
/// entry that already holds `new` leaves the list as it is, and otherwise the
/// entries that `new` touches become one.
pub open spec fn merged(entries: Seq<ProgressEntry>, new: ProgressEntry) -> Seq<ProgressEntry> {
    let i = ending_before(entries, new.start) as int;
    let tail = entries.skip(i);
    if tail.len() > 0 && tail[0].start <= new.start && tail[0].end >= new.end {
        entries
    } else {
        entries.take(i).push(grown(tail, new)) + tail.skip(swallowed(tail, new) as int)
    }
}

/// A progress list that ranges can be added to.
pub trait Merge {
    /// The ranges of the list.
    spec fn entries(&self) -> Seq<ProgressEntry>;

    /// Adds `new` to the list. On an ordered list, and with a range that does not
    /// run backwards, the list stays ordered and covers the bytes of `new` besides
    /// those it covered.
    fn merge_progress(&mut self, new: ProgressEntry)
        ensures
            partitioned(old(self).entries(), new.start) ==> final(self).entries() == merged(
                old(self).entries(),
                new,
            ),
            ordered(old(self).entries()) && new.start <= new.end ==> {
                &&& final(self).entries() == merged(old(self).entries(), new)
                &&& ordered(final(self).entries())
                &&& forall|b: int| #[trigger]
                    covered(final(self).entries(), b) <==> covered(old(self).entries(), b)
                        || within(new, b)
                &&& forall|q: int| #[trigger]
                    reached(final(self).entries(), q) <==> reached(old(self).entries(), q)
                        || reaches(new, q)
            },
    ;
}

/// The index of the first entry that ends at `start` or later.
fn partition_point(entries: &Vec<ProgressEntry>, start: u64) -> (result: usize)
    ensures
        result <= entries.len(),
        partitioned(entries@, start) ==> result == ending_before(entries@, start),
{
    let mut low: usize = 0;
    let mut high: usize = entries.len();
    while low < high
        invariant
            low <= high <= entries.len(),
            partitioned(entries@, start) ==> forall|i: int|
                0 <= i < low ==> (#[trigger] entries@[i]).end < start,
            partitioned(entries@, start) ==> forall|i: int|
                high <= i < entries.len() ==> (#[trigger] entries@[i]).end >= start,
        decreases high - low,
    {
        let middle: usize = low + (high - low) / 2;
        if entries[middle].end < start {
            low = middle + 1;
        } else {
            high = middle;
        }
    }
    proof {
        if partitioned(entries@, start) {
            lemma_ending_before(entries@, start, low as int);
        }
    }
    low
}

impl Merge for Vec<ProgressEntry> {
    open spec fn entries(&self) -> Seq<ProgressEntry> {
        self@
    }

    fn merge_progress(&mut self, new: ProgressEntry) {
        let ghost before = self@;
        let i: usize = partition_point(self, new.start);
        proof {
            if ordered(before) {
                lemma_ordered_partitioned(before, new.start);
            }
            if ordered(before) && new.start <= new.end {
                law_merge_covers_both(before, new);
                lemma_merged_reaches(before, new);
            }
        }
        if i == self.len() {
            self.push(new);
            assert(partitioned(before, new.start) ==> self@ =~= merged(before, new));
            return ;
        }
        if self[i].start <= new.start && self[i].end >= new.end {
            return ;
        }
        let mut start: u64 = new.start;
        let mut end: u64 = new.end;
        let mut j: usize = i;
        assert(before.skip(i as int).skip(0) =~= before.skip(i as int));
        while j < self.len()
            invariant_except_break
                i <= j <= self.len(),
                self@ == before,
                swallowed(before.skip(i as int), new) == (j - i) + swallowed(
                    before.skip(j as int),
                    (ProgressEntry { start, end }),
                ),
                grown(before.skip(i as int), new) == grown(
                    before.skip(j as int),
                    (ProgressEntry { start, end }),
                ),
            ensures
                i <= j <= self.len(),
                self@ == before,
                swallowed(before.skip(i as int), new) == j - i,
                grown(before.skip(i as int), new) == (ProgressEntry { start, end }),
            decreases self.len() - j,
        {
            if self[j].start > end {
                break ;
            }
            assert(before.skip(j as int).drop_first() =~= before.skip(j + 1));
            if self[j].start < start {
                start = self[j].start;
            }
            if self[j].end > end {
                end = self[j].end;
            }
            j = j + 1;
        }
        let mut rest: Vec<ProgressEntry> = self.split_off(j);
        self.truncate(i);
        self.push(ProgressEntry { start, end });
        self.append(&mut rest);
        assert(before.skip(i as int).skip(j - i) =~= before.skip(j as int));
        assert(partitioned(before, new.start) ==> self@ =~= merged(before, new));
    }
}

/// Entries that ascend are partitioned at every position.
proof fn lemma_ordered_partitioned(entries: Seq<ProgressEntry>, start: u64)
    requires
        ordered(entries),
    ensures
        partitioned(entries, start),
{
}

/// `n` is the number of leading entries that end before `start` if those
/// before `n` do and the one at `n` does not.
proof fn lemma_ending_before(entries: Seq<ProgressEntry>, start: u64, n: int)
    requires
        0 <= n <= entries.len(),
        forall|i: int| 0 <= i < n ==> (#[trigger] entries[i]).end < start,
        n < entries.len() ==> entries[n].end >= start,
    ensures
        ending_before(entries, start) == n,
    decreases n,
{
    if n > 0 {
        assert forall|i: int| 0 <= i < n - 1 implies (#[trigger] entries.drop_first()[i]).end
            < start by {
            assert(entries.drop_first()[i] == entries[i + 1]);
        }
        lemma_ending_before(entries.drop_first(), start, n - 1);
    }
}

/// Whether `entry` reaches position `q`, where byte `b` lies at position
/// `2 * b + 1` and the boundary before it at `2 * b`. Two ranges touch if there
/// is a position that both reach, also when no byte lies in both.
pub open spec fn reaches(entry: ProgressEntry, q: int) -> bool {
    2 * entry.start <= q <= 2 * entry.end
}

/// Whether one of `entries` reaches position `q`.
pub open spec fn reached(entries: Seq<ProgressEntry>, q: int) -> bool {
    exists|i: int| 0 <= i < entries.len() && reaches(#[trigger] entries[i], q)
}

/// A byte is covered if its position is reached.
proof fn lemma_covered_is_reached(entries: Seq<ProgressEntry>, b: int)
    ensures
        covered(entries, b) <==> reached(entries, 2 * b + 1),
{
    if covered(entries, b) {
        let i = choose|i: int| 0 <= i < entries.len() && within(#[trigger] entries[i], b);
        assert(reaches(entries[i], 2 * b + 1));
    }
    if reached(entries, 2 * b + 1) {
        let i = choose|i: int|
            0 <= i < entries.len() && reaches(#[trigger] entries[i], 2 * b + 1);
        assert(within(entries[i], b));
    }
}

/// What growing does to a range that starts no later than the first of the
/// ascending `entries` ends: it comes to reach exactly the positions that it
/// reached and those of the entries that it swallows, stops short of the others,
/// and never starts before `low`, where neither it nor an entry did.
proof fn lemma_grown(entries: Seq<ProgressEntry>, range: ProgressEntry, low: int)
    requires
        ordered(entries),
        range.start <= range.end,
        entries.len() > 0 ==> entries[0].end >= range.start,
        low <= range.start,
        forall|i: int| 0 <= i < entries.len() ==> low <= (#[trigger] entries[i]).start,
    ensures
        swallowed(entries, range) <= entries.len(),
        low <= grown(entries, range).start <= range.start,
        range.end <= grown(entries, range).end,
        forall|i: int|
            swallowed(entries, range) <= i < entries.len() ==> (#[trigger] entries[i]).start
                > grown(entries, range).end,
        forall|q: int| #[trigger]
            reaches(grown(entries, range), q) <==> reaches(range, q) || reached(
                entries.take(swallowed(entries, range) as int),
                q,
            ),
    decreases entries.len(),
{
    let n = swallowed(entries, range) as int;
    let g = grown(entries, range);
    if entries.len() == 0 || entries[0].start > range.end {
        assert(entries.take(0) =~= Seq::empty());
    } else {
        let rest = entries.drop_first();
        let next = hull(range, entries[0]);
        assert forall|i: int| 0 <= i < rest.len() implies low <= (#[trigger] rest[i]).start by {
            assert(rest[i] == entries[i + 1]);
        }
        lemma_grown(rest, next, low);
        assert forall|i: int| n <= i < entries.len() implies (#[trigger] entries[i]).start
            > g.end by {
            assert(rest[i - 1] == entries[i]);
        }
        assert forall|q: int| #[trigger] reaches(g, q) <==> reaches(range, q) || reached(
            entries.take(n),
            q,
        ) by {
            assert(rest.take(n - 1) =~= entries.take(n).drop_first());
            assert(reaches(next, q) <==> reaches(range, q) || reaches(entries[0], q));
            if reached(rest.take(n - 1), q) {
                let i = choose|i: int|
                    0 <= i < n - 1 && reaches(#[trigger] rest.take(n - 1)[i], q);
                assert(reaches(entries.take(n)[i + 1], q));
            }
            if reached(entries.take(n), q) {
                let i = choose|i: int| 0 <= i < n && reaches(#[trigger] entries.take(n)[i], q);
                if i > 0 {
                    assert(reaches(rest.take(n - 1)[i - 1], q));
                }
            }
            if reaches(entries[0], q) {
                assert(reaches(entries.take(n)[0], q));
            }
        }
    }
}

/// How many entries end before `start`, on ascending entries.
proof fn lemma_ending_before_ordered(entries: Seq<ProgressEntry>, start: u64)
    requires
        ordered(entries),
    ensures
        ending_before(entries, start) <= entries.len(),
        forall|i: int|
            0 <= i < ending_before(entries, start) ==> (#[trigger] entries[i]).end < start,
        forall|i: int|
            ending_before(entries, start) <= i < entries.len() ==> (#[trigger] entries[i]).end
                >= start,
    decreases entries.len(),
{
    if entries.len() > 0 && entries[0].end < start {
        let rest = entries.drop_first();
        lemma_ending_before_ordered(rest, start);
        assert forall|i: int| 0 <= i < ending_before(entries, start) implies (
        #[trigger] entries[i]).end < start by {
            if i > 0 {
                assert(rest[i - 1] == entries[i]);
            }
        }
        assert forall|i: int|
            ending_before(entries, start) <= i < entries.len() implies (#[trigger] entries[i]).end
            >= start by {
            assert(rest[i - 1] == entries[i]);
        }
    }
}

/// Adding a range to an ordered list gives an ordered list, which reaches the
/// positions of the range, those that were reached, and no others.
proof fn lemma_merged_reaches(entries: Seq<ProgressEntry>, new: ProgressEntry)
    requires
        ordered(entries),
        new.start <= new.end,
    ensures
        ordered(merged(entries, new)),
        forall|q: int| #[trigger]
            reached(merged(entries, new), q) <==> reached(entries, q) || reaches(new, q),
{
    let i = ending_before(entries, new.start) as int;
    lemma_ending_before_ordered(entries, new.start);
    let tail = entries.skip(i);
    let after = merged(entries, new);
    if tail.len() > 0 && tail[0].start <= new.start && tail[0].end >= new.end {
        assert forall|q: int| reaches(new, q) implies reached(entries, q) by {
            assert(reaches(entries[i], q));
        }
    } else {
        let low: int = if i > 0 {
            entries[i - 1].end + 1
        } else {
            0
        };
        assert(ordered(tail));
        lemma_grown(tail, new, low);
        let n = swallowed(tail, new) as int;
        let g = grown(tail, new);
        assert forall|k: int| 0 <= k < after.len() implies (#[trigger] after[k]) == if k < i {
            entries[k]
        } else if k == i {
            g
        } else {
            entries[k - 1 + n]
        } by {}
        assert(ordered(after)) by {
            assert forall|k: int, m: int| 0 <= k < m < after.len() implies (
            #[trigger] after[k]).end < (#[trigger] after[m]).start by {
                if m > i {
                    assert(after[m] == tail[m - 1 + n - i]);
                }
            }
        }
        assert forall|q: int| #[trigger] reached(after, q) <==> reached(entries, q) || reaches(
            new,
            q,
        ) by {
            assert(reaches(g, q) <==> reaches(new, q) || reached(tail.take(n), q));
            if reached(after, q) {
                let k = choose|k: int| 0 <= k < after.len() && reaches(#[trigger] after[k], q);
                if k < i {
                    assert(reaches(entries[k], q));
                } else if k > i {
                    assert(reaches(entries[k - 1 + n], q));
                } else if reached(tail.take(n), q) {
                    let m = choose|m: int| 0 <= m < n && reaches(#[trigger] tail.take(n)[m], q);
                    assert(reaches(entries[i + m], q));
                }
            }
            if reached(entries, q) {
                let k = choose|k: int| 0 <= k < entries.len() && reaches(#[trigger] entries[k], q);
                if k < i {
                    assert(reaches(after[k], q));
                } else if k < i + n {
                    assert(reaches(tail.take(n)[k - i], q));
                    assert(reaches(after[i], q));
                } else {
                    assert(reaches(after[k - n + 1], q));
                }
            }
            if reaches(new, q) {
                assert(reaches(after[i], q));
            }
        }
    }
}

/// Adding a range to an ordered list gives an ordered list, which covers the
/// bytes of the range, those that were covered, and no others.
pub proof fn law_merge_covers_both(entries: Seq<ProgressEntry>, new: ProgressEntry)
    requires
        ordered(entries),
        new.start <= new.end,
    ensures
        ordered(merged(entries, new)),
        forall|b: int| #[trigger]
            covered(merged(entries, new), b) <==> covered(entries, b) || within(new, b),
{
    lemma_merged_reaches(entries, new);
    assert forall|b: int| #[trigger]
        covered(merged(entries, new), b) <==> covered(entries, b) || within(new, b) by {
        lemma_covered_is_reached(entries, b);
        lemma_covered_is_reached(merged(entries, new), b);
        assert(reaches(new, 2 * b + 1) <==> within(new, b));
    }
}

/// Ranges may arrive in any order: adding `a` and then `b` to an ordered list
/// gives the list that adding `b` and then `a` gives.
pub proof fn law_merge_in_any_order(
    entries: Seq<ProgressEntry>,
    a: ProgressEntry,
    b: ProgressEntry,
)
    requires
        ordered(entries),
        a.start <= a.end,
        b.start <= b.end,
    ensures
        merged(merged(entries, a), b) == merged(merged(entries, b), a),
{
    let ab = merged(merged(entries, a), b);
    let ba = merged(merged(entries, b), a);
    lemma_merged_reaches(entries, a);
    lemma_merged_reaches(merged(entries, a), b);
    lemma_merged_reaches(entries, b);
    lemma_merged_reaches(merged(entries, b), a);
    assert forall|q: int| reached(ab, q) <==> #[trigger] reached(ba, q) by {
        assert(reached(merged(entries, a), q) <==> reached(entries, q) || reaches(a, q));
        assert(reached(merged(entries, b), q) <==> reached(entries, q) || reaches(b, q));
    }
    lemma_same_reach_same_list(ab, ba);
}

/// A range may arrive twice: adding it again changes nothing.
pub proof fn law_merge_twice(entries: Seq<ProgressEntry>, new: ProgressEntry)
    requires
        ordered(entries),
        new.start <= new.end,
    ensures
        merged(merged(entries, new), new) == merged(entries, new),
{
    lemma_merged_reaches(entries, new);
    lemma_merged_reaches(merged(entries, new), new);
    lemma_same_reach_same_list(merged(merged(entries, new), new), merged(entries, new));
}

/// Two ordered lists that reach the same positions are the same list.
proof fn lemma_same_reach_same_list(s: Seq<ProgressEntry>, t: Seq<ProgressEntry>)
    requires
        ordered(s),
        ordered(t),
        forall|q: int| reached(s, q) <==> #[trigger] reached(t, q),
    ensures
        s == t,
    decreases s.len(),
{
    if s.len() == 0 {
        if t.len() > 0 {
            assert(reaches(t[0], 2 * t[0].start));
            assert(reached(t, 2 * t[0].start));
        }
    } else {
        let a = s.last();
        assert(reaches(s[s.len() - 1], 2 * a.start));
        assert(reached(s, 2 * a.start));
        assert(reached(t, 2 * a.start));
        let c = t.last();
        lemma_last_entry(s);
        lemma_last_entry(t);
        assert(reached(t, 2 * c.end) && reached(s, 2 * a.end));
        assert(reached(t, 2 * a.end) && reached(s, 2 * c.end));
        assert(a.end == c.end);
        assert(a.start == c.start) by {
            if a.start < c.start {
                assert(reached(s, 2 * c.start - 1));
                assert(reached(t, 2 * c.start - 1));
            } else if c.start < a.start {
                assert(reached(t, 2 * a.start - 1));
                assert(reached(s, 2 * a.start - 1));
            }
        }
        let (front_s, front_t) = (s.drop_last(), t.drop_last());
        assert forall|q: int| reached(front_s, q) <==> #[trigger] reached(front_t, q) by {
            lemma_reached_by_front(s, q);
            lemma_reached_by_front(t, q);
            assert(reached(s, q) <==> reached(t, q));
        }
        lemma_same_reach_same_list(front_s, front_t);
        assert(s =~= front_s.push(a));
        assert(t =~= front_t.push(c));
    }
}

/// The last entry reaches the last positions, and not the one before it.
proof fn lemma_last_entry(entries: Seq<ProgressEntry>)
    requires
        ordered(entries),
        entries.len() > 0,
    ensures
        forall|q: int| #[trigger] reached(entries, q) ==> q <= 2 * entries.last().end,
        forall|q: int| reaches(entries.last(), q) ==> #[trigger] reached(entries, q),
        !reached(entries, 2 * entries.last().start - 1),
{
    let n = entries.len() - 1;
    assert forall|q: int| #[trigger] reached(entries, q) implies q <= 2 * entries.last().end by {
        let i = choose|i: int| 0 <= i < entries.len() && reaches(#[trigger] entries[i], q);
        if i < n {
            assert(entries[i].end < entries[n].start);
        }
    }
    assert forall|q: int| reaches(entries.last(), q) implies #[trigger] reached(entries, q) by {
        assert(reaches(entries[n], q));
    }
    if reached(entries, 2 * entries.last().start - 1) {
        let i = choose|i: int|
            0 <= i < entries.len() && reaches(
                #[trigger] entries[i],
                2 * entries.last().start - 1,
            );
        assert(i < n ==> entries[i].end < entries[n].start);
    }
}

/// The entries before the last reach what the list reaches and the last entry
/// does not.
proof fn lemma_reached_by_front(entries: Seq<ProgressEntry>, q: int)
    requires
        ordered(entries),
        entries.len() > 0,
    ensures
        reached(entries.drop_last(), q) <==> reached(entries, q) && !reaches(entries.last(), q),
{
    let front = entries.drop_last();
    if reached(front, q) {
        let i = choose|i: int| 0 <= i < front.len() && reaches(#[trigger] front[i], q);
        assert(reaches(entries[i], q));
        assert(entries[i].end < entries[entries.len() - 1].start);
    }
    if reached(entries, q) && !reaches(entries.last(), q) {
        let i = choose|i: int| 0 <= i < entries.len() && reaches(#[trigger] entries[i], q);
        assert(reaches(front[i], q));
    }
}

/// Adding a range to an ordered list gives the one ordered list that reaches the
/// positions of the range, those that were reached, and no others. So ranges that
/// touch become one and those that do not stay apart, also when they are empty.
pub proof fn law_merge_joins_what_touches(
    entries: Seq<ProgressEntry>,
    new: ProgressEntry,
    joined: Seq<ProgressEntry>,
)
    requires
        ordered(entries),
        new.start <= new.end,
    ensures
        joined == merged(entries, new) <==> {
            &&& ordered(joined)
            &&& forall|q: int| #[trigger]
                reached(joined, q) <==> reached(entries, q) || reaches(new, q)
        },
        forall|start: u64| #[trigger] partitioned(entries, start),
{
    lemma_merged_reaches(entries, new);
    if ordered(joined) && forall|q: int| #[trigger]
        reached(joined, q) <==> reached(entries, q) || reaches(new, q) {
        lemma_same_reach_same_list(joined, merged(entries, new));
    }
}

/// What growing does to any range, whatever the entries: it comes to start at the
/// smallest start and to end at the largest end among itself and the entries that
/// it swallows, each of which starts no later than where it, or an entry swallowed
/// before, ends.
proof fn lemma_grown_in_general(entries: Seq<ProgressEntry>, range: ProgressEntry)
    ensures
        ({
            let n = swallowed(entries, range) as int;
            let g = grown(entries, range);
            &&& n <= entries.len()
            &&& g.start <= range.start && g.end >= range.end
            &&& forall|m: int|
                0 <= m < n ==> g.start <= (#[trigger] entries[m]).start && g.end >= entries[m].end
            &&& g.start == range.start || exists|m: int|
                0 <= m < n && (#[trigger] entries[m]).start == g.start
            &&& g.end == range.end || exists|m: int|
                0 <= m < n && (#[trigger] entries[m]).end == g.end
            &&& n < entries.len() ==> entries[n].start > g.end
            &&& forall|m: int|
                0 <= m < n ==> (#[trigger] entries[m]).start <= range.end || exists|l: int|
                    0 <= l < m && entries[m].start <= (#[trigger] entries[l]).end
        }),
    decreases entries.len(),
{
    if entries.len() > 0 && entries[0].start <= range.end {
        let rest = entries.drop_first();
        let next = hull(range, entries[0]);
        lemma_grown_in_general(rest, next);
        let n = swallowed(entries, range) as int;
        let g = grown(entries, range);
        assert forall|m: int| 0 <= m < n implies g.start <= (#[trigger] entries[m]).start && g.end
            >= entries[m].end by {
            if m > 0 {
                assert(rest[m - 1] == entries[m]);
            }
        }
        if g.start != range.start {
            if g.start == next.start {
                assert(entries[0].start == g.start);
            } else {
                let m = choose|m: int| 0 <= m < n - 1 && (#[trigger] rest[m]).start == g.start;
                assert(entries[m + 1].start == g.start);
            }
        }
        if g.end != range.end {
            if g.end == next.end {
                assert(entries[0].end == g.end);
            } else {
                let m = choose|m: int| 0 <= m < n - 1 && (#[trigger] rest[m]).end == g.end;
                assert(entries[m + 1].end == g.end);
            }
        }
        if n < entries.len() {
            assert(rest[n - 1] == entries[n]);
        }
        assert forall|m: int| 0 <= m < n implies (#[trigger] entries[m]).start <= range.end
            || exists|l: int| 0 <= l < m && entries[m].start <= (#[trigger] entries[l]).end by {
            if m > 0 {
                assert(rest[m - 1] == entries[m]);
                if rest[m - 1].start <= next.end {
                    if entries[m].start > range.end {
                        assert(entries[m].start <= entries[0].end);
                    }
                } else {
                    let l = choose|l: int|
                        0 <= l < m - 1 && rest[m - 1].start <= (#[trigger] rest[l]).end;
                    assert(entries[m].start <= entries[l + 1].end);
                }
            }
        }
    }
}

/// How many leading entries end before a position, whatever the entries.
proof fn lemma_ending_before_in_general(entries: Seq<ProgressEntry>, start: u64)
    ensures
        ending_before(entries, start) <= entries.len(),
        forall|i: int|
            0 <= i < ending_before(entries, start) ==> (#[trigger] entries[i]).end < start,
        ending_before(entries, start) < entries.len() ==> entries[ending_before(
            entries,
            start,
        ) as int].end >= start,
    decreases entries.len(),
{
    if entries.len() > 0 && entries[0].end < start {
        let rest = entries.drop_first();
        lemma_ending_before_in_general(rest, start);
        assert forall|i: int| 0 <= i < ending_before(entries, start) implies (
        #[trigger] entries[i]).end < start by {
            if i > 0 {
                assert(rest[i - 1] == entries[i]);
            }
        }
    }
}

/// What adding a range does to any list, ordered or not, and also with a range
/// that runs backwards. The entries before the first that ends at the range's
/// start or later stay. If that one holds the range, nothing changes. Otherwise
/// the range and the entries from there that it reaches, directly or through one
/// another, become one entry, which spans from the smallest of their starts to the
/// largest of their ends; the entries after them stay. The result is where the
/// entries that become one begin and end.
pub proof fn law_merge_replaces_what_it_touches(
    entries: Seq<ProgressEntry>,
    new: ProgressEntry,
) -> (cut: (int, int))
    ensures
        ({
            let (i, j) = cut;
            let after = merged(entries, new);
            &&& 0 <= i <= j <= entries.len()
            &&& forall|k: int| 0 <= k < i ==> (#[trigger] entries[k]).end < new.start
            &&& i < entries.len() ==> entries[i].end >= new.start
            &&& if i < entries.len() && entries[i].start <= new.start && entries[i].end
                >= new.end {
                after == entries
            } else {
                &&& after.len() == entries.len() - (j - i) + 1
                &&& forall|k: int| 0 <= k < i ==> #[trigger] after[k] == entries[k]
                &&& forall|k: int|
                    i < k < after.len() ==> #[trigger] after[k] == entries[k + (j - i) - 1]
                &&& after[i].start <= new.start && after[i].end >= new.end
                &&& forall|m: int|
                    i <= m < j ==> after[i].start <= (#[trigger] entries[m]).start && after[i].end
                        >= entries[m].end
                &&& after[i].start == new.start || exists|m: int|
                    i <= m < j && (#[trigger] entries[m]).start == after[i].start
                &&& after[i].end == new.end || exists|m: int|
                    i <= m < j && (#[trigger] entries[m]).end == after[i].end
                &&& j < entries.len() ==> entries[j].start > after[i].end
                &&& forall|m: int|
                    i <= m < j ==> (#[trigger] entries[m]).start <= new.end || exists|l: int|
                        i <= l < m && entries[m].start <= (#[trigger] entries[l]).end
            }
        }),
{
    let i = ending_before(entries, new.start) as int;
    lemma_ending_before_in_general(entries, new.start);
    let tail = entries.skip(i);
    lemma_grown_in_general(tail, new);
    let n = swallowed(tail, new) as int;
    let g = grown(tail, new);
    let j = i + n;
    let after = merged(entries, new);
    if !(tail.len() > 0 && tail[0].start <= new.start && tail[0].end >= new.end) {
        assert(after[i] == g);
        assert forall|m: int| i <= m < j implies after[i].start <= (#[trigger] entries[m]).start
            && after[i].end >= entries[m].end by {
            assert(tail[m - i] == entries[m]);
        }
        if g.start != new.start {
            let m = choose|m: int| 0 <= m < n && (#[trigger] tail[m]).start == g.start;
            assert(entries[i + m].start == g.start);
        }
        if g.end != new.end {
            let m = choose|m: int| 0 <= m < n && (#[trigger] tail[m]).end == g.end;
            assert(entries[i + m].end == g.end);
        }
        if j < entries.len() {
            assert(tail[n] == entries[j]);
        }
        assert forall|m: int| i <= m < j implies (#[trigger] entries[m]).start <= new.end
            || exists|l: int| i <= l < m && entries[m].start <= (#[trigger] entries[l]).end by {
            assert(tail[m - i] == entries[m]);
            if entries[m].start > new.end {
                let l = choose|l: int|
                    0 <= l < m - i && tail[m - i].start <= (#[trigger] tail[l]).end;
                assert(entries[m].start <= entries[i + l].end);
            }
        }
    }
    (i, j)
}

} // verus!
