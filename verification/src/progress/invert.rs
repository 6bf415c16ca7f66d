//! The gaps that a progress list leaves.
use crate::progress::{covered, length, ordered, within, ProgressEntry};
use vstd::prelude::*;

verus! {

/// Where a gap that opens at `gap_start` comes to open, and the entries left,
/// once the entries that do not close it are passed over: one that starts
/// right where the gap opens moves the opening to its end, and one that is
/// shorter than `window` becomes part of the gap. The first other entry closes
/// the gap.
pub open spec fn open_gap(
    entries: Seq<ProgressEntry>,
    gap_start: u64,
    window: u64,
) -> (u64, Seq<ProgressEntry>)
    decreases entries.len(),
{
    if entries.len() == 0 {
        (gap_start, entries)
    } else if entries[0].start == gap_start {
        open_gap(entries.drop_first(), entries[0].end, window)
    } else if entries[0].end - entries[0].start >= window {
        (gap_start, entries)
    } else {
        open_gap(entries.drop_first(), gap_start, window)
    }
}

/// Whether no entry that is measured on the way to the end of the next gap runs
/// backwards.
pub open spec fn measurable(entries: Seq<ProgressEntry>, gap_start: u64, window: u64) -> bool
    decreases entries.len(),
{
    if entries.len() == 0 {
        true
    } else if entries[0].start == gap_start {
        measurable(entries.drop_first(), entries[0].end, window)
    } else {
        &&& entries[0].start <= entries[0].end
        &&& entries[0].end - entries[0].start < window ==> measurable(
            entries.drop_first(),
            gap_start,
            window,
        )
    }
}

/// The gap that opens at `gap_start` or later, if there is one below
/// `total_size` or before an entry that closes it.
pub open spec fn first_gap(
    entries: Seq<ProgressEntry>,
    gap_start: u64,
    total_size: u64,
    window: u64,
) -> Option<ProgressEntry> {
    let (start, rest) = open_gap(entries, gap_start, window);
    if rest.len() > 0 {
        Some(ProgressEntry { start, end: rest[0].start })
    } else if start < total_size {
        Some(ProgressEntry { start, end: total_size })
    } else {
        None
    }
}

/// All gaps that open at `gap_start` or later, in the order of the entries.
pub open spec fn gaps(
    entries: Seq<ProgressEntry>,
    gap_start: u64,
    total_size: u64,
    window: u64,
) -> Seq<ProgressEntry>
    decreases entries.len(),
{
    if entries.len() == 0 {
        if gap_start < total_size {
            seq![ProgressEntry { start: gap_start, end: total_size }]
        } else {
            Seq::empty()
        }
    } else if entries[0].start == gap_start {
        gaps(entries.drop_first(), entries[0].end, total_size, window)
    } else if entries[0].end - entries[0].start >= window {
        seq![ProgressEntry { start: gap_start, end: entries[0].start }] + gaps(
            entries.drop_first(),
            entries[0].end,
            total_size,
            window,
        )
    } else {
        gaps(entries.drop_first(), gap_start, total_size, window)
    }
}

/// Whether no entry that is measured on the way to the last gap runs backwards.
pub open spec fn all_measurable(entries: Seq<ProgressEntry>, gap_start: u64, window: u64) -> bool
    decreases entries.len(),
{
    if entries.len() == 0 {
        true
    } else if entries[0].start == gap_start {
        all_measurable(entries.drop_first(), entries[0].end, window)
    } else {
        &&& entries[0].start <= entries[0].end
        &&& all_measurable(
            entries.drop_first(),
            if entries[0].end - entries[0].start >= window {
                entries[0].end
            } else {
                gap_start
            },
            window,
        )
    }
}

/// Whether no entry that is measured on the way to the first `limit` gaps runs
/// backwards.
pub open spec fn measurable_for(
    entries: Seq<ProgressEntry>,
    gap_start: u64,
    window: u64,
    limit: nat,
) -> bool
    decreases entries.len(),
{
    if limit == 0 || entries.len() == 0 {
        true
    } else if entries[0].start == gap_start {
        measurable_for(entries.drop_first(), entries[0].end, window, limit)
    } else {
        &&& entries[0].start <= entries[0].end
        &&& if entries[0].end - entries[0].start >= window {
            measurable_for(entries.drop_first(), entries[0].end, window, (limit - 1) as nat)
        } else {
            measurable_for(entries.drop_first(), gap_start, window, limit)
        }
    }
}

/// Walks the gaps of a progress list, from the front.
pub struct InvertIter<'a> {
    entries: &'a [ProgressEntry],
    index: usize,
    prev_end: u64,
    total_size: u64,
    window: u64,
}

impl<'a> InvertIter<'a> {
    /// The entries that were not passed yet.
    pub closed spec fn rest(&self) -> Seq<ProgressEntry> {
        self.entries@.skip(self.index as int)
    }

    /// Where the next gap opens, unless an entry starts there.
    pub closed spec fn gap_start(&self) -> u64 {
        self.prev_end
    }

    /// Where the last gap closes.
    pub closed spec fn total_size(&self) -> u64 {
        self.total_size
    }

    /// The length from which an entry closes a gap.
    pub closed spec fn window(&self) -> u64 {
        self.window
    }

    /// Whether the position lies in the list.
    #[verifier::type_invariant]
    spec fn well_formed(&self) -> bool {
        self.index <= self.entries@.len()
    }

    /// The next gap. An entry that is shorter than the window is made part of the
    /// gap, unless the gap would open right where it starts. `None` ends the
    /// walk: it leaves no entries, and the opening where it was before the call.
    pub fn next(&mut self) -> (result: Option<ProgressEntry>)
        requires
            measurable(old(self).rest(), old(self).gap_start(), old(self).window()),
        ensures
            result == first_gap(
                old(self).rest(),
                old(self).gap_start(),
                old(self).total_size(),
                old(self).window(),
            ),
            ({
                let (start, rest) = open_gap(
                    old(self).rest(),
                    old(self).gap_start(),
                    old(self).window(),
                );
                &&& final(self).rest() == if rest.len() > 0 {
                    rest.drop_first()
                } else {
                    rest
                }
                &&& final(self).gap_start() == if rest.len() > 0 {
                    rest[0].end
                } else if start < old(self).total_size() {
                    old(self).total_size()
                } else {
                    old(self).gap_start()
                }
            }),
            final(self).total_size() == old(self).total_size(),
            final(self).window() == old(self).window(),
            ({
                let all = gaps(
                    old(self).rest(),
                    old(self).gap_start(),
                    old(self).total_size(),
                    old(self).window(),
                );
                let left = gaps(
                    final(self).rest(),
                    final(self).gap_start(),
                    final(self).total_size(),
                    final(self).window(),
                );
                match result {
                    Some(gap) => all == seq![gap] + left,
                    None => all.len() == 0 && final(self).rest().len() == 0
                        && final(self).gap_start() == old(self).gap_start(),
                }
            }),
    {
        proof {
            use_type_invariant(&*self);
        }
        let entries: &'a [ProgressEntry] = self.entries;
        let total_size: u64 = self.total_size;
        let window: u64 = self.window;
        let mut index: usize = self.index;
        let mut gap_start: u64 = self.prev_end;
        let ghost before = self.rest();
        let ghost prev_end = self.prev_end;
        while index < entries.len()
            invariant
                index <= entries@.len(),
                measurable(entries@.skip(index as int), gap_start, window),
                open_gap(entries@.skip(index as int), gap_start, window) == open_gap(
                    before,
                    prev_end,
                    window,
                ),
                self.entries == entries,
                self.prev_end == prev_end,
                self.total_size == total_size,
                self.window == window,
                before == old(self).rest(),
                prev_end == old(self).gap_start(),
                total_size == old(self).total_size(),
                window == old(self).window(),
            decreases entries.len() - index,
        {
            let ghost here = entries@.skip(index as int);
            assert(here.drop_first() =~= entries@.skip(index + 1));
            let start: u64 = entries[index].start;
            let end: u64 = entries[index].end;
            index = index + 1;
            if start == gap_start {
                gap_start = end;
                continue ;
            }
            if end - start >= window {
                self.index = index;
                self.prev_end = end;
                proof {
                    lemma_gaps_step(before, prev_end, total_size, window);
                }
                return Some(ProgressEntry { start: gap_start, end: start });
            }
        }
        assert(entries@.skip(index as int) =~= Seq::empty());
        self.index = index;
        proof {
            lemma_gaps_step(before, prev_end, total_size, window);
        }
        if gap_start < total_size {
            self.prev_end = total_size;
            Some(ProgressEntry { start: gap_start, end: total_size })
        } else {
            None
        }
    }

    /// The gaps up to the end of the walk, but no more than `limit` of them.
    pub fn take(self, limit: usize) -> (result: Vec<ProgressEntry>)
        requires
            measurable_for(self.rest(), self.gap_start(), self.window(), limit as nat),
        ensures
            ({
                let all = gaps(self.rest(), self.gap_start(), self.total_size(), self.window());
                result@ == all.take(if all.len() <= limit {
                    all.len() as int
                } else {
                    limit as int
                })
            }),
    {
        let mut walk: InvertIter<'a> = self;
        let mut found: Vec<ProgressEntry> = Vec::new();
        let ghost all = gaps(self.rest(), self.gap_start(), self.total_size(), self.window());
        while found.len() < limit
            invariant_except_break
                found.len() <= limit,
                measurable_for(
                    walk.rest(),
                    walk.gap_start(),
                    walk.window(),
                    (limit - found.len()) as nat,
                ),
                all == found@ + gaps(
                    walk.rest(),
                    walk.gap_start(),
                    walk.total_size(),
                    walk.window(),
                ),
            ensures
                found@ == all.take(if all.len() <= limit {
                    all.len() as int
                } else {
                    limit as int
                }),
            decreases limit - found.len(),
        {
            let ghost (rest, gap_start) = (walk.rest(), walk.gap_start());
            proof {
                lemma_gaps_step(rest, gap_start, walk.total_size(), walk.window());
                lemma_measurable_for_step(
                    rest,
                    gap_start,
                    walk.window(),
                    (limit - found.len()) as nat,
                );
            }
            match walk.next() {
                Some(gap) => {
                    found.push(gap);
                },
                None => {
                    assert(all =~= found@);
                    assert(all.take(all.len() as int) =~= all);
                    break ;
                },
            }
        }
        found
    }

    /// All gaps up to the end of the walk.
    pub fn collect(self) -> (result: Vec<ProgressEntry>)
        requires
            all_measurable(self.rest(), self.gap_start(), self.window()),
        ensures
            result@ == gaps(self.rest(), self.gap_start(), self.total_size(), self.window()),
    {
        let mut walk: InvertIter<'a> = self;
        let mut found: Vec<ProgressEntry> = Vec::new();
        let ghost all = gaps(self.rest(), self.gap_start(), self.total_size(), self.window());
        loop
            invariant_except_break
                all_measurable(walk.rest(), walk.gap_start(), walk.window()),
                all == found@ + gaps(
                    walk.rest(),
                    walk.gap_start(),
                    walk.total_size(),
                    walk.window(),
                ),
            ensures
                found@ == all,
            decreases all.len() - found.len(),
        {
            let ghost (rest, gap_start) = (walk.rest(), walk.gap_start());
            proof {
                lemma_gaps_step(rest, gap_start, walk.total_size(), walk.window());
                lemma_all_measurable_step(rest, gap_start, walk.window());
            }
            match walk.next() {
                Some(gap) => {
                    found.push(gap);
                },
                None => {
                    assert(all =~= found@);
                    break ;
                },
            }
        }
        found
    }
}

/// The gaps of `progress` below `total_size`. An entry that is shorter than
/// `window` is made part of the gap around it, which keeps the number of gaps
/// down.
pub fn invert<'a>(progress: &'a [ProgressEntry], total_size: u64, window: u64) -> (result:
    InvertIter<'a>)
    ensures
        result.rest() == progress@,
        result.gap_start() == 0,
        result.total_size() == total_size,
        result.window() == window,
{
    let result = InvertIter { entries: progress, index: 0, prev_end: 0, total_size, window };
    assert(result.rest() =~= progress@);
    result
}

/// The first gap comes before the gaps that follow it.
proof fn lemma_gaps_step(
    entries: Seq<ProgressEntry>,
    gap_start: u64,
    total_size: u64,
    window: u64,
)
    ensures
        ({
            let all = gaps(entries, gap_start, total_size, window);
            let (start, rest) = open_gap(entries, gap_start, window);
            match first_gap(entries, gap_start, total_size, window) {
                Some(gap) => if rest.len() > 0 {
                    all == seq![gap] + gaps(rest.drop_first(), rest[0].end, total_size, window)
                } else {
                    &&& all == seq![gap]
                    &&& gaps(rest, total_size, total_size, window) == Seq::<ProgressEntry>::empty()
                },
                None => all == Seq::<ProgressEntry>::empty(),
            }
        }),
    decreases entries.len(),
{
    if entries.len() > 0 {
        if entries[0].start == gap_start {
            lemma_gaps_step(entries.drop_first(), entries[0].end, total_size, window);
        } else if entries[0].end - entries[0].start < window {
            lemma_gaps_step(entries.drop_first(), gap_start, total_size, window);
        }
    }
}

/// What is measured for the first gap is measured for the first `limit` gaps,
/// and so is what is measured for the gaps that follow it.
proof fn lemma_measurable_for_step(
    entries: Seq<ProgressEntry>,
    gap_start: u64,
    window: u64,
    limit: nat,
)
    requires
        limit > 0,
        measurable_for(entries, gap_start, window, limit),
    ensures
        measurable(entries, gap_start, window),
        ({
            let (start, rest) = open_gap(entries, gap_start, window);
            rest.len() > 0 ==> measurable_for(
                rest.drop_first(),
                rest[0].end,
                window,
                (limit - 1) as nat,
            )
        }),
    decreases entries.len(),
{
    if entries.len() > 0 {
        if entries[0].start == gap_start {
            lemma_measurable_for_step(entries.drop_first(), entries[0].end, window, limit);
        } else if entries[0].end - entries[0].start < window {
            lemma_measurable_for_step(entries.drop_first(), gap_start, window, limit);
        }
    }
}

/// What is measured for the first gap, or for the gaps that follow it, is
/// measured for all gaps.
proof fn lemma_all_measurable_step(entries: Seq<ProgressEntry>, gap_start: u64, window: u64)
    requires
        all_measurable(entries, gap_start, window),
    ensures
        measurable(entries, gap_start, window),
        ({
            let (start, rest) = open_gap(entries, gap_start, window);
            rest.len() > 0 ==> all_measurable(rest.drop_first(), rest[0].end, window)
        }),
    decreases entries.len(),
{
    if entries.len() > 0 {
        if entries[0].start == gap_start {
            lemma_all_measurable_step(entries.drop_first(), entries[0].end, window);
        } else if entries[0].end - entries[0].start < window {
            lemma_all_measurable_step(entries.drop_first(), gap_start, window);
        }
    }
}

/// What is measured for some gaps is measured for all.
pub proof fn lemma_all_measurable(
    entries: Seq<ProgressEntry>,
    gap_start: u64,
    window: u64,
    limit: nat,
)
    requires
        all_measurable(entries, gap_start, window),
    ensures
        measurable_for(entries, gap_start, window, limit),
    decreases entries.len(),
{
    if limit > 0 && entries.len() > 0 {
        if entries[0].start == gap_start {
            lemma_all_measurable(entries.drop_first(), entries[0].end, window, limit);
        } else if entries[0].end - entries[0].start >= window {
            lemma_all_measurable(
                entries.drop_first(),
                entries[0].end,
                window,
                (limit - 1) as nat,
            );
        } else {
            lemma_all_measurable(entries.drop_first(), gap_start, window, limit);
        }
    }
}

/// Whether `position` is where one of `entries` ends.
spec fn ends_at(entries: Seq<ProgressEntry>, position: u64) -> bool {
    exists|i: int| 0 <= i < entries.len() && (#[trigger] entries[i]).end == position
}

/// What holds of the gaps that open at `gap_start` or later.
spec fn gaps_hold(
    entries: Seq<ProgressEntry>,
    gap_start: u64,
    total_size: u64,
    window: u64,
    found: Seq<ProgressEntry>,
) -> bool {
    &&& forall|k: int|
        0 <= k < found.len() ==> {
            &&& gap_start <= (#[trigger] found[k]).start < found[k].end
            &&& found[k].start == gap_start || ends_at(entries, found[k].start)
            &&& !covered(entries, found[k].start as int)
        }
    &&& forall|k: int, m: int|
        0 <= k < m < found.len() ==> (#[trigger] found[k]).end <= (#[trigger] found[m]).start
    &&& forall|b: int|
        gap_start <= b < total_size && !covered(entries, b) ==> #[trigger] covered(found, b)
    &&& forall|i: int, b: int|
        0 <= i < entries.len() && length(entries[i]) >= window && #[trigger] within(entries[i], b)
            ==> !covered(found, b)
    &&& forall|i: int, b: int|
        0 <= i < entries.len() && entries[i].start > gap_start && length(entries[i]) < window
            && b < total_size && #[trigger] within(entries[i], b) ==> covered(found, b)
    &&& (forall|i: int| 0 <= i < entries.len() ==> (#[trigger] entries[i]).end <= total_size)
        ==> forall|k: int| 0 <= k < found.len() ==> (#[trigger] found[k]).end <= total_size
}

/// The gaps of ascending entries that start at `gap_start` or later.
proof fn lemma_gaps(entries: Seq<ProgressEntry>, gap_start: u64, total_size: u64, window: u64)
    requires
        ordered(entries),
        forall|i: int| 0 <= i < entries.len() ==> gap_start <= (#[trigger] entries[i]).start,
    ensures
        all_measurable(entries, gap_start, window),
        gaps_hold(
            entries,
            gap_start,
            total_size,
            window,
            gaps(entries, gap_start, total_size, window),
        ),
    decreases entries.len(),
{
    let found = gaps(entries, gap_start, total_size, window);
    if entries.len() == 0 {
        if gap_start < total_size {
            assert forall|b: int|
                gap_start <= b < total_size && !covered(entries, b) implies #[trigger] covered(
                found,
                b,
            ) by {
                assert(within(found[0], b));
            }
        }
    } else {
        let rest = entries.drop_first();
        let first = entries[0];
        let closes = first.start != gap_start && first.end - first.start >= window;
        let passes = first.start != gap_start && !closes;
        let opening: u64 = if passes {
            gap_start
        } else {
            first.end
        };
        assert forall|i: int| 0 <= i < rest.len() implies opening <= (#[trigger] rest[i]).start by {
            assert(rest[i] == entries[i + 1]);
        }
        lemma_gaps(rest, opening, total_size, window);
        let later = gaps(rest, opening, total_size, window);
        let shift: int = if closes {
            1
        } else {
            0
        };
        assert(found.len() == later.len() + shift);
        assert forall|k: int| shift <= k < found.len() implies #[trigger] found[k] == later[k
            - shift] by {}
        assert forall|b: int| #[trigger]
            covered(entries, b) <==> within(first, b) || covered(rest, b) by {
            lemma_covered_by_first_or_rest(entries, b);
        }
        assert forall|b: int| #[trigger] covered(found, b) <==> covered(later, b) || (closes
            && within(found[0], b)) by {
            if closes {
                assert(found.drop_first() =~= later);
                lemma_covered_by_first_or_rest(found, b);
            }
        }
        assert forall|k: int| 0 <= k < found.len() implies {
            &&& gap_start <= (#[trigger] found[k]).start < found[k].end
            &&& found[k].start == gap_start || ends_at(entries, found[k].start)
            &&& !covered(entries, found[k].start as int)
        } by {
            if k >= shift {
                assert(found[k] == later[k - shift]);
                if ends_at(rest, found[k].start) {
                    let i = choose|i: int|
                        0 <= i < rest.len() && (#[trigger] rest[i]).end == found[k].start;
                    assert(entries[i + 1].end == found[k].start);
                    assert(first.end < entries[i + 1].start);
                } else if !passes {
                    assert(entries[0].end == found[k].start);
                }
            } else {
                assert forall|i: int| 0 <= i < rest.len() implies !within(
                    #[trigger] rest[i],
                    gap_start as int,
                ) by {
                    assert(rest[i] == entries[i + 1]);
                }
            }
        }
        assert forall|k: int, m: int| 0 <= k < m < found.len() implies (#[trigger] found[k]).end
            <= (#[trigger] found[m]).start by {
            if k >= shift {
                assert(later[k - shift].end <= later[m - shift].start);
            } else {
                assert(found[m] == later[m - shift]);
            }
        }
        assert forall|b: int|
            gap_start <= b < total_size && !covered(entries, b) implies #[trigger] covered(
            found,
            b,
        ) by {
            if !(opening <= b) {
                assert(closes && within(found[0], b));
            } else {
                assert(covered(later, b));
            }
        }
        assert forall|i: int, b: int|
            0 <= i < entries.len() && length(entries[i]) >= window && #[trigger] within(
                entries[i],
                b,
            ) implies !covered(found, b) by {
            if i > 0 {
                assert(entries[i] == rest[i - 1]);
                assert(within(rest[i - 1], b));
                assert(!covered(later, b));
            } else if covered(later, b) {
                let k = choose|k: int| 0 <= k < later.len() && within(#[trigger] later[k], b);
                assert(later[k].start >= opening);
            }
        }
        assert forall|i: int, b: int|
            0 <= i < entries.len() && entries[i].start > gap_start && length(entries[i]) < window
                && b < total_size && #[trigger] within(entries[i], b) implies covered(
            found,
            b,
        ) by {
            if i > 0 {
                assert(entries[i] == rest[i - 1]);
                assert(first.end < entries[i].start);
                assert(within(rest[i - 1], b));
                assert(covered(later, b));
            } else {
                assert forall|j: int| 0 <= j < rest.len() implies !within(
                    #[trigger] rest[j],
                    b,
                ) by {
                    assert(rest[j] == entries[j + 1]);
                }
                assert(covered(later, b));
            }
        }
        assert((forall|i: int| 0 <= i < entries.len() ==> (#[trigger] entries[i]).end
            <= total_size) ==> forall|k: int|
            0 <= k < found.len() ==> (#[trigger] found[k]).end <= total_size) by {
            if forall|i: int|
                0 <= i < entries.len() ==> (#[trigger] entries[i]).end <= total_size {
                assert forall|i: int| 0 <= i < rest.len() implies (#[trigger] rest[i]).end
                    <= total_size by {
                    assert(rest[i] == entries[i + 1]);
                }
                assert(first.end <= total_size);
                assert forall|k: int| 0 <= k < found.len() implies (#[trigger] found[k]).end
                    <= total_size by {
                    if k >= shift {
                        assert(found[k] == later[k - shift]);
                    }
                }
            }
        }
    }
}

/// A byte is covered by a list if it is by the first entry or by the others.
proof fn lemma_covered_by_first_or_rest(entries: Seq<ProgressEntry>, b: int)
    requires
        entries.len() > 0,
    ensures
        covered(entries, b) <==> within(entries[0], b) || covered(entries.drop_first(), b),
{
    let rest = entries.drop_first();
    if covered(entries, b) {
        let i = choose|i: int| 0 <= i < entries.len() && within(#[trigger] entries[i], b);
        if i > 0 {
            assert(within(rest[i - 1], b));
        }
    }
    if covered(rest, b) {
        let i = choose|i: int| 0 <= i < rest.len() && within(#[trigger] rest[i], b);
        assert(within(entries[i + 1], b));
    }
}

/// The gaps of an ordered list: they ascend, none is empty, each opens with a
/// missing byte, together they hold every missing byte below `total_size`, none
/// of them holds a byte of an entry as long as `window`, and a shorter entry that
/// does not start the file is part of a gap. They stay below `total_size` if the
/// list does.
pub proof fn law_gaps_of_ordered_list(
    entries: Seq<ProgressEntry>,
    total_size: u64,
    window: u64,
)
    requires
        ordered(entries),
    ensures
        all_measurable(entries, 0, window),
        ({
            let found = gaps(entries, 0, total_size, window);
            &&& forall|k: int|
                0 <= k < found.len() ==> (#[trigger] found[k]).start < found[k].end && !covered(
                    entries,
                    found[k].start as int,
                )
            &&& forall|k: int, m: int|
                0 <= k < m < found.len() ==> (#[trigger] found[k]).end
                    <= (#[trigger] found[m]).start
            &&& forall|b: int|
                0 <= b < total_size && !covered(entries, b) ==> #[trigger] covered(found, b)
            &&& forall|i: int, b: int|
                0 <= i < entries.len() && length(entries[i]) >= window && #[trigger] within(
                    entries[i],
                    b,
                ) ==> !covered(found, b)
            &&& forall|i: int, b: int|
                0 <= i < entries.len() && entries[i].start > 0 && length(entries[i]) < window && b
                    < total_size && #[trigger] within(entries[i], b) ==> covered(found, b)
            &&& (forall|i: int|
                0 <= i < entries.len() ==> (#[trigger] entries[i]).end <= total_size)
                ==> forall|k: int|
                0 <= k < found.len() ==> (#[trigger] found[k]).end <= total_size
        }),
{
    lemma_gaps(entries, 0, total_size, window);
}

/// Without a window the gaps of an ordered list hold exactly the bytes below
/// `total_size` that the list lacks.
pub proof fn law_gaps_are_the_missing_bytes(entries: Seq<ProgressEntry>, total_size: u64, b: int)
    requires
        ordered(entries),
        forall|i: int| 0 <= i < entries.len() ==> (#[trigger] entries[i]).end <= total_size,
    ensures
        covered(gaps(entries, 0, total_size, 0), b) <==> 0 <= b < total_size && !covered(
            entries,
            b,
        ),
{
    let found = gaps(entries, 0, total_size, 0);
    lemma_gaps(entries, 0, total_size, 0);
    if covered(found, b) {
        let k = choose|k: int| 0 <= k < found.len() && within(#[trigger] found[k], b);
        if covered(entries, b) {
            let i = choose|i: int| 0 <= i < entries.len() && within(#[trigger] entries[i], b);
            assert(length(entries[i]) >= 0);
            assert(!covered(found, b));
        }
    }
}

/// Whatever the window: if there is no gap, every byte below `total_size` is
/// covered; and if every byte is, and the list stays below `total_size`, there is
/// no gap.
pub proof fn law_no_gap_means_complete(
    entries: Seq<ProgressEntry>,
    total_size: u64,
    window: u64,
)
    requires
        ordered(entries),
    ensures
        measurable(entries, 0, window),
        first_gap(entries, 0, total_size, window) is None <==> gaps(
            entries,
            0,
            total_size,
            window,
        ).len() == 0,
        first_gap(entries, 0, total_size, window) is None ==> forall|b: int|
            0 <= b < total_size ==> #[trigger] covered(entries, b),
        (forall|b: int| 0 <= b < total_size ==> #[trigger] covered(entries, b)) && (forall|i: int|
            0 <= i < entries.len() ==> (#[trigger] entries[i]).end <= total_size) ==> first_gap(
            entries,
            0,
            total_size,
            window,
        ) is None,
{
    let found = gaps(entries, 0, total_size, window);
    lemma_gaps(entries, 0, total_size, window);
    lemma_gaps_step(entries, 0, total_size, window);
    lemma_all_measurable_step(entries, 0, window);
    if found.len() == 0 {
        assert forall|b: int| 0 <= b < total_size implies #[trigger] covered(entries, b) by {
            assert(!covered(found, b));
        }
    } else {
        assert(found[0].start < found[0].end);
        assert(!covered(entries, found[0].start as int));
    }
}

/// Whether byte `b` lies in an entry that no gap holds: one that starts right at
/// `gap_start`, or one as long as `window`.
spec fn kept_out(entries: Seq<ProgressEntry>, gap_start: u64, window: u64, b: int) -> bool {
    exists|i: int|
        0 <= i < entries.len() && within(#[trigger] entries[i], b) && (entries[i].start == gap_start
            || length(entries[i]) >= window)
}

/// Whether an entry as long as `window` starts after byte `b`.
spec fn closed_later(entries: Seq<ProgressEntry>, window: u64, b: int) -> bool {
    exists|i: int|
        0 <= i < entries.len() && length(#[trigger] entries[i]) >= window && b < entries[i].start
}

/// Which bytes the gaps of ascending entries hold that start at `gap_start` or
/// later.
proof fn lemma_gap_bytes(
    entries: Seq<ProgressEntry>,
    gap_start: u64,
    total_size: u64,
    window: u64,
    b: int,
)
    requires
        ordered(entries),
        forall|i: int| 0 <= i < entries.len() ==> gap_start <= (#[trigger] entries[i]).start,
    ensures
        covered(gaps(entries, gap_start, total_size, window), b) <==> {
            &&& gap_start <= b
            &&& b < total_size || closed_later(entries, window, b)
            &&& !kept_out(entries, gap_start, window, b)
        },
    decreases entries.len(),
{
    let found = gaps(entries, gap_start, total_size, window);
    if entries.len() == 0 {
        if gap_start <= b < total_size {
            assert(within(found[0], b));
        }
    } else {
        let rest = entries.drop_first();
        let first = entries[0];
        let closes = first.start != gap_start && first.end - first.start >= window;
        let passes = first.start != gap_start && !closes;
        let opening: u64 = if passes {
            gap_start
        } else {
            first.end
        };
        assert forall|i: int| 0 <= i < rest.len() implies opening <= (#[trigger] rest[i]).start && (
        !passes ==> opening < rest[i].start) by {
            assert(rest[i] == entries[i + 1]);
        }
        lemma_gap_bytes(rest, opening, total_size, window, b);
        if closes {
            assert(found.drop_first() =~= gaps(rest, opening, total_size, window));
            lemma_covered_by_first_or_rest(found, b);
        }
        assert(closed_later(entries, window, b) <==> closed_later(rest, window, b) || (length(first)
            >= window && b < first.start)) by {
            if closed_later(entries, window, b) {
                let i = choose|i: int|
                    0 <= i < entries.len() && length(#[trigger] entries[i]) >= window && b
                        < entries[i].start;
                if i > 0 {
                    assert(rest[i - 1] == entries[i]);
                }
            }
            if closed_later(rest, window, b) {
                let i = choose|i: int|
                    0 <= i < rest.len() && length(#[trigger] rest[i]) >= window && b
                        < rest[i].start;
                assert(entries[i + 1] == rest[i]);
            }
            assert(entries[0] == first);
        }
        assert(kept_out(entries, gap_start, window, b) <==> (within(first, b) && !passes) || (
        opening <= b && kept_out(rest, opening, window, b))) by {
            if kept_out(entries, gap_start, window, b) {
                let i = choose|i: int|
                    0 <= i < entries.len() && within(#[trigger] entries[i], b) && (
                    entries[i].start == gap_start || length(entries[i]) >= window);
                if i > 0 {
                    assert(rest[i - 1] == entries[i]);
                    assert(first.end < entries[i].start);
                }
            }
            if kept_out(rest, opening, window, b) {
                let i = choose|i: int|
                    0 <= i < rest.len() && within(#[trigger] rest[i], b) && (rest[i].start
                        == opening || length(rest[i]) >= window);
                assert(entries[i + 1] == rest[i]);
                assert(first.end < entries[i + 1].start);
            }
            assert(entries[0] == first);
        }
        if gap_start <= b < first.start {
            assert forall|i: int| 0 <= i < rest.len() implies !within(#[trigger] rest[i], b) by {
                assert(rest[i] == entries[i + 1]);
            }
        }
    }
}

/// Exactly which bytes the gaps of an ordered list hold: those that lie below
/// `total_size`, or before an entry as long as `window`, and that lie neither in
/// such an entry nor in the one that starts the file.
pub proof fn law_gap_bytes(entries: Seq<ProgressEntry>, total_size: u64, window: u64, b: int)
    requires
        ordered(entries),
    ensures
        covered(gaps(entries, 0, total_size, window), b) <==> {
            &&& 0 <= b
            &&& b < total_size || exists|i: int|
                0 <= i < entries.len() && length(#[trigger] entries[i]) >= window && b
                    < entries[i].start
            &&& !exists|i: int|
                0 <= i < entries.len() && within(#[trigger] entries[i], b) && (entries[i].start == 0
                    || length(entries[i]) >= window)
        },
{
    lemma_gap_bytes(entries, 0, total_size, window, b);
}

/// What holds of the edges of the gaps that open at `gap_start` or later.
spec fn edges_hold(
    entries: Seq<ProgressEntry>,
    gap_start: u64,
    total_size: u64,
    window: u64,
    found: Seq<ProgressEntry>,
) -> bool {
    &&& forall|k: int|
        0 <= k < found.len() ==> gap_start <= (#[trigger] found[k]).start && (found[k].start
            == gap_start || ends_at(entries, found[k].start))
    &&& forall|k: int|
        0 <= k < found.len() ==> (#[trigger] found[k]).end == total_size || exists|i: int|
            0 <= i < entries.len() && length(#[trigger] entries[i]) >= window && entries[i].start
                == found[k].end
    &&& forall|k: int, i: int|
        0 <= k < found.len() && 0 <= i < entries.len() && length(#[trigger] entries[i]) >= window
            ==> !((#[trigger] found[k]).start < entries[i].start < found[k].end)
}

/// The edges of the gaps of ascending entries that start at `gap_start` or later.
proof fn lemma_gap_edges(entries: Seq<ProgressEntry>, gap_start: u64, total_size: u64, window: u64)
    requires
        ordered(entries),
        forall|i: int| 0 <= i < entries.len() ==> gap_start <= (#[trigger] entries[i]).start,
    ensures
        edges_hold(
            entries,
            gap_start,
            total_size,
            window,
            gaps(entries, gap_start, total_size, window),
        ),
    decreases entries.len(),
{
    let found = gaps(entries, gap_start, total_size, window);
    if entries.len() > 0 {
        let rest = entries.drop_first();
        let first = entries[0];
        let closes = first.start != gap_start && first.end - first.start >= window;
        let passes = first.start != gap_start && !closes;
        let opening: u64 = if passes {
            gap_start
        } else {
            first.end
        };
        assert forall|i: int| 0 <= i < rest.len() implies opening <= (#[trigger] rest[i]).start by {
            assert(rest[i] == entries[i + 1]);
        }
        lemma_gap_edges(rest, opening, total_size, window);
        let later = gaps(rest, opening, total_size, window);
        let shift: int = if closes {
            1
        } else {
            0
        };
        assert forall|k: int| shift <= k < found.len() implies #[trigger] found[k] == later[k
            - shift] by {}
        assert forall|k: int| 0 <= k < found.len() implies gap_start <= (#[trigger] found[k]).start
            && (found[k].start == gap_start || ends_at(entries, found[k].start)) by {
            if k >= shift {
                assert(found[k] == later[k - shift]);
                if ends_at(rest, found[k].start) {
                    let i = choose|i: int|
                        0 <= i < rest.len() && (#[trigger] rest[i]).end == found[k].start;
                    assert(entries[i + 1].end == found[k].start);
                } else if !passes {
                    assert(entries[0].end == found[k].start);
                }
            }
        }
        assert forall|k: int| 0 <= k < found.len() implies (#[trigger] found[k]).end == total_size
            || exists|i: int|
            0 <= i < entries.len() && length(#[trigger] entries[i]) >= window && entries[i].start
                == found[k].end by {
            if k >= shift {
                assert(found[k] == later[k - shift]);
                if found[k].end != total_size {
                    let i = choose|i: int|
                        0 <= i < rest.len() && length(#[trigger] rest[i]) >= window && rest[i].start
                            == found[k].end;
                    assert(entries[i + 1] == rest[i]);
                }
            } else {
                assert(length(entries[0]) >= window);
            }
        }
        assert forall|k: int, i: int|
            0 <= k < found.len() && 0 <= i < entries.len() && length(#[trigger] entries[i])
                >= window implies !((#[trigger] found[k]).start < entries[i].start
            < found[k].end) by {
            if k >= shift {
                assert(found[k] == later[k - shift]);
                if i > 0 {
                    assert(rest[i - 1] == entries[i]);
                } else {
                    assert(later[k - shift].start >= opening);
                }
            } else if i > 0 {
                assert(first.end < entries[i].start);
            }
        }
    }
}

/// The gaps of an ordered list are as long as they can be: each opens at the start
/// of the file or where an entry ends, each closes at `total_size` or where an
/// entry as long as `window` starts, and no such entry, be it empty, starts inside
/// of one.
pub proof fn law_gaps_run_from_entry_to_entry(
    entries: Seq<ProgressEntry>,
    total_size: u64,
    window: u64,
)
    requires
        ordered(entries),
    ensures
        ({
            let found = gaps(entries, 0, total_size, window);
            &&& forall|k: int|
                0 <= k < found.len() ==> (#[trigger] found[k]).start == 0 || exists|i: int|
                    0 <= i < entries.len() && (#[trigger] entries[i]).end == found[k].start
            &&& forall|k: int|
                0 <= k < found.len() ==> (#[trigger] found[k]).end == total_size || exists|i: int|
                    0 <= i < entries.len() && length(#[trigger] entries[i]) >= window
                        && entries[i].start == found[k].end
            &&& forall|k: int, i: int|
                0 <= k < found.len() && 0 <= i < entries.len() && length(#[trigger] entries[i])
                    >= window ==> !((#[trigger] found[k]).start < entries[i].start < found[k].end)
        }),
{
    lemma_gap_edges(entries, 0, total_size, window);
    let found = gaps(entries, 0, total_size, window);
    assert forall|k: int| 0 <= k < found.len() implies (#[trigger] found[k]).start == 0
        || exists|i: int|
        0 <= i < entries.len() && (#[trigger] entries[i]).end == found[k].start by {
        assert(found[k].start == 0 || ends_at(entries, found[k].start));
    }
}

/// How the gaps of any list, ordered or not, change when an entry is put in front
/// of it: an entry right where the gaps open moves the opening to its end, a
/// shorter one than `window` changes nothing, and any other closes a gap.
pub proof fn law_gaps_of_longer_list(
    first: ProgressEntry,
    rest: Seq<ProgressEntry>,
    gap_start: u64,
    total_size: u64,
    window: u64,
)
    ensures
        ({
            let found = gaps(seq![first] + rest, gap_start, total_size, window);
            let later = gaps(rest, first.end, total_size, window);
            &&& first.start == gap_start ==> found == later
            &&& first.start != gap_start && first.end < first.start + window ==> found == gaps(
                rest,
                gap_start,
                total_size,
                window,
            )
            &&& first.start != gap_start && first.end >= first.start + window ==> {
                &&& found.len() == later.len() + 1
                &&& found[0].start == gap_start && found[0].end == first.start
                &&& forall|k: int| 0 < k < found.len() ==> #[trigger] found[k] == later[k - 1]
            }
        }),
        ({
            let found = gaps(Seq::empty(), gap_start, total_size, window);
            &&& found.len() == if gap_start < total_size {
                1int
            } else {
                0int
            }
            &&& gap_start < total_size ==> found[0].start == gap_start && found[0].end
                == total_size
        }),
{
    assert((seq![first] + rest).drop_first() =~= rest);
}

/// The gap that the walk finds next is the first of its gaps, if there is one.
pub proof fn law_next_gap_is_the_first(
    entries: Seq<ProgressEntry>,
    gap_start: u64,
    total_size: u64,
    window: u64,
)
    ensures
        ({
            let all = gaps(entries, gap_start, total_size, window);
            &&& all.len() == 0 ==> first_gap(entries, gap_start, total_size, window) is None
            &&& all.len() > 0 ==> first_gap(entries, gap_start, total_size, window) == Some(all[0])
        }),
{
    lemma_gaps_step(entries, gap_start, total_size, window);
}

/// A list of which no entry runs backwards can be walked.
pub proof fn law_forward_entries_are_measurable(
    entries: Seq<ProgressEntry>,
    gap_start: u64,
    window: u64,
    limit: nat,
)
    requires
        forall|i: int| 0 <= i < entries.len() ==> (#[trigger] entries[i]).start <= entries[i].end,
    ensures
        measurable(entries, gap_start, window),
        all_measurable(entries, gap_start, window),
        measurable_for(entries, gap_start, window, limit),
    decreases entries.len(),
{
    if entries.len() > 0 {
        let rest = entries.drop_first();
        assert(entries[0].start <= entries[0].end);
        assert forall|i: int| 0 <= i < rest.len() implies (#[trigger] rest[i]).start
            <= rest[i].end by {
            assert(rest[i] == entries[i + 1]);
        }
        law_forward_entries_are_measurable(rest, gap_start, window, limit);
        law_forward_entries_are_measurable(rest, entries[0].end, window, limit);
    }
    lemma_all_measurable(entries, gap_start, window, limit);
}

} // verus!
