//! Which bytes of a file have arrived, as a list of half-open byte ranges.
use core::ops::Range;
use vstd::prelude::*;
use vstd::set_lib::*;

pub mod invert;
pub mod merge;

verus! {

/// A half-open byte range `[start, end)`.
pub type ProgressEntry = Range<u64>;

/// Whether byte `b` lies in `entry`.
pub open spec fn within(entry: ProgressEntry, b: int) -> bool {
    entry.start <= b < entry.end
}

/// Whether byte `b` lies in one of `entries`.
pub open spec fn covered(entries: Seq<ProgressEntry>, b: int) -> bool {
    exists|i: int| 0 <= i < entries.len() && within(#[trigger] entries[i], b)
}

/// The bytes that lie in one of `entries`.
pub open spec fn covered_bytes(entries: Seq<ProgressEntry>) -> Set<int> {
    Set::new(|b: int| covered(entries, b))
}

/// The shape that a progress list keeps: no entry runs backwards, the entries
/// ascend, and between two neighbours at least one byte is missing.
pub open spec fn ordered(entries: Seq<ProgressEntry>) -> bool {
    &&& forall|i: int| 0 <= i < entries.len() ==> (#[trigger] entries[i]).start <= entries[i].end
    &&& forall|i: int, j: int|
        0 <= i < j < entries.len() ==> (#[trigger] entries[i]).end < (#[trigger] entries[j]).start
}

/// The number of bytes in one range; a range that runs backwards has none.
pub open spec fn length(entry: ProgressEntry) -> nat {
    if entry.start <= entry.end {
        (entry.end - entry.start) as nat
    } else {
        0
    }
}

/// The lengths of all `entries`, added up.
pub open spec fn lengths(entries: Seq<ProgressEntry>) -> nat
    decreases entries.len(),
{
    if entries.len() == 0 {
        0
    } else {
        lengths(entries.drop_last()) + length(entries.last())
    }
}

/// How many bytes a range, or a list of ranges, stands for.
pub trait Total {
    /// The number of bytes, as a mathematical integer.
    spec fn byte_count(&self) -> nat;

    /// The number of bytes; a list counts a byte once per range it lies in.
    fn total(&self) -> (result: u64)
        requires
            self.byte_count() <= u64::MAX,
        ensures
            result == self.byte_count(),
    ;
}

impl Total for ProgressEntry {
    open spec fn byte_count(&self) -> nat {
        length(*self)
    }

    fn total(&self) -> (result: u64) {
        self.end.saturating_sub(self.start)
    }
}

impl Total for Vec<ProgressEntry> {
    open spec fn byte_count(&self) -> nat {
        lengths(self@)
    }

    fn total(&self) -> (result: u64) {
        let mut sum: u64 = 0;
        let mut i: usize = 0;
        while i < self.len()
            invariant
                i <= self.len(),
                sum == lengths(self@.take(i as int)),
                lengths(self@) <= u64::MAX,
            decreases self.len() - i,
        {
            proof {
                assert(self@.take(i + 1).drop_last() =~= self@.take(i as int));
                lemma_lengths_of_prefix(self@, i + 1);
            }
            sum = sum + self[i].total();
            i = i + 1;
        }
        assert(self@.take(self@.len() as int) =~= self@);
        sum
    }
}

/// The first entries of a list are no longer than the whole list.
proof fn lemma_lengths_of_prefix(entries: Seq<ProgressEntry>, n: int)
    requires
        0 <= n <= entries.len(),
    ensures
        lengths(entries.take(n)) <= lengths(entries),
    decreases entries.len(),
{
    if n == entries.len() {
        assert(entries.take(n) =~= entries);
    } else {
        assert(entries.take(n) =~= entries.drop_last().take(n));
        lemma_lengths_of_prefix(entries.drop_last(), n);
    }
}

/// On an ordered list `total` is the number of bytes that are covered, and
/// that number fits the machine.
pub proof fn law_total_counts_covered_bytes(entries: Seq<ProgressEntry>)
    requires
        ordered(entries),
    ensures
        covered_bytes(entries).finite(),
        covered_bytes(entries).len() == lengths(entries),
        lengths(entries) <= u64::MAX,
        entries.len() > 0 ==> lengths(entries) <= entries.last().end,
    decreases entries.len(),
{
    if entries.len() == 0 {
        assert(covered_bytes(entries) =~= Set::empty());
    } else {
        let front = entries.drop_last();
        let last = entries.last();
        assert(ordered(front));
        law_total_counts_covered_bytes(front);
        if front.len() > 0 {
            assert(front.last() == entries[entries.len() - 2]);
        }
        let bytes = set_int_range(last.start as int, last.end as int);
        lemma_int_range(last.start as int, last.end as int);
        assert(covered_bytes(entries) =~= covered_bytes(front) + bytes) by {
            assert forall|b: int| covered(entries, b) <==> #[trigger] covered(front, b) || within(
                last,
                b,
            ) by {
                lemma_covered_by_front_or_last(entries, b);
            }
        }
        assert(covered_bytes(front).disjoint(bytes)) by {
            assert forall|b: int| covered(front, b) implies !(#[trigger] within(last, b)) by {
                let i = choose|i: int| 0 <= i < front.len() && within(#[trigger] front[i], b);
                assert(entries[i].end < entries[entries.len() - 1].start);
            }
        }
        lemma_set_disjoint_lens(covered_bytes(front), bytes);
    }
}

/// A byte is covered by a list if it is by the last entry or by the others.
pub proof fn lemma_covered_by_front_or_last(entries: Seq<ProgressEntry>, b: int)
    requires
        entries.len() > 0,
    ensures
        covered(entries, b) <==> covered(entries.drop_last(), b) || within(entries.last(), b),
{
    let front = entries.drop_last();
    if covered(entries, b) {
        let i = choose|i: int| 0 <= i < entries.len() && within(#[trigger] entries[i], b);
        if i < front.len() {
            assert(within(front[i], b));
        }
    }
    if covered(front, b) {
        let i = choose|i: int| 0 <= i < front.len() && within(#[trigger] front[i], b);
        assert(within(entries[i], b));
    }
    if within(entries.last(), b) {
        assert(within(entries[entries.len() - 1], b));
    }
}

/// A list that covers more has the larger total; what was gained is the number
/// of bytes that were not covered before.
pub proof fn law_total_grows_with_coverage(
    before: Seq<ProgressEntry>,
    after: Seq<ProgressEntry>,
)
    requires
        ordered(before),
        ordered(after),
        forall|b: int| covered(before, b) ==> #[trigger] covered(after, b),
    ensures
        lengths(before) <= lengths(after),
        (covered_bytes(after) - covered_bytes(before)).finite(),
        (covered_bytes(after) - covered_bytes(before)).len() == lengths(after) - lengths(before),
{
    law_total_counts_covered_bytes(before);
    law_total_counts_covered_bytes(after);
    let gained = covered_bytes(after) - covered_bytes(before);
    lemma_len_difference(covered_bytes(after), covered_bytes(before));
    assert(gained.disjoint(covered_bytes(before)));
    assert(gained + covered_bytes(before) =~= covered_bytes(after));
    lemma_set_disjoint_lens(gained, covered_bytes(before));
}

/// The total of one range is the number of bytes that lie in it, also for a range
/// that runs backwards; and `total` of a range or of a list is that of its
/// entries.
pub proof fn law_total_of_one_range(entry: ProgressEntry, list: Vec<ProgressEntry>)
    ensures
        covered_bytes(seq![entry]).finite(),
        lengths(seq![entry]) == covered_bytes(seq![entry]).len(),
        entry.byte_count() == covered_bytes(seq![entry]).len(),
        list.byte_count() == lengths(list@),
{
    let one = seq![entry];
    assert(one.drop_last() =~= Seq::empty());
    assert(one.last() == entry);
    assert(lengths(one) == lengths(one.drop_last()) + length(entry));
    let high: int = if entry.start <= entry.end {
        entry.end as int
    } else {
        entry.start as int
    };
    lemma_int_range(entry.start as int, high);
    assert forall|b: int| #[trigger] covered(one, b) <==> within(entry, b) by {
        if within(entry, b) {
            assert(within(one[0], b));
        }
    }
    assert(covered_bytes(one) =~= set_int_range(entry.start as int, high));
}

/// The total of two lists one after the other is the sum of their totals.
pub proof fn law_total_adds_up(s: Seq<ProgressEntry>, t: Seq<ProgressEntry>)
    ensures
        lengths(s + t) == lengths(s) + lengths(t),
    decreases t.len(),
{
    if t.len() == 0 {
        assert(s + t =~= s);
    } else {
        law_total_adds_up(s, t.drop_last());
        assert((s + t).drop_last() =~= s + t.drop_last());
        assert((s + t).last() == t.last());
    }
}

} // verus!
