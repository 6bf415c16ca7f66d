use fsend::progress::invert::invert;
use fsend::progress::merge::Merge;
use fsend::progress::{ProgressEntry, Total};

fn invert_vec(progress: &[ProgressEntry], total_size: u64, window: u64) -> Vec<ProgressEntry> {
    invert(progress, total_size, window).collect()
}

#[test]
#[allow(clippy::single_range_in_vec_init)]
fn test_windowed_invert() {
    assert_eq!(invert_vec(&[10..20], 30, 1), [0..10, 20..30]);
    assert_eq!(invert_vec(&[10..12], 30, 5), [0..30]);
    assert_eq!(invert_vec(&[10..20, 25..27], 30, 5), [0..10, 20..30]);
    assert_eq!(invert_vec(&[10..14, 25..27, 30..32], 50, 5), [0..50]);
    assert_eq!(invert_vec(&[10..14, 25..49], 50, 5), [0..25, 49..50]);
    assert_eq!(invert_vec(&[2..4, 6..8, 10..12], 15, 5), [0..15]);
    assert_eq!(invert_vec(&[0..2, 10..20], 30, 5), [2..10, 20..30]);
}

#[test]
fn test_merge() {
    #[allow(clippy::single_range_in_vec_init)]
    let mut v = vec![1..5, 8..10];
    v.merge_progress(5..10);
    assert_eq!(v, vec![1..10]);
    v.merge_progress(10..20);
    assert_eq!(v, vec![1..20]);
    v.merge_progress(30..40);
    assert_eq!(v, vec![1..20, 30..40]);
    v.merge_progress(21..40);
    assert_eq!(v, vec![1..20, 21..40]);
    v.merge_progress(19..21);
    assert_eq!(v, vec![1..40]);
    v.merge_progress(50..60);
    assert_eq!(v, vec![1..40, 50..60]);
    v.merge_progress(50..60);
    assert_eq!(v, vec![1..40, 50..60]);
    v.merge_progress(52..60);
    assert_eq!(v, vec![1..40, 50..60]);
    v.merge_progress(52..53);
    assert_eq!(v, vec![1..40, 50..60]);
    v.merge_progress(52..61);
    assert_eq!(v, vec![1..40, 50..61]);
    v.merge_progress(62..70);
    assert_eq!(v, vec![1..40, 50..61, 62..70]);
    v.merge_progress(40..62);
    assert_eq!(v, vec![1..70]);
}

#[test]
fn merge_into_an_empty_list() {
    let mut v: Vec<ProgressEntry> = Vec::new();
    v.merge_progress(10..20);
    assert_eq!(v, vec![10..20]);
}

#[test]
fn merge_before_and_between() {
    let mut v = vec![6..10, 20..25];
    v.merge_progress(1..5);
    assert_eq!(v, vec![1..5, 6..10, 20..25]);
    v.merge_progress(12..15);
    assert_eq!(v, vec![1..5, 6..10, 12..15, 20..25]);
}

#[test]
fn merge_swallows_everything_inside() {
    let mut v = vec![2..3, 5..6, 8..9, 20..30];
    v.merge_progress(0..10);
    assert_eq!(v, vec![0..10, 20..30]);
}

#[test]
fn merge_in_any_order() {
    let parts: [ProgressEntry; 4] = [0..4, 4..9, 7..7, 12..13];
    let mut forward: Vec<ProgressEntry> = Vec::new();
    for part in parts.iter() {
        forward.merge_progress(part.clone());
    }
    let mut backward: Vec<ProgressEntry> = Vec::new();
    for part in parts.iter().rev() {
        backward.merge_progress(part.clone());
    }
    assert_eq!(forward, vec![0..9, 12..13]);
    assert_eq!(forward, backward);
}

#[test]
fn merge_keeps_an_empty_range_apart() {
    let mut v: Vec<ProgressEntry> = Vec::new();
    v.merge_progress(5..5);
    assert_eq!(v, vec![5..5]);
    v.merge_progress(5..5);
    assert_eq!(v, vec![5..5]);
    v.merge_progress(5..8);
    assert_eq!(v, vec![5..8]);
}

#[test]
fn merge_at_the_end_of_the_positions() {
    let mut v = vec![0..1, u64::MAX - 2..u64::MAX - 1];
    v.merge_progress(u64::MAX - 1..u64::MAX);
    assert_eq!(v, vec![0..1, u64::MAX - 2..u64::MAX]);
}

#[test]
fn total_of_ranges() {
    assert_eq!((3..10u64).total(), 7);
    assert_eq!((3..3u64).total(), 0);
    let backwards = ProgressEntry { start: 10, end: 3 };
    assert_eq!(backwards.total(), 0);
    assert_eq!((0..u64::MAX).total(), u64::MAX);
}

#[test]
fn total_of_lists() {
    let none: Vec<ProgressEntry> = Vec::new();
    assert_eq!(none.total(), 0);
    assert_eq!(vec![1..5u64, 8..10, 20..50].total(), 36);
}

#[test]
fn total_grows_by_the_missing_bytes() {
    let mut v = vec![0..10u64, 20..30];
    let before = v.total();
    v.merge_progress(5..22);
    assert_eq!(v, vec![0..30]);
    assert_eq!(v.total() - before, 10);
}

#[test]
#[allow(clippy::single_range_in_vec_init)]
fn gaps_without_a_window() {
    assert_eq!(invert_vec(&[], 10, 0), [0..10]);
    assert_eq!(invert_vec(&[0..5], 10, 0), [5..10]);
    assert_eq!(invert_vec(&[5..10], 10, 0), [0..5]);
    assert_eq!(invert_vec(&[0..5, 7..10], 10, 0), [5..7]);
    assert_eq!(invert_vec(&[0..3, 5..8], 10, 0), [3..5, 8..10]);
    assert_eq!(invert_vec(&[1..3, 5..8], 10, 0), [0..1, 3..5, 8..10]);
}

#[test]
#[allow(clippy::single_range_in_vec_init)]
fn no_gap_in_a_complete_list() {
    assert!(invert_vec(&[0..10], 10, 0).is_empty());
    assert!(invert_vec(&[0..10], 10, 1024).is_empty());
    assert!(invert_vec(&[], 0, 0).is_empty());
}

#[test]
#[allow(clippy::single_range_in_vec_init)]
fn gap_before_an_entry_beyond_the_end() {
    assert_eq!(invert_vec(&[0..10, 20..30], 10, 5), [10..20]);
}

#[test]
#[allow(clippy::single_range_in_vec_init)]
fn gaps_one_by_one() {
    let progress = [3..5, 9..12];
    let mut walk = invert(&progress, 12, 1);
    assert_eq!(walk.next(), Some(0..3));
    assert_eq!(walk.next(), Some(5..9));
    assert_eq!(walk.next(), None);
}

#[test]
fn walk_after_its_end() {
    let progress = [0..10];
    let mut walk = invert(&progress, 10, 0);
    assert_eq!(walk.next(), None);
    assert_eq!(walk.next(), Some(0..10));
    assert_eq!(walk.next(), None);
}

#[test]
fn first_gaps_only() {
    let progress = [3..5, 9..12, 15..20];
    assert_eq!(invert(&progress, 30, 0).take(2), [0..3, 5..9]);
    assert_eq!(invert(&progress, 30, 0).take(0), []);
    assert_eq!(
        invert(&progress, 30, 0).take(64),
        [0..3, 5..9, 12..15, 20..30]
    );
}

#[test]
fn entries_past_the_limit_are_not_measured() {
    let backwards = ProgressEntry { start: 40, end: 30 };
    let progress = [3..5, 9..12, backwards];
    assert_eq!(invert(&progress, 50, 0).take(2), [0..3, 5..9]);
}
