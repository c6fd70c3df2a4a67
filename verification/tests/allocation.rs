use matching_engine::allocation::{fifo_allocate, prorata_allocate};
use matching_engine::matching::Matcher;

#[test]
fn fifo_serves_the_oldest_maker_first() {
    assert_eq!(fifo_allocate(&vec![2, 3, 4], 4), vec![2, 2, 0]);
    assert_eq!(fifo_allocate(&vec![2, 3, 4], 5), vec![2, 3, 0]);
    assert_eq!(fifo_allocate(&vec![2, 3, 4], 9), vec![2, 3, 4]);
    assert_eq!(fifo_allocate(&vec![2, 3, 4], 1), vec![1, 0, 0]);
}

#[test]
fn fifo_gives_no_more_than_the_level_holds() {
    assert_eq!(fifo_allocate(&vec![2, 3, 4], 20), vec![2, 3, 4]);
    assert_eq!(fifo_allocate(&vec![], 20), Vec::<u64>::new());
    assert_eq!(fifo_allocate(&vec![5], 0), vec![0]);
}

#[test]
fn fifo_with_the_largest_quantities() {
    assert_eq!(
        fifo_allocate(&vec![u64::MAX, u64::MAX], u64::MAX),
        vec![u64::MAX, 0]
    );
}

#[test]
fn prorata_without_remainder() {
    assert_eq!(prorata_allocate(&vec![4, 4], 6), vec![3, 3]);
    assert_eq!(prorata_allocate(&vec![10, 20, 30], 6), vec![1, 2, 3]);
}

#[test]
fn prorata_gives_the_leftover_to_the_largest_remainder() {
    // 7 * (5, 3, 2) / 10 = (3.5, 2.1, 1.4): floors 3, 2, 1 and one unit left.
    assert_eq!(prorata_allocate(&vec![5, 3, 2], 7), vec![4, 2, 1]);
    // 8 * (5, 3, 2) / 10 = (4.0, 2.4, 1.6): floors 4, 2, 1 and one unit left.
    assert_eq!(prorata_allocate(&vec![5, 3, 2], 8), vec![4, 2, 2]);
    // 5 * (1, 1, 5) / 7 = (0.71, 0.71, 3.57): floors 0, 0, 3 and two units left.
    assert_eq!(prorata_allocate(&vec![1, 1, 5], 5), vec![1, 1, 3]);
}

#[test]
fn prorata_breaks_ties_by_age() {
    // 4 * 3 / 9 = 1.33 for each maker: one unit is left and goes to the oldest.
    assert_eq!(prorata_allocate(&vec![3, 3, 3], 4), vec![2, 1, 1]);
    assert_eq!(prorata_allocate(&vec![3, 3, 3], 5), vec![2, 2, 1]);
    assert_eq!(prorata_allocate(&vec![1, 1], 1), vec![1, 0]);
}

#[test]
fn prorata_may_give_nothing_to_a_small_maker() {
    assert_eq!(prorata_allocate(&vec![1, 100], 1), vec![0, 1]);
}

#[test]
fn prorata_of_the_whole_level_gives_each_maker_all_it_holds() {
    assert_eq!(prorata_allocate(&vec![5, 3, 2], 10), vec![5, 3, 2]);
    assert_eq!(prorata_allocate(&vec![7], 7), vec![7]);
}

#[test]
fn prorata_of_nothing_gives_nothing() {
    assert_eq!(prorata_allocate(&vec![5, 3, 2], 0), vec![0, 0, 0]);
}

#[test]
fn prorata_sums_to_the_taker_quantity() {
    let level: Vec<u64> = vec![13, 7, 29, 1, 1, 50, 3];
    let held: u64 = level.iter().sum();
    for t in 0..=held {
        let shares = prorata_allocate(&level, t);
        assert_eq!(shares.len(), level.len());
        assert_eq!(shares.iter().sum::<u64>(), t);
        for i in 0..level.len() {
            let floor = t * level[i] / held;
            assert!(shares[i] == floor || shares[i] == floor + 1);
            assert!(shares[i] <= level[i]);
        }
    }
}

#[test]
fn prorata_with_the_largest_quantities() {
    let half = u64::MAX / 2;
    assert_eq!(
        prorata_allocate(&vec![u64::MAX, u64::MAX], u64::MAX),
        vec![half + 1, half]
    );
    assert_eq!(
        prorata_allocate(&vec![u64::MAX, u64::MAX, u64::MAX], u64::MAX),
        vec![u64::MAX / 3, u64::MAX / 3, u64::MAX / 3]
    );
}

#[test]
fn matcher_allocates_by_its_rule() {
    assert_eq!(Matcher::Fifo.allocate(&vec![4, 4], 6), vec![4, 2]);
    assert_eq!(Matcher::ProRata.allocate(&vec![4, 4], 6), vec![3, 3]);
}
