use kiesraad::{ballotted, Lottery};

#[test]
fn no_lot_is_drawn_when_all_can_be_picked() {
    let mut lots = Lottery::seeded(1);
    assert_eq!(ballotted(&mut lots, vec![4usize, 2, 9], 3), vec![4, 2, 9]);
    assert_eq!(ballotted(&mut lots, vec![4usize, 2, 9], 10), vec![4, 2, 9]);
    assert_eq!(ballotted(&mut lots, Vec::<usize>::new(), 0), Vec::<usize>::new());
    assert_eq!(ballotted(&mut lots, Vec::<usize>::new(), 1), Vec::<usize>::new());
}

#[test]
fn drawn_lots_are_distinct_candidates() {
    let candidates = vec![10usize, 20, 30, 40, 50, 60];
    for seed in 0..50 {
        let mut lots = Lottery::seeded(seed);
        for n in 0..6 {
            let picked = ballotted(&mut lots, candidates.clone(), n);
            assert_eq!(picked.len() as u64, n);
            for (i, p) in picked.iter().enumerate() {
                assert!(candidates.contains(p));
                assert!(!picked[..i].contains(p));
            }
        }
    }
}

#[test]
fn every_candidate_can_be_drawn() {
    let mut seen = [false; 4];
    for seed in 0..200 {
        let mut lots = Lottery::seeded(seed);
        let picked = ballotted(&mut lots, vec![0usize, 1, 2, 3], 1);
        seen[picked[0]] = true;
    }
    assert_eq!(seen, [true; 4]);
}

#[test]
fn same_seed_draws_the_same_lots() {
    let candidates: Vec<usize> = (0..100).collect();
    let mut first = Lottery::seeded(2025);
    let mut second = Lottery::seeded(2025);
    for n in [1u64, 5, 50, 99] {
        assert_eq!(
            ballotted(&mut first, candidates.clone(), n),
            ballotted(&mut second, candidates.clone(), n)
        );
    }
}

#[test]
fn process_lottery_draws_fair_positions() {
    let mut lots = Lottery::new().unwrap();
    let at = lots.draw(10, 4);
    assert_eq!(at.len(), 4);
    for (i, p) in at.iter().enumerate() {
        assert!(*p < 10);
        assert!(!at[..i].contains(p));
    }
}
