use kiesraad::{
    absolute_majority_check, allocate, allocate_national, allocate_per_average,
    allocate_per_surplus, allocate_seats, allocate_single_step, whole_seats_available, Criterion,
    Lottery, Seats, Strategy, Votes,
};

fn votes(counts: &[u64]) -> Vec<Votes> {
    counts.iter().map(|c| Votes(*c)).collect()
}

fn unlimited(n: usize) -> Vec<Seats> {
    vec![Seats::unlimited(); n]
}

fn limited(limits: &[u64]) -> Vec<Seats> {
    limits.iter().map(|l| Seats::limited(*l)).collect()
}

fn counts(seats: &[Seats]) -> Vec<u64> {
    seats.iter().map(|s| s.count()).collect()
}

fn holding(held: &[u64]) -> Vec<Seats> {
    held.iter()
        .map(|h| {
            let mut pool = Seats::filled(*h);
            let mut entry = Seats::unlimited();
            for _ in 0..*h {
                entry.transfer(&mut pool);
            }
            entry
        })
        .collect()
}

#[test]
fn largest_averages_four_seats() {
    let mut lots = Lottery::seeded(0);
    let mut seats = unlimited(4);
    allocate_per_average(&mut lots, Seats::filled(4), votes(&[40, 30, 20, 10]), &mut seats);
    assert_eq!(counts(&seats), vec![2, 1, 1, 0]);
}

#[test]
fn capacity_stops_the_surpluses() {
    let mut lots = Lottery::seeded(0);
    let mut seats = limited(&[2, 13]);
    allocate(&mut lots, Seats::filled(4), votes(&[33, 7]), &mut seats);
    assert_eq!(counts(&seats), vec![2, 1]);
    assert!(seats[0].count() <= 2 && seats[1].count() <= 13);
    assert_eq!(seats[0].limit(), Some(2));
    assert_eq!(seats[1].limit(), Some(13));
}

#[test]
fn party_without_votes_takes_what_is_left() {
    let mut lots = Lottery::seeded(0);
    let mut seats = limited(&[2, 12, 2]);
    allocate(&mut lots, Seats::filled(4), votes(&[33, 7, 0]), &mut seats);
    assert_eq!(counts(&seats), vec![2, 1, 1]);
}

#[test]
fn majority_of_votes_gets_majority_of_seats() {
    let mut lots = Lottery::seeded(0);
    let mut plain = unlimited(2);
    let mut pool = Seats::filled(2);
    let ballot = votes(&[51, 49]);
    assert!(allocate_single_step(&mut lots, &ballot, &mut plain, &mut pool, &Strategy::LargestAverages).is_some());
    assert!(allocate_single_step(&mut lots, &ballot, &mut plain, &mut pool, &Strategy::LargestAverages).is_some());
    assert_eq!(counts(&plain), vec![1, 1]);

    let mut seats = unlimited(2);
    allocate_per_average(&mut lots, Seats::filled(2), votes(&[51, 49]), &mut seats);
    assert_eq!(counts(&seats), vec![2, 0]);
}

#[test]
fn majority_correction_draws_the_donor() {
    for seed in 0..20 {
        let mut lots = Lottery::seeded(seed);
        let mut seats = unlimited(3);
        allocate(&mut lots, Seats::filled(20), votes(&[51, 25, 25]), &mut seats);
        let held = counts(&seats);
        assert_eq!(held[0], 11);
        assert_eq!(held.iter().sum::<u64>(), 20);
        assert!(held == vec![11, 4, 5] || held == vec![11, 5, 4]);
    }
}

#[test]
fn majority_correction_after_surpluses() {
    for seed in 0..20 {
        let mut lots = Lottery::seeded(seed);
        let mut seats = unlimited(4);
        allocate(&mut lots, Seats::filled(10), votes(&[30, 12, 8, 8]), &mut seats);
        assert_eq!(counts(&seats), vec![6, 2, 1, 1]);
    }
}

#[test]
fn no_correction_without_capacity() {
    let mut lots = Lottery::seeded(0);
    let mut seats = limited(&[1, 5]);
    allocate_per_average(&mut lots, Seats::filled(2), votes(&[51, 49]), &mut seats);
    assert_eq!(counts(&seats), vec![1, 1]);
}

#[test]
fn correction_takes_from_the_last_winner() {
    let mut lots = Lottery::seeded(0);
    let mut seats = holding(&[1, 1]);
    absolute_majority_check(&mut lots, &votes(&[51, 49]), &mut seats, holding(&[1, 0]));
    assert_eq!(counts(&seats), vec![2, 0]);
}

#[test]
fn claimant_takes_a_seat_left_in_the_pool() {
    let mut lots = Lottery::seeded(0);
    let mut seats = unlimited(2);
    let mut pool = Seats::filled(2);
    let short = Strategy::Threshold { vote_count: 5, seat_count: 1 };
    allocate_seats(&mut lots, &votes(&[3, 2]), &mut seats, &mut pool, &short);
    assert_eq!(counts(&seats), vec![1, 0]);
    assert_eq!(pool.count(), 1);

    let mut national = unlimited(2);
    allocate_national(&mut lots, Seats::filled(1), votes(&[3, 2]), &mut national);
    assert_eq!(counts(&national), vec![1, 0]);

    let mut small = unlimited(2);
    allocate(&mut lots, Seats::filled(1), votes(&[3, 2]), &mut small);
    assert_eq!(counts(&small), vec![1, 0]);
}

#[test]
fn no_seat_is_left_for_the_claimant() {
    let mut lots = Lottery::seeded(0);
    let mut seats = holding(&[0, 5]);
    allocate_per_average(&mut lots, Seats::filled(1), votes(&[51, 49]), &mut seats);
    assert_eq!(counts(&seats), vec![1, 5]);
    let mut full = limited(&[0, 3]);
    allocate_national(&mut lots, Seats::filled(1), votes(&[3, 2]), &mut full);
    assert_eq!(counts(&full), vec![0, 0]);
}

#[test]
fn correction_leaves_a_seat_majority_alone() {
    let mut lots = Lottery::seeded(0);
    let mut seats = holding(&[2, 1]);
    absolute_majority_check(&mut lots, &votes(&[51, 49]), &mut seats, holding(&[2, 0]));
    assert_eq!(counts(&seats), vec![2, 1]);
    let mut even = holding(&[1, 1]);
    absolute_majority_check(&mut lots, &votes(&[50, 50]), &mut even, holding(&[1, 0]));
    assert_eq!(counts(&even), vec![1, 1]);
}

#[test]
fn round_awards_every_leader() {
    let mut lots = Lottery::seeded(0);
    let mut seats = holding(&[1, 1, 0, 0]);
    let mut pool = Seats::filled(2);
    let step = allocate_single_step(
        &mut lots,
        &votes(&[40, 30, 20, 10]),
        &mut seats,
        &mut pool,
        &Strategy::LargestAverages,
    );
    assert_eq!(step, Some(()));
    assert_eq!(counts(&seats), vec![2, 1, 1, 0]);
    assert_eq!(pool.count(), 0);
}

#[test]
fn round_draws_lots_for_the_last_seat() {
    let mut first = 0;
    for seed in 0..40 {
        let mut lots = Lottery::seeded(seed);
        let mut seats = unlimited(3);
        let mut pool = Seats::filled(1);
        let step = allocate_single_step(
            &mut lots,
            &votes(&[10, 10, 3]),
            &mut seats,
            &mut pool,
            &Strategy::LargestAverages,
        );
        assert_eq!(step, Some(()));
        let held = counts(&seats);
        assert!(held == vec![1, 0, 0] || held == vec![0, 1, 0]);
        assert_eq!(pool.count(), 0);
        first += held[0];
    }
    assert!(0 < first && first < 40);
}

#[test]
fn round_is_exhausted_without_capacity() {
    let mut lots = Lottery::seeded(0);
    let mut seats = limited(&[0, 0]);
    let mut pool = Seats::filled(3);
    let step = allocate_single_step(
        &mut lots,
        &votes(&[10, 5]),
        &mut seats,
        &mut pool,
        &Strategy::LargestAverages,
    );
    assert_eq!(step, None);
    assert_eq!(counts(&seats), vec![0, 0]);
    assert_eq!(pool.count(), 3);
}

#[test]
fn round_without_parties_is_exhausted() {
    let mut lots = Lottery::seeded(0);
    let mut seats: Vec<Seats> = Vec::new();
    let mut pool = Seats::filled(3);
    let step =
        allocate_single_step(&mut lots, &Vec::new(), &mut seats, &mut pool, &Strategy::LargestAverages);
    assert_eq!(step, None);
    assert_eq!(pool.count(), 3);
}

#[test]
fn round_with_empty_pool_awards_nothing() {
    let mut lots = Lottery::seeded(0);
    let mut seats = unlimited(2);
    let mut pool = Seats::filled(0);
    let step = allocate_single_step(
        &mut lots,
        &votes(&[10, 5]),
        &mut seats,
        &mut pool,
        &Strategy::LargestAverages,
    );
    assert_eq!(step, Some(()));
    assert_eq!(counts(&seats), vec![0, 0]);
}

#[test]
fn seats_stay_in_the_pool_when_capacity_runs_out() {
    let mut lots = Lottery::seeded(0);
    let mut seats = limited(&[1, 1]);
    let mut pool = Seats::filled(5);
    allocate_seats(&mut lots, &votes(&[10, 5]), &mut seats, &mut pool, &Strategy::LargestAverages);
    assert_eq!(counts(&seats), vec![1, 1]);
    assert_eq!(pool.count(), 3);
}

#[test]
fn seats_awarded_equal_the_pool() {
    let ballot = [340u64, 280, 160, 60, 15];
    for total in 0..40u64 {
        let mut lots = Lottery::seeded(total);
        let mut seats = unlimited(5);
        allocate(&mut lots, Seats::filled(total), votes(&ballot), &mut seats);
        assert_eq!(counts(&seats).iter().sum::<u64>(), total);
        let mut national = unlimited(5);
        allocate_national(&mut lots, Seats::filled(total), votes(&ballot), &mut national);
        assert!(counts(&national).iter().sum::<u64>() <= total);
    }
}

#[test]
fn nobody_exceeds_its_capacity() {
    let limits = [3u64, 1, 0, 2, 7];
    for total in 0..25u64 {
        let mut lots = Lottery::seeded(total);
        let mut seats = limited(&limits);
        allocate(&mut lots, Seats::filled(total), votes(&[500, 400, 300, 200, 100]), &mut seats);
        let held = counts(&seats);
        for (h, l) in held.iter().zip(limits.iter()) {
            assert!(h <= l);
        }
        assert!(held.iter().sum::<u64>() <= total);
        if total >= 19 {
            assert_eq!(held, vec![3, 1, 0, 2, 7]);
        }
    }
}

#[test]
fn more_votes_never_cost_seats() {
    for extra in 0..60u64 {
        let mut lots = Lottery::seeded(0);
        let mut fewer = unlimited(3);
        allocate_per_average(&mut lots, Seats::filled(25), votes(&[101 + extra, 207, 53]), &mut fewer);
        let mut more = unlimited(3);
        allocate_per_average(&mut lots, Seats::filled(25), votes(&[102 + extra, 207, 53]), &mut more);
        assert!(more[0].count() >= fewer[0].count());
    }
}

#[test]
fn same_seed_gives_the_same_election() {
    let ballot = [10u64, 10, 10, 10, 10, 3];
    for seed in 0..10 {
        let mut first = unlimited(6);
        allocate(&mut Lottery::seeded(seed), Seats::filled(22), votes(&ballot), &mut first);
        let mut second = unlimited(6);
        allocate(&mut Lottery::seeded(seed), Seats::filled(22), votes(&ballot), &mut second);
        assert_eq!(counts(&first), counts(&second));
        assert_eq!(counts(&first).iter().sum::<u64>(), 22);
    }
}

#[test]
fn threshold_keeps_small_parties_out() {
    let mut lots = Lottery::seeded(0);
    let mut plain = unlimited(3);
    allocate_per_average(&mut lots, Seats::filled(10), votes(&[50, 41, 9]), &mut plain);
    assert_eq!(counts(&plain), vec![5, 4, 1]);
    let mut national = unlimited(3);
    allocate_national(&mut lots, Seats::filled(10), votes(&[50, 41, 9]), &mut national);
    assert_eq!(counts(&national), vec![6, 4, 0]);
}

#[test]
fn threshold_is_a_whole_quota() {
    let mut lots = Lottery::seeded(0);
    let mut at_quota = unlimited(3);
    allocate_national(&mut lots, Seats::filled(10), votes(&[50, 40, 10]), &mut at_quota);
    assert_eq!(counts(&at_quota), vec![5, 4, 1]);
    let mut nobody = unlimited(3);
    allocate_national(&mut lots, Seats::filled(1), votes(&[50, 30, 20]), &mut nobody);
    assert_eq!(counts(&nobody), vec![0, 0, 0]);
    let mut majority = unlimited(2);
    allocate_national(&mut lots, Seats::filled(1), votes(&[51, 49]), &mut majority);
    assert_eq!(counts(&majority), vec![1, 0]);
}

#[test]
fn national_election_of_2023() {
    let ballot = [
        2_450_878u64, 1_643_073, 1_589_519, 1_343_287, 656_292, 485_551, 345_822, 328_225, 246_765,
        235_148, 232_963, 217_270, 212_532, 178_802, 71_345, 52_913, 51_043, 44_253, 12_838, 9_117,
        5_487, 5_325, 5_122, 4_152, 3_966, 1_038,
    ];
    let mut lots = Lottery::seeded(0);
    let mut seats = unlimited(ballot.len());
    allocate_national(&mut lots, Seats::filled(150), votes(&ballot), &mut seats);
    assert_eq!(
        counts(&seats),
        vec![37, 25, 24, 20, 9, 7, 5, 5, 3, 3, 3, 3, 3, 2, 1, 0, 0, 0, 0, 0, 0, 0, 0, 0, 0, 0]
    );
}

#[test]
fn large_body_goes_by_averages() {
    let mut lots = Lottery::seeded(0);
    let mut seats = unlimited(4);
    allocate(&mut lots, Seats::filled(19), votes(&[41, 30, 20, 9]), &mut seats);
    let mut by_average = unlimited(4);
    allocate_per_average(&mut lots, Seats::filled(19), votes(&[41, 30, 20, 9]), &mut by_average);
    assert_eq!(counts(&seats), counts(&by_average));
    assert_eq!(counts(&seats), vec![8, 6, 4, 1]);
}

#[test]
fn small_body_goes_by_surpluses() {
    let mut lots = Lottery::seeded(0);
    let mut seats = unlimited(4);
    allocate(&mut lots, Seats::filled(18), votes(&[100, 16, 6, 5]), &mut seats);
    let mut by_surplus = unlimited(4);
    allocate_per_surplus(&mut lots, Seats::filled(18), votes(&[100, 16, 6, 5]), &mut by_surplus);
    assert_eq!(counts(&seats), counts(&by_surplus));
    assert_eq!(counts(&seats), vec![14, 3, 1, 0]);
}

#[test]
fn strategies_rate_as_the_law_says() {
    let entry = holding(&[2])[0];
    let average = Strategy::LargestAverages.rate(Votes(30), entry).unwrap();
    assert!(average.is_same_value(&kiesraad::frac(10, 1)));

    let surplus = Strategy::LargestSurpluses { vote_count: 100, seat_count: 10 };
    let rated = surplus.rate(Votes(30), entry).unwrap();
    assert_eq!((rated.num, rated.den), (100, 1));
    assert!(surplus.rate(Votes(19), entry).is_none());
    assert!(surplus.rate(Votes(20), entry).is_some());
    assert!(surplus.rate(Votes(7), Seats::unlimited()).is_none());
    assert!(surplus.rate(Votes(8), Seats::unlimited()).is_some());

    let rest = Strategy::RestByAverages { vote_count: 100, seat_count: 10 };
    assert!(rest.rate(Votes(7), Seats::unlimited()).is_some());
    assert!(rest.rate(Votes(7), holding(&[1])[0]).is_none());
    assert!(rest.rate(Votes(8), Seats::unlimited()).is_some());
    assert!(rest.rate(Votes(8), holding(&[1])[0]).is_some());
    assert!(rest.rate(Votes(8), entry).is_none());
    assert!(rest.rate(Votes(10), entry).is_some());
    let third = rest.rate(Votes(20), entry).unwrap();
    assert_eq!((third.num, third.den), (20, 3));

    let national = Strategy::Threshold { vote_count: 100, seat_count: 10 };
    assert!(national.rate(Votes(9), Seats::unlimited()).is_none());
    let passed = national.rate(Votes(10), entry).unwrap();
    assert_eq!((passed.num, passed.den), (10, 3));
}

#[test]
fn whole_seats_run_out() {
    let ballot = votes(&[40, 30, 20, 10]);
    assert!(whole_seats_available(&ballot, &unlimited(4), Seats::filled(4)));
    assert!(!whole_seats_available(&ballot, &holding(&[1, 1, 0, 0]), Seats::filled(2)));
    assert!(whole_seats_available(&ballot, &holding(&[1, 0, 0, 0]), Seats::filled(4)));
}

#[test]
fn parties_are_rated_where_they_can_take_a_seat() {
    let seats = vec![Seats::unlimited(), Seats::limited(0), Seats::limited(3)];
    let found = kiesraad::round::rate_all(&votes(&[30, 20, 10]), &seats, &Strategy::LargestAverages);
    assert_eq!(found.len(), 3);
    assert_eq!(found[0].map(|f| (f.num, f.den)), Some((30, 1)));
    assert!(found[1].is_none());
    assert_eq!(found[2].map(|f| (f.num, f.den)), Some((10, 1)));
}

#[test]
fn leaders_are_all_parties_at_the_largest_quality() {
    let found = vec![
        Some(kiesraad::frac(10, 2)),
        None,
        Some(kiesraad::frac(5, 1)),
        Some(kiesraad::frac(4, 1)),
        Some(kiesraad::frac(15, 3)),
    ];
    let best = kiesraad::round::largest(&found).unwrap();
    assert_eq!(best.0, 0);
    assert!(best.1.is_same_value(&kiesraad::frac(5, 1)));
    assert_eq!(kiesraad::round::leaders_of(&found), vec![0, 2, 4]);
    let nobody: Vec<Option<kiesraad::Fraction>> = vec![None, None];
    assert!(kiesraad::round::largest(&nobody).is_none());
    assert_eq!(kiesraad::round::leaders_of(&nobody), Vec::<usize>::new());
}

#[test]
fn seats_are_handed_out_one_each() {
    let mut seats = holding(&[3, 0, 1]);
    let mut pool = Seats::filled(5);
    kiesraad::round::hand_out(&mut seats, &mut pool, &vec![2, 0]);
    assert_eq!(counts(&seats), vec![4, 0, 2]);
    assert_eq!(pool.count(), 3);
}

#[test]
fn claimant_is_the_party_with_the_majority_of_votes() {
    let ballot = votes(&[20, 51, 29]);
    assert_eq!(kiesraad::majority::claimant_of(&ballot, &holding(&[1, 2, 1])), Some(1));
    assert_eq!(kiesraad::majority::claimant_of(&ballot, &holding(&[1, 3, 1])), None);
    assert_eq!(kiesraad::majority::claimant_of(&ballot, &limited(&[5, 0, 5])), None);
    assert_eq!(kiesraad::majority::claimant_of(&votes(&[50, 50]), &holding(&[0, 0])), None);
    assert_eq!(kiesraad::majority::count_votes(&ballot), 100);
    assert_eq!(kiesraad::majority::count_seats(&holding(&[1, 2, 1])), 4);
}

#[test]
fn donors_won_a_seat_in_the_last_round() {
    let now = holding(&[2, 3, 1, 4]);
    let before = holding(&[1, 3, 0, 3]);
    assert_eq!(kiesraad::majority::donors_of(&now, &before, 3), vec![0, 2]);
    assert_eq!(kiesraad::majority::donors_of(&now, &before, 0), vec![2, 3]);
    assert_eq!(kiesraad::majority::donors_of(&now, &now, 0), Vec::<usize>::new());
}

#[test]
fn more_votes_never_cost_seats_in_a_national_election() {
    for extra in 0..60u64 {
        let mut lots = Lottery::seeded(extra);
        let mut fewer = unlimited(4);
        allocate_national(&mut lots, Seats::filled(12), votes(&[31 + extra, 207, 53, 9]), &mut fewer);
        let mut more = unlimited(4);
        allocate_national(&mut lots, Seats::filled(12), votes(&[32 + extra, 207, 53, 9]), &mut more);
        assert!(more[0].count() >= fewer[0].count());
    }
}

#[test]
fn majority_of_votes_in_a_small_body() {
    for total in 1..19u64 {
        for first in 51..100u64 {
            let mut lots = Lottery::seeded(first);
            let mut seats = unlimited(3);
            allocate(&mut lots, Seats::filled(total), votes(&[first, 100 - first, 0]), &mut seats);
            let held = counts(&seats);
            assert!(2 * held[0] > held.iter().sum::<u64>());
        }
    }
}

#[test]
fn quota_and_three_quarters() {
    assert!(kiesraad::criterion::has_quota(10, 1, 100, 10));
    assert!(!kiesraad::criterion::has_quota(9, 1, 100, 10));
    assert!(kiesraad::criterion::has_quota(0, 0, 100, 10));
    assert!(kiesraad::criterion::has_three_quarters(8, 100, 10));
    assert!(!kiesraad::criterion::has_three_quarters(7, 100, 10));
    assert!(kiesraad::criterion::has_three_quarters(15, 200, 10));
    assert!(kiesraad::criterion::has_three_quarters(u64::MAX, u64::MAX, u64::MAX));
    assert_eq!(kiesraad::fraction::product(u64::MAX, u64::MAX), u128::MAX - 2 * (u64::MAX as u128));
}
