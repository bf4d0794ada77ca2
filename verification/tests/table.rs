use kiesraad::{allocate, allocate_national, Lottery, Seats, Votes};

type Case = (bool, u64, &'static [u64], &'static [Option<u64>], &'static [u64]);

fn run(case: &Case) -> Vec<u64> {
    let (national, total, ballot, limits, _) = case;
    let votes: Vec<Votes> = ballot.iter().map(|count| Votes(*count)).collect();
    let mut seats: Vec<Seats> = limits
        .iter()
        .map(|limit| match limit {
            Some(l) => Seats::limited(*l),
            None => Seats::unlimited(),
        })
        .collect();
    let mut lots = Lottery::seeded(*total);
    if *national {
        allocate_national(&mut lots, Seats::filled(*total), votes, &mut seats);
    } else {
        allocate(&mut lots, Seats::filled(*total), votes, &mut seats);
    }
    seats.iter().map(|seat| seat.count()).collect()
}

/// Elections that no lot decides: whether national, the seats, the votes,
/// the limits and the seats that each party must end with.
#[test]
fn elections_without_lots() {
    let cases: Vec<Case> = vec![
        (true, 3, &[33, 9, 6], &[None, Some(0), None], &[3, 0, 0]),
        (true, 2, &[8, 81, 9, 4], &[None, Some(5), None, Some(0)], &[0, 2, 0, 0]),
        (true, 7, &[35, 76], &[Some(1), None], &[1, 6]),
        (false, 25, &[12, 9, 334, 120, 123], &[Some(9), Some(5), Some(2), Some(9), Some(9)], &[3, 2, 2, 9, 9]),
        (false, 45, &[6, 10], &[Some(1), Some(9)], &[1, 9]),
        (true, 18, &[21, 2, 81, 8, 10, 33], &[None, Some(2), Some(2), Some(2), Some(9), Some(9)], &[5, 0, 2, 0, 2, 9]),
        (false, 7, &[51], &[None], &[7]),
        (true, 25, &[127, 18, 205], &[None, Some(9), Some(2)], &[21, 2, 2]),
        (true, 18, &[3], &[Some(1)], &[1]),
        (false, 13, &[40, 3], &[Some(9), Some(5)], &[9, 2]),
        (false, 13, &[79, 339], &[Some(2), Some(5)], &[2, 5]),
        (false, 2, &[5, 10], &[None, Some(9)], &[0, 2]),
        (false, 7, &[12, 9], &[Some(2), Some(2)], &[2, 2]),
        (true, 19, &[120, 58, 39, 39, 8, 206], &[None, Some(0), None, Some(0), Some(9), None], &[6, 0, 2, 0, 0, 11]),
        (false, 1, &[1, 122, 76, 29, 1], &[Some(0), Some(5), None, Some(1), Some(2)], &[0, 1, 0, 0, 0]),
        (false, 2, &[8, 57, 54, 3], &[None, Some(2), Some(1), Some(9)], &[0, 1, 1, 0]),
        (false, 19, &[3, 80], &[None, None], &[0, 19]),
        (false, 25, &[5, 80, 8], &[Some(0), Some(2), Some(0)], &[0, 2, 0]),
        (false, 45, &[13, 336], &[Some(0), Some(9)], &[0, 9]),
        (true, 1, &[1004], &[Some(9)], &[1]),
        (false, 13, &[1003], &[Some(9)], &[9]),
        (true, 45, &[205, 7, 56, 334], &[None, None, None, None], &[15, 0, 4, 26]),
        (false, 45, &[202, 129, 55, 11], &[None, None, None, None], &[23, 15, 6, 1]),
        (false, 13, &[10, 4], &[Some(0), Some(1)], &[0, 1]),
        (false, 10, &[20, 35, 5, 59, 81], &[None, None, None, Some(9), None], &[1, 2, 0, 3, 4]),
        (false, 3, &[10, 121], &[None, Some(2)], &[1, 2]),
        (false, 19, &[51, 75, 10, 12, 1001], &[Some(9), None, None, Some(9), Some(2)], &[6, 9, 1, 1, 2]),
        (true, 20, &[78, 337, 58, 82, 78], &[Some(1), Some(0), Some(9), None, Some(5)], &[1, 0, 6, 8, 5]),
        (false, 10, &[4, 34, 11, 1001], &[None, Some(2), None, Some(1)], &[1, 1, 1, 1]),
        (false, 5, &[334, 40, 6, 9], &[Some(5), Some(2), Some(5), Some(0)], &[5, 0, 0, 0]),
        (false, 30, &[20], &[Some(2)], &[2]),
        (true, 30, &[6, 28, 124, 76], &[None, Some(0), None, None], &[0, 0, 19, 11]),
        (false, 45, &[7], &[None], &[45]),
        (true, 7, &[35, 83, 127, 338, 5, 2], &[Some(5), None, Some(1), None, None, Some(1)], &[0, 0, 1, 6, 0, 0]),
        (false, 2, &[13, 50], &[Some(2), Some(5)], &[0, 2]),
        (true, 20, &[3, 78, 3], &[Some(1), None, None], &[0, 20, 0]),
        (false, 25, &[20, 1003, 19], &[None, Some(1), Some(2)], &[22, 1, 2]),
        (true, 1, &[0, 341, 78], &[Some(9), Some(0), Some(9)], &[0, 0, 0]),
        (false, 13, &[207, 81, 79, 336, 12, 9], &[Some(5), Some(2), None, None, None, None], &[4, 2, 1, 6, 0, 0]),
        (false, 13, &[3, 7, 79], &[Some(0), Some(1), None], &[0, 1, 12]),
        (true, 7, &[50, 17], &[Some(2), Some(2)], &[2, 2]),
        (true, 5, &[22, 5, 34], &[Some(9), Some(1), Some(0)], &[5, 0, 0]),
        (false, 2, &[13], &[None], &[2]),
        (false, 13, &[4], &[Some(1)], &[1]),
        (false, 20, &[77], &[Some(5)], &[5]),
    ];
    for case in cases.iter() {
        assert_eq!(run(case), case.4.to_vec(), "{} seats for {:?}", case.1, case.2);
    }
}
