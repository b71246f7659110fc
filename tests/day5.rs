use aoc25::day5;
use aoc25::error::InputError;

const INPUT: &str = "3-5
10-14
16-20
12-18

1
5
8
11
17
32";

#[test]
fn day5() {
    assert_eq!(day5::part_one(INPUT), Ok(3));
    assert_eq!(day5::part_two(INPUT), Ok(14));
}

#[test]
fn day5_union_is_order_free() {
    let a = day5::union_size(vec![(3, 5), (10, 14), (16, 20), (12, 18)]);
    let b = day5::union_size(vec![(12, 18), (16, 20), (3, 5), (10, 14)]);
    assert_eq!(a, 14);
    assert_eq!(a, b);
    assert_eq!(day5::union_size(vec![(0, u64::MAX)]), 1u128 << 64);
    assert_eq!(day5::union_size(vec![(4, 4), (4, 4), (1, 9)]), 9);
    assert_eq!(day5::union_size(vec![]), 0);
}

#[test]
fn day5_errors() {
    assert_eq!(day5::part_one("3-5\n1"), Err(InputError::Missing));
    assert_eq!(day5::part_one("3-5\n4\n\n1"), Err(InputError::Malformed { line: 1 }));
    assert_eq!(day5::part_one("3-5\n\n1\nx"), Err(InputError::Malformed { line: 3 }));
    assert_eq!(day5::count_fresh(&vec![(1, 2)], &vec![0, 1, 2, 3]), 2);
}
