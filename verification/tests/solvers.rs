use advent_puzzles::day_five::to_integer_from_binary_string;
use advent_puzzles::day_five::BinaryParseError;
use advent_puzzles::day_nine::find_bounds_of_continuous_sum_matching_number;
use advent_puzzles::day_nine::is_number_sum_of_any;
use advent_puzzles::day_one::find_pair_summing_to;
use advent_puzzles::day_one::find_triple_summing_to;
use advent_puzzles::day_ten::find_jolt_differences;
use advent_puzzles::day_ten::get_number_of_arrangements;
use advent_puzzles::day_three::calculate_collisions;
use advent_puzzles::day_three::convert_to_collision_vec;
use advent_puzzles::day_twelve::rotate_around;
use advent_puzzles::day_twelve::solve_part_one;
use advent_puzzles::day_twelve::solve_part_two;
use advent_puzzles::day_twelve::Direction;
use advent_puzzles::day_two::is_valid_for_task_one;
use advent_puzzles::day_two::is_valid_for_task_two;
use advent_puzzles::day_two::parse_password_file;
use advent_puzzles::day_two::PasswordPolicy;
use advent_puzzles::day_eight::get_bug_free_result;
use advent_puzzles::day_fourteen::execute_task_two;
use advent_puzzles::day_fourteen::Instructions;
use advent_puzzles::day_six::aggregate_answers;
use advent_puzzles::day_eight::get_state_on_loop;
use advent_puzzles::day_eight::Instruction::ACC;
use advent_puzzles::day_eight::Instruction::JMP;
use advent_puzzles::day_eight::Instruction::NOP;
use advent_puzzles::day_eleven::get_adjacent_seats;
use advent_puzzles::day_eleven::get_non_floor_adjacent_seats;
use advent_puzzles::day_eleven::Seat::EMPTY;
use advent_puzzles::day_eleven::Seat::FLOOR;
use advent_puzzles::day_eleven::Seat::TAKEN;
use advent_puzzles::file_util::read_lines_as_u32;

#[test]
fn should_produce_empty_if_none_sum_for_pair() {
    assert_eq!(find_pair_summing_to(&vec!(1, 2, 3, 4), 12), None)
}

#[test]
fn should_produce_pair_if_sum_for_pair() {
    assert_eq!(find_pair_summing_to(&vec!(1, 2, 3, 4), 7), Some((3, 4)))
}

#[test]
fn should_produce_empty_if_none_sum_for_triple() {
    assert_eq!(find_triple_summing_to(&vec!(1, 2, 3, 4), 12), None)
}

#[test]
fn should_produce_pair_if_sum() {
    assert_eq!(find_triple_summing_to(&vec!(1, 2, 3, 4), 9), Some((2, 3, 4)))
}

#[test]
fn should_parse_valid_password_file() {
    let parsed = parse_password_file(&vec![
        "3-4 q: wqqkzwqgkqkk".to_owned(),
        "1-2 k: aaa".to_owned(),
        "1-2 a: aaa".to_owned(),
    ]);
    let first = parsed.last();
    assert_eq!(parsed.len(), 3);
    assert_eq!(first.map(|p| p.password.as_str()).get_or_insert(""), &"aaa");
    assert_eq!(first.map(|p| p.letter).get_or_insert(' '), &'a');
    assert_eq!(first.map(|p| p.at_least_length).get_or_insert(0), &mut 1);
    assert_eq!(first.map(|p| p.at_most_length).get_or_insert(0), &mut 2)
}

#[test]
fn should_reject_invalid_password_file_for_task_one_due_to_at_least_condition() {
    assert_eq!(
        is_valid_for_task_one(&PasswordPolicy {
            at_least_length: 1,
            at_most_length: 3,
            letter: 'a',
            password: "bbbb".to_owned()
        }),
        false
    )
}

#[test]
fn should_reject_invalid_password_file_for_task_one_due_to_at_most_condition() {
    assert_eq!(
        is_valid_for_task_one(&PasswordPolicy {
            at_least_length: 1,
            at_most_length: 3,
            letter: 'a',
            password: "aaaabbbb".to_owned()
        }),
        false
    )
}

#[test]
fn should_accept_valid_password_file_for_task_one() {
    assert_eq!(
        is_valid_for_task_one(&PasswordPolicy {
            at_least_length: 1,
            at_most_length: 3,
            letter: 'a',
            password: "a".to_owned()
        }),
        true
    );
    assert_eq!(
        is_valid_for_task_one(&PasswordPolicy {
            at_least_length: 1,
            at_most_length: 3,
            letter: 'a',
            password: "aaabbbb".to_owned()
        }),
        true
    )
}

#[test]
fn should_accept_valid_password_file_for_task_two() {
    assert_eq!(
        is_valid_for_task_two(&PasswordPolicy {
            at_least_length: 1,
            at_most_length: 3,
            letter: 'a',
            password: "abc".to_owned()
        }),
        true
    );
    assert_eq!(
        is_valid_for_task_two(&PasswordPolicy {
            at_least_length: 2,
            at_most_length: 3,
            letter: 'a',
            password: "dbaf".to_owned()
        }),
        true
    )
}

#[test]
fn should_reject_invalid_password_file_due_to_both_matching_for_task_two() {
    assert_eq!(
        is_valid_for_task_two(&PasswordPolicy {
            at_least_length: 4,
            at_most_length: 9,
            letter: 'b',
            password: "aaabaaaaba".to_owned()
        }),
        false
    );
}

#[test]
fn should_reject_invalid_password_file_due_to_neither_matching_for_task_two() {
    assert_eq!(
        is_valid_for_task_two(&PasswordPolicy {
            at_least_length: 4,
            at_most_length: 9,
            letter: 'b',
            password: "a".to_owned()
        }),
        false
    );
}

#[test]
fn should_convert_lines_to_collision_vec() {
    let result = convert_to_collision_vec(&vec![
        String::from("..##......."),
        String::from("#...#...#.."),
        String::from(".#....#..#."),
    ]);
    assert_eq!(vec!(vec!(2, 3), vec!(0, 4, 8), vec!(1, 6, 9)), result)
}

#[test]
fn should_calculate_collisions_with_horizontal_skip() {
    // we use the exact strings provided by advent here
    let slope = convert_to_collision_vec(&vec![
        String::from("..##......."),
        String::from("#...#...#.."),
        String::from(".#....#..#."),
        String::from("..#.#...#.#"),
        String::from(".#...##..#."),
        String::from("..#.##....."),
        String::from(".#.#.#....#"),
        String::from(".#........#"),
        String::from("#.##...#..."),
        String::from("#...##....#"),
        String::from(".#..#...#.#"),
    ]);
    let result = calculate_collisions(11, 3, 1, &slope);
    assert_eq!(result.count, 7)
}

#[test]
fn should_calculate_collisions_with_vertical_skip() {
    let result = calculate_collisions(
        11,
        1,
        2,
        &vec![
            vec![],
            vec![0, 1, 2, 3, 4, 5],
            vec![1],
            vec![0, 1, 2, 3, 4, 5],
            vec![2],
        ],
    );
    assert_eq!(result.count, 2)
}

#[test]
fn should_convert_binary_str_to_decimal() {
    assert_eq!(to_integer_from_binary_string("WWbeW", 'W'), Ok(25))
}

#[test]
fn should_reject_empty_binary_str() {
    assert_eq!(
        to_integer_from_binary_string("", 'W'),
        Err(BinaryParseError::Empty)
    )
}

#[test]
fn should_reject_binary_str_too_large_for_u32() {
    let too_long: String = std::iter::repeat('x').take(33).collect();
    assert_eq!(
        to_integer_from_binary_string(&too_long, 'x'),
        Err(BinaryParseError::TooLarge)
    )
}

#[test]
fn should_find_bounds_of_continuous_sum_matching_number() {
    assert_eq!(
        find_bounds_of_continuous_sum_matching_number(17, &vec!(1, 32, 4, 7, 6, 78)),
        Some((4, 7))
    )
}

#[test]
fn should_determine_if_number_is_sum_of_others() {
    assert_eq!(is_number_sum_of_any(25, &mut [1, 24]), true);

    assert_eq!(is_number_sum_of_any(25, &mut [1, 23]), false);

    assert_eq!(is_number_sum_of_any(25, &mut [1, 7, 8, 22, 3, 13, 24]), true);
}

#[test]
fn should_produce_number_arrangements() {
    let mut input = [
        28_usize, 33, 18, 42, 31, 14, 46, 20, 48, 47, 24, 23, 49, 45, 19, 38, 39, 11, 1, 32, 25,
        35, 8, 17, 7, 9, 4, 2, 34, 10, 3,
    ];
    input.sort_unstable();
    let result = get_number_of_arrangements(&input);
    assert_eq!(result, 19208)
}

#[test]
fn should_produce_jolt_differences() {
    let mut input = [
        28_usize, 33, 18, 42, 31, 14, 46, 20, 48, 47, 24, 23, 49, 45, 19, 38, 39, 11, 1, 32, 25,
        35, 8, 17, 7, 9, 4, 2, 34, 10, 3,
    ];
    input.sort_unstable();
    let result = find_jolt_differences(&input);
    assert_eq!(result, [22_usize, 10])
}

#[test]
fn should_get_final_position() {
    let data = vec![('F', 10), ('N', 3), ('F', 7), ('R', 90), ('F', 11)];
    let result = solve_part_one(&data);
    assert_eq!(result.0, 17);
    assert_eq!(result.1, -8);
}

#[test]
fn should_get_final_position_part_two() {
    let data = vec![('F', 10), ('N', 3), ('F', 7), ('R', 90), ('F', 11)];
    let result = solve_part_two(&data);
    assert_eq!(result.0, 214);
    assert_eq!(result.1, -72);
}

#[test]
fn should_rotate_around_ship() {
    assert_eq!(rotate_around((1, 2), &90, Direction::Forward), (-2, 1));
    assert_eq!(rotate_around((1, 2), &180, Direction::Forward), (-1, -2));
    assert_eq!(rotate_around((1, 2), &270, Direction::Forward), (2, -1));
    assert_eq!(rotate_around((-1, 2), &90, Direction::Forward), (-2, -1));
    assert_eq!(rotate_around((-1, 2), &180, Direction::Forward), (1, -2));
    assert_eq!(rotate_around((-1, 2), &270, Direction::Forward), (2, 1));
}

#[test]
fn should_read_lines_as_numbers() {
    let lines = vec![String::from("12"), String::from("0"), String::from("4294967295")];
    assert_eq!(read_lines_as_u32(&lines), vec![12, 0, 4294967295]);
}

#[test]
fn should_read_rules() {
    let result = advent_puzzles::day_sixteen::read_rules(&vec![
        String::from("type: 32-55 or 65-968"),
        String::from("wagon: 39-642 or 660-955"),
        String::from("zone: 41-567 or 578-959"),
        String::from("your ticket:"),
    ]);
    assert_eq!(
        result.0,
        [
            [[32u16, 55u16], [65u16, 968u16]],
            [[39u16, 642u16], [660u16, 955u16]],
            [[41u16, 567u16], [578u16, 959u16]]
        ]
    )
}

#[test]
fn should_parse_ticket_values() {
    assert_eq!(advent_puzzles::day_sixteen::parse_ticket("7,1,14"), vec![7u16, 1, 14]);
    assert_eq!(advent_puzzles::day_sixteen::parse_ticket(""), Vec::<u16>::new());
    assert_eq!(advent_puzzles::day_sixteen::parse_ticket("3,x,99999,4"), vec![3u16, 4]);
}

#[test]
fn should_find_bad_ticket_values() {
    let rules = vec![[[1u16, 3], [5, 7]], [[6, 11], [33, 44]], [[13, 40], [45, 50]]];
    let tickets = vec![vec![7u16, 3, 47], vec![40, 4, 50], vec![55, 2, 20], vec![38, 6, 12]];
    let bad = advent_puzzles::day_sixteen::get_bad_tickets(&tickets, &rules);
    assert_eq!(bad, vec![(1usize, 4u16), (2, 55), (3, 12)]);
}

#[test]
fn should_find_modular_inverse() {
    assert_eq!(advent_puzzles::day_thirteen::inverse(3, 7), 5);
    assert_eq!(advent_puzzles::day_thirteen::inverse(2, 4), 0);
    assert_eq!(advent_puzzles::day_thirteen::inverse(1, 1), 0);
}

#[test]
fn should_solve_part_one() {
    assert_eq!(advent_puzzles::day_fifteen::solve_part_one(&[0, 3, 6], 2020), 436);
    assert_eq!(advent_puzzles::day_fifteen::solve_part_one(&[2, 1, 3], 2020), 10);
    assert_eq!(advent_puzzles::day_fifteen::solve_part_one(&[1, 3, 2], 2020), 1);
}

#[test]
fn should_find_the_loop_with_correct_sum() {
    let under_test = vec![NOP(3), ACC(3), JMP(2), ACC(4), ACC(5), JMP(-2)];
    assert_eq!(get_state_on_loop(&under_test), (4, 12))
}

#[test]
fn should_find_the_sum_of_the_correct_program() {
    let mut under_test = vec![NOP(3), ACC(3), JMP(2), ACC(4), ACC(5), JMP(-2)];
    assert_eq!(get_bug_free_result(&mut under_test), Some(8))
}

#[test]
fn should_get_seat_positions() {
    let under_test = [
        TAKEN, EMPTY, TAKEN, EMPTY,
        TAKEN, FLOOR, TAKEN, FLOOR,
        TAKEN, EMPTY, TAKEN, EMPTY,
        EMPTY, EMPTY, FLOOR, EMPTY,
    ];
    assert_eq!(
        get_adjacent_seats(9, 4, &under_test),
        vec![
            Some(under_test[4]),
            Some(under_test[5]),
            Some(under_test[6]),
            Some(under_test[8]),
            Some(under_test[10]),
            Some(under_test[12]),
            Some(under_test[13]),
            Some(under_test[14])
        ]
    );
    assert_eq!(
        get_adjacent_seats(4, 4, &under_test),
        vec![
            None,
            Some(under_test[0]),
            Some(under_test[1]),
            None,
            Some(under_test[5]),
            None,
            Some(under_test[8]),
            Some(under_test[9])
        ]
    );
    assert_eq!(
        get_adjacent_seats(7, 4, &under_test),
        vec![
            Some(under_test[2]),
            Some(under_test[3]),
            None,
            Some(under_test[6]),
            None,
            Some(under_test[10]),
            Some(under_test[11]),
            None
        ]
    );
}

#[test]
fn day_thirteen_should_() {}

#[test]
fn should_count_answers_in_groups() {
    let lines = vec![
        String::from("ab"),
        String::from("bc"),
        String::from("d"),
        String::from(""),
        String::from("a"),
        String::from("ab"),
    ];
    let (any1, all1, next) = aggregate_answers(&lines, 0).unwrap();
    let (any2, all2, next2) = aggregate_answers(&lines, next).unwrap();
    assert_eq!(aggregate_answers(&lines, next2), None);
    let first_any: std::collections::HashSet<char> = any1.into_iter().collect();
    let first_all: std::collections::HashSet<char> = all1.into_iter().collect();
    let second_any: std::collections::HashSet<char> = any2.into_iter().collect();
    let second_all: std::collections::HashSet<char> = all2.into_iter().collect();
    assert_eq!(first_any, vec!['a', 'b', 'c', 'd'].into_iter().collect());
    assert_eq!(first_all, std::collections::HashSet::new());
    assert_eq!(second_any, vec!['a', 'b'].into_iter().collect());
    assert_eq!(second_all, vec!['a'].into_iter().collect())
}

#[test]
fn should_resolve_part_2() {
    let result = execute_task_two(&vec![
        Instructions {
            mask: String::from("000000000000000000000000000000X1001X"),
            assignments: vec![(42, 100)],
        },
        Instructions {
            mask: String::from("00000000000000000000000000000000X0XX"),
            assignments: vec![(26, 1)],
        },
    ]);
    assert_eq!(result.values().sum::<usize>(), 208)
}

#[test]
fn should_get_seat_positions_part_2() {
    let under_test = [
        TAKEN, EMPTY, TAKEN, EMPTY,
        TAKEN, FLOOR, TAKEN, FLOOR,
        TAKEN, EMPTY, TAKEN, EMPTY,
        EMPTY, EMPTY, FLOOR, EMPTY,
    ];
    assert_eq!(
        get_non_floor_adjacent_seats(9, 4, &under_test),
        vec![
            Some(under_test[4]),
            Some(under_test[1]),
            Some(under_test[6]),
            Some(under_test[8]),
            Some(under_test[10]),
            Some(under_test[12]),
            Some(under_test[13]),
            None
        ]
    );
}

#[test]
fn should_rotate_backwards_amounts_the_other_way_round() {
    assert_eq!(rotate_around((1, 2), &-90, Direction::Forward), (2, -1));
    assert_eq!(
        rotate_around((1, 2), &-90, Direction::Forward),
        rotate_around((1, 2), &270, Direction::Forward)
    );
    assert_eq!(rotate_around((1, 2), &-180, Direction::Backward), (-1, -2));
}

#[test]
fn should_parse_mask_groups() {
    let parsed = advent_puzzles::day_fourteen::parse_lines(&vec![
        String::from("mask = 0X1"),
        String::from("mem[8] = 11"),
        String::from("junk line"),
        String::from("mem[7] = 101"),
        String::from("mask = 110X"),
        String::from("mem[8] = 0"),
    ]);
    assert_eq!(parsed.len(), 2);
    assert_eq!(parsed[0].mask.as_str(), "0X1");
    assert_eq!(parsed[0].assignments, vec![(8, 11), (7, 101)]);
    // the last group keeps its raw mask line, as the original reader did
    assert_eq!(parsed[1].mask.as_str(), "mask = 110X");
    assert_eq!(parsed[1].assignments, vec![(8, 0)]);
}
