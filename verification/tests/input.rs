use bankers::{
    bankers_algorithm, build_state, parse_number, parse_row, parse_rows, read_state,
    ConstructionError, InputError, Process,
};

fn chars(text: &str) -> Vec<char> {
    text.chars().collect()
}

fn number_by_std(field: &str) -> Option<u32> {
    field.parse::<u32>().ok()
}

fn row_by_std(line: &str) -> Option<Vec<u32>> {
    line.split(char::is_whitespace)
        .map(|field| field.parse::<u32>().ok())
        .collect()
}

fn rows_by_std(text: &str) -> Option<Vec<Vec<u32>>> {
    text.lines().map(|line| row_by_std(line)).collect()
}

fn ids_and_vectors(processes: &Vec<Process>) -> Vec<(u32, Vec<u32>, Vec<u32>)> {
    processes
        .iter()
        .map(|p| (p.id(), p.allocated().clone(), p.max_claim().clone()))
        .collect()
}

#[test]
fn parse_number_reads_digits() {
    assert_eq!(parse_number(&chars("0")), Some(0));
    assert_eq!(parse_number(&chars("7")), Some(7));
    assert_eq!(parse_number(&chars("120")), Some(120));
    assert_eq!(parse_number(&chars("007")), Some(7));
    assert_eq!(parse_number(&chars("4294967295")), Some(4294967295));
    assert_eq!(parse_number(&chars("00000000000000000000004294967295")), Some(4294967295));
}

#[test]
fn parse_number_takes_a_plus_sign() {
    assert_eq!(parse_number(&chars("+5")), Some(5));
    assert_eq!(parse_number(&chars("+0")), Some(0));
    assert_eq!(parse_number(&chars("+")), None);
    assert_eq!(parse_number(&chars("++5")), None);
    assert_eq!(parse_number(&chars("5+")), None);
}

#[test]
fn parse_number_refuses_what_is_not_a_number() {
    assert_eq!(parse_number(&chars("")), None);
    assert_eq!(parse_number(&chars("-")), None);
    assert_eq!(parse_number(&chars("-5")), None);
    assert_eq!(parse_number(&chars("-0")), None);
    assert_eq!(parse_number(&chars("1a")), None);
    assert_eq!(parse_number(&chars("a1")), None);
    assert_eq!(parse_number(&chars(" 1")), None);
    assert_eq!(parse_number(&chars("1 ")), None);
    assert_eq!(parse_number(&chars("1.0")), None);
    assert_eq!(parse_number(&chars("\u{ff11}")), None);
    assert_eq!(parse_number(&chars("\u{661}")), None);
}

#[test]
fn parse_number_refuses_what_a_u32_cannot_hold() {
    assert_eq!(parse_number(&chars("4294967296")), None);
    assert_eq!(parse_number(&chars("4294967300")), None);
    assert_eq!(parse_number(&chars("42949672950")), None);
    assert_eq!(parse_number(&chars("99999999999999999999999999")), None);
    assert_eq!(parse_number(&chars("+4294967296")), None);
}

#[test]
fn parse_number_agrees_with_the_standard_library() {
    let samples = [
        "", "+", "-", "0", "00", "+0", "-0", "7", "+7", "-7", "++7", "+-7", "7+", "12345",
        "4294967294", "4294967295", "4294967296", "4294967305", "18446744073709551616",
        "0000004294967295", "0000004294967296", "1_000", "1e3", "0x10", " 1", "1 ", "1\n",
        "\u{ff11}", "1\u{ff11}", "\u{a0}", "9999999999", "10000000000",
    ];
    for sample in samples {
        assert_eq!(parse_number(&chars(sample)), number_by_std(sample));
    }
    for n in 0..2000u32 {
        assert_eq!(parse_number(&chars(&n.to_string())), Some(n));
        let large = u32::MAX - n;
        assert_eq!(parse_number(&chars(&large.to_string())), Some(large));
        let beyond = u32::MAX as u64 + 1 + n as u64;
        assert_eq!(parse_number(&chars(&beyond.to_string())), None);
    }
}

#[test]
fn parse_row_reads_the_fields_of_a_line() {
    assert_eq!(parse_row(&chars("1 5 2 0")), Some(vec![1, 5, 2, 0]));
    assert_eq!(parse_row(&chars("42")), Some(vec![42]));
    assert_eq!(parse_row(&chars("1\t2")), Some(vec![1, 2]));
    assert_eq!(parse_row(&chars("1\u{a0}2\u{3000}3")), Some(vec![1, 2, 3]));
}

#[test]
fn parse_row_takes_each_white_space_character_as_one_separator() {
    assert_eq!(parse_row(&chars("")), None);
    assert_eq!(parse_row(&chars("1  2")), None);
    assert_eq!(parse_row(&chars(" 1 2")), None);
    assert_eq!(parse_row(&chars("1 2 ")), None);
    assert_eq!(parse_row(&chars(" ")), None);
}

#[test]
fn parse_row_refuses_a_field_that_is_not_a_number() {
    assert_eq!(parse_row(&chars("1 x 3")), None);
    assert_eq!(parse_row(&chars("1 2 4294967296")), None);
    assert_eq!(parse_row(&chars("1,2")), None);
    assert_eq!(parse_row(&chars("-1 2")), None);
}

#[test]
fn parse_row_agrees_with_the_standard_library() {
    let samples = [
        "", " ", "  ", "1", "1 2", "1  2", " 1", "1 ", "1\t2", "1\r2", "1\n2", "1\u{b}2",
        "1\u{c}2", "1\u{85}2", "1\u{a0}2", "1\u{1680}2", "1\u{2000}2", "1\u{200a}2",
        "1\u{200b}2", "1\u{2028}2", "1\u{2029}2", "1\u{202f}2", "1\u{205f}2", "1\u{3000}2",
        "1\u{feff}2", "1\u{1c}2", "1\u{1f}2", "+1 +2", "1 -2", "4294967295 4294967296",
        "0 0 0 0 0 0 0 0 0 0 0 0 0 0 0 0",
    ];
    for sample in samples {
        assert_eq!(parse_row(&chars(sample)), row_by_std(sample));
    }
}

#[test]
fn white_space_is_what_the_standard_library_takes_for_it() {
    let mut code: u32 = 0;
    while code <= 0x10ffff {
        if let Some(c) = char::from_u32(code) {
            let line: String = ['1', c, '2'].iter().collect();
            assert_eq!(parse_row(&chars(&line)), row_by_std(&line));
        }
        code += 1;
    }
}

#[test]
fn parse_rows_reads_one_row_to_a_line() {
    assert_eq!(
        parse_rows("1 2\n3 4\n"),
        Some(vec![vec![1, 2], vec![3, 4]])
    );
    assert_eq!(parse_rows("1 2\n3 4"), Some(vec![vec![1, 2], vec![3, 4]]));
    assert_eq!(parse_rows("7"), Some(vec![vec![7]]));
    assert_eq!(parse_rows(""), Some(vec![]));
}

#[test]
fn parse_rows_takes_a_carriage_return_before_a_line_feed_as_part_of_the_line_end() {
    assert_eq!(
        parse_rows("1 2\r\n3 4\r\n"),
        Some(vec![vec![1, 2], vec![3, 4]])
    );
    assert_eq!(parse_rows("1 2\r\n3 4"), Some(vec![vec![1, 2], vec![3, 4]]));
    // A carriage return at the end of a last line that no line feed ends
    // stays in the line, and is white space there.
    assert_eq!(parse_rows("1 2\r\n3 4\r"), None);
    assert_eq!(parse_rows("1\r\r\n"), None);
}

#[test]
fn parse_rows_refuses_an_empty_line() {
    assert_eq!(parse_rows("\n"), None);
    assert_eq!(parse_rows("1 2\n\n3 4\n"), None);
    assert_eq!(parse_rows("1 2\n3 4\n\n"), None);
}

#[test]
fn parse_rows_agrees_with_the_standard_library() {
    let samples = [
        "", "\n", "\r\n", "\r", "1", "1\n", "1\r\n", "1\r", "1\n\r", "1\r\r\n", "1\n2",
        "1\n2\n", "1\r\n2\r\n", "1\n\n2", "1 2\n3 4\n5 6", "1 2\n3 x\n5 6", "1\n2\r", "\n1",
        "1 2 \n3", "1\u{2028}2\n3", "1\u{85}2", "3 3 2\n0 1 0\n7 5 3\n",
    ];
    for sample in samples {
        assert_eq!(parse_rows(sample), rows_by_std(sample));
    }
}

#[test]
fn lines_end_where_the_standard_library_ends_them() {
    let mut code: u32 = 0;
    while code <= 0x3100 {
        if let Some(c) = char::from_u32(code) {
            let text: String = ['1', c, '2', '\n', '3', c].iter().collect();
            assert_eq!(parse_rows(&text), rows_by_std(&text));
        }
        code += 1;
    }
}

#[test]
fn build_state_splits_the_rows_in_available_allocations_and_maximum_claims() {
    let rows = vec![
        vec![3, 3, 2],
        vec![0, 1, 0],
        vec![2, 0, 0],
        vec![7, 5, 3],
        vec![3, 2, 2],
    ];
    let (available, processes) = build_state(&rows).unwrap();
    assert_eq!(available, vec![3, 3, 2]);
    assert_eq!(
        ids_and_vectors(&processes),
        vec![
            (0, vec![0, 1, 0], vec![7, 5, 3]),
            (1, vec![2, 0, 0], vec![3, 2, 2]),
        ]
    );
}

#[test]
fn build_state_of_the_first_row_alone_has_no_processes() {
    let (available, processes) = build_state(&vec![vec![5, 6]]).unwrap();
    assert_eq!(available, vec![5, 6]);
    assert_eq!(processes.len(), 0);
}

#[test]
fn build_state_without_rows_has_nothing_available() {
    assert_eq!(build_state(&vec![]), Err(InputError::NoAvailability));
}

#[test]
fn build_state_needs_as_many_maximum_claims_as_allocations() {
    assert_eq!(
        build_state(&vec![vec![1], vec![1]]),
        Err(InputError::UnevenRows)
    );
    assert_eq!(
        build_state(&vec![vec![1], vec![1], vec![1], vec![1]]),
        Err(InputError::UnevenRows)
    );
}

#[test]
fn build_state_reports_the_first_process_that_cannot_be_built() {
    assert_eq!(
        build_state(&vec![vec![0], vec![5], vec![1, 1], vec![1], vec![1]]),
        Err(InputError::BadProcess(ConstructionError::MaxBelowAllocation))
    );
    assert_eq!(
        build_state(&vec![vec![0], vec![1, 1], vec![5], vec![1], vec![1]]),
        Err(InputError::BadProcess(ConstructionError::LengthMismatch))
    );
    assert_eq!(
        build_state(&vec![vec![0], vec![1], vec![5], vec![1], vec![1]]),
        Err(InputError::BadProcess(ConstructionError::MaxBelowAllocation))
    );
}

#[test]
fn read_state_reads_a_whole_text() {
    let text = "1 5 2 0\n0 0 1 2\n1 0 0 0\n1 3 5 4\n0 6 3 2\n0 0 1 4\n\
                0 0 1 2\n1 7 5 0\n2 3 5 6\n0 6 5 2\n0 6 5 6\n";
    let (available, processes) = read_state(text).unwrap();
    assert_eq!(available, vec![1, 5, 2, 0]);
    assert_eq!(
        ids_and_vectors(&processes),
        vec![
            (0, vec![0, 0, 1, 2], vec![0, 0, 1, 2]),
            (1, vec![1, 0, 0, 0], vec![1, 7, 5, 0]),
            (2, vec![1, 3, 5, 4], vec![2, 3, 5, 6]),
            (3, vec![0, 6, 3, 2], vec![0, 6, 5, 2]),
            (4, vec![0, 0, 1, 4], vec![0, 6, 5, 6]),
        ]
    );
    let order = bankers_algorithm(available, processes).unwrap();
    let ids: Vec<u32> = order.iter().map(|x| x.process.id()).collect();
    assert_eq!(ids, vec![0, 2, 3, 4, 1]);
}

#[test]
fn read_state_gives_each_error_on_its_input() {
    assert_eq!(read_state(""), Err(InputError::NoAvailability));
    assert_eq!(read_state("1 x\n"), Err(InputError::NotANumber));
    assert_eq!(read_state("1 2\n3 4\n"), Err(InputError::UnevenRows));
    assert_eq!(
        read_state("1\n5\n1\n"),
        Err(InputError::BadProcess(ConstructionError::MaxBelowAllocation))
    );
    assert_eq!(
        read_state("1\n1 2\n1\n"),
        Err(InputError::BadProcess(ConstructionError::LengthMismatch))
    );
}

#[test]
fn a_field_that_is_not_a_number_is_reported_before_anything_else() {
    assert_eq!(read_state("x"), Err(InputError::NotANumber));
    assert_eq!(read_state("1\n2\nx"), Err(InputError::NotANumber));
    assert_eq!(read_state("1\n5\n1\n\n"), Err(InputError::NotANumber));
}

#[test]
fn input_error_messages() {
    assert_eq!(InputError::NotANumber.message(), "Not a number");
    assert_eq!(
        InputError::NoAvailability.message(),
        "No row of available resources"
    );
    assert_eq!(InputError::UnevenRows.message(), "Rows do not pair up");
    assert_eq!(InputError::TooManyProcesses.message(), "Too many processes");
    assert_eq!(
        InputError::BadProcess(ConstructionError::MaxBelowAllocation).message(),
        "Failed to create Process: Max is lower then allocate"
    );
    assert_eq!(
        InputError::BadProcess(ConstructionError::LengthMismatch).message(),
        "Failed to create Process: Vectors not same length"
    );
}
