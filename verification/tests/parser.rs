use libreviewer::file_collector::FileContent;
use libreviewer::parser::{parse_body, parse_header, AnalyserError};

#[test]
fn test_parse_header() {
    let test_data = [
        (
            // Input (str1 + str2)
            (
                r#"Pallet: "balances", Extrinsic: "set_balance", Lowest values: [], Highest values: [], Steps: [10], Repeat: 10"#,
                r#"u,e,extrinsic_time,storage_root_time"#,
            ),
            // -> output to be tested
            ("balances", "set_balance", 10, 10, vec!["u", "e"]),
        ),
        (
            (
                r#"Pallet: "democracy", Extrinsic: "delegate", Lowest values: [], Highest values: [], Steps: [10], Repeat: 10"#,
                r#"r,extrinsic_time,storage_root_time"#,
            ),
            ("democracy", "delegate", 10, 10, vec!["r"]),
        ),
        (
            (
                r#"Pallet: "democracy", Extrinsic: "proxy_undelegate", Lowest values: [], Highest values: [], Steps: [20], Repeat: 20"#,
                r#"r,extrinsic_time,storage_root_time"#,
            ),
            ("democracy", "proxy_undelegate", 20, 20, vec!["r"]),
        ),
        (
            (
                r#"Pallet: "identity", Extrinsic: "cancel_request", Lowest values: [], Highest values: [], Steps: [20], Repeat: 20"#,
                r#"r,x,extrinsic_time,storage_root_time"#,
            ),
            ("identity", "cancel_request", 20, 20, vec!["r", "x"]),
        ),
    ];

    for ((str1, str2), output) in &test_data {
        let content = FileContent(format!("{}\n{}", str1, str2));
        let res = parse_header(&content).unwrap();
        assert_eq!(res.pallet(), output.0);
        assert_eq!(res.extrinsic(), output.1);
        assert_eq!(res.steps(), output.2);
        assert_eq!(res.repeats(), output.3);

        assert_eq!(res.input_var_names().len(), output.4.len());
        let mut counter = 0;
        for var in &output.4 {
            assert_eq!(&res.input_var_names()[counter], var);
            counter += 1;
        }
    }
}

#[test]
fn test_parse_body() {
    let test_data = [
        (
            ("header1 ... (skipped)\n\
                header2 ... (skpped)\n\
                1,100,409567,85176\n\
                1,100,404202,95485\n\
                1,100,436160,89604\n\
                1,100,443911,106889\n\
                1,100,441193,93017\n\
                1,100,419524,94390"),
            vec![
                vec![1, 100, 409567, 85176],
                vec![1, 100, 404202, 95485],
                vec![1, 100, 436160, 89604],
                vec![1, 100, 443911, 106889],
                vec![1, 100, 441193, 93017],
                vec![1, 100, 419524, 94390],
            ],
        ),
        (
            ("header1 ... (skipped)\n\
                header2 ... (skpped)\n\
                20,100,416389,88954\n\
                20,100,411389,88545\n\
                20,100,410049,88203\n\
                20,1,127985,70742\n\
                20,1,133206,72225\n\
                20,1,140801,71239\n\
                Median Slopes Analysis\n\
                ========\n\
                \n\
                Model:\n\
                Time ~=    188.8\n\
                    + r    25.97\n\
                            Âµs\n\
                \n\
                Min Squares Analysis\n\
                ========"),
            vec![
                vec![20, 100, 416389, 88954],
                vec![20, 100, 411389, 88545],
                vec![20, 100, 410049, 88203],
                vec![20, 1, 127985, 70742],
                vec![20, 1, 133206, 72225],
                vec![20, 1, 140801, 71239],
            ],
        ),
        (
            ("header1 ... (skipped)\n\
                header2 ... (skpped)\n\
                50,87726,90501\n\
                50,229949,111762\n\
                60,96437,87721\n\
                60,87618,83273\n\
                60,97325,232905\n\
                60,117408,116346"),
            vec![
                vec![50, 87726, 90501],
                vec![50, 229949, 111762],
                vec![60, 96437, 87721],
                vec![60, 87618, 83273],
                vec![60, 97325, 232905],
                vec![60, 117408, 116346],
            ],
        ),
    ];

    for (content, output) in &test_data {
        let content = FileContent(String::from(*content));
        let expected_len = output[0].len();
        let res = parse_body(&content, expected_len).unwrap();
        assert_eq!(res.len(), output.len());

        let mut counter = 0;
        for entry in res {
            // Hint: the other two values are `extrinsic_time`
            // and `storage_root_time`
            assert_eq!(entry.input_vars.len(), expected_len - 2);

            let current = &output[counter];
            for i in 0..expected_len - 2 {
                assert_eq!(entry.input_vars[i], current[i]);
            }

            assert_eq!(entry.extrinsic_time, current[expected_len - 2]);
            assert_eq!(entry.storage_root_time, current[expected_len - 1]);
            counter += 1;
        }
    }
}

#[test]
fn empty_file_has_no_header() {
    let content = FileContent(String::new());
    assert_eq!(parse_header(&content).unwrap_err(), AnalyserError::MissingHeader);
    assert_eq!(content.parse().unwrap_err(), AnalyserError::MissingHeader);
}

const FIRST: &str = r#"Pallet: "balances", Extrinsic: "set_balance", Lowest values: [], Highest values: [], Steps: [10], Repeat: 20"#;
const SECOND: &str = "u,e,extrinsic_time,storage_root_time";

fn header_of(first: &str, second: &str) -> Result<(String, String, usize, usize, Vec<String>), AnalyserError> {
    let content = FileContent(format!("{}\n{}\n", first, second));
    parse_header(&content).map(|res| {
        (
            res.pallet().clone(),
            res.extrinsic().clone(),
            res.steps(),
            res.repeats(),
            res.input_var_names().clone(),
        )
    })
}

#[test]
fn header_is_read() {
    let (pallet, extrinsic, steps, repeats, names) = header_of(FIRST, SECOND).unwrap();
    assert_eq!(pallet, "balances");
    assert_eq!(extrinsic, "set_balance");
    assert_eq!(steps, 10);
    assert_eq!(repeats, 20);
    assert_eq!(names, vec!["u", "e"]);
}

#[test]
fn header_without_second_line_is_missing() {
    let content = FileContent(String::from(FIRST));
    assert_eq!(parse_header(&content).unwrap_err(), AnalyserError::MissingHeader);
    let content = FileContent(format!("{}\n", FIRST));
    assert_eq!(parse_header(&content).unwrap_err(), AnalyserError::MissingHeader);
}

#[test]
fn first_line_is_judged_before_the_second_is_missed() {
    let content = FileContent(String::from("Pallet: balances"));
    assert_eq!(parse_header(&content).unwrap_err(), AnalyserError::InvalidHeader);
}

#[test]
fn first_line_must_have_fourteen_words() {
    let short = r#"Pallet: "balances", Extrinsic: "set_balance", Lowest values: [], Highest values: [], Steps: [10], Repeat:"#;
    assert_eq!(header_of(short, SECOND).unwrap_err(), AnalyserError::InvalidHeader);
    let long = r#"Pallet: "balances", Extrinsic: "set_balance", Lowest values: [], Highest values: [], Steps: [10], Repeat: 10 10"#;
    assert_eq!(header_of(long, SECOND).unwrap_err(), AnalyserError::InvalidHeader);
}

#[test]
fn first_line_may_be_spaced_out() {
    let spaced = "  Pallet:\t\"balances\",   Extrinsic: \"set_balance\", Lowest values: [], Highest\u{a0}values: [], Steps: [10],  Repeat: 20  ";
    let (pallet, extrinsic, steps, repeats, _) = header_of(spaced, SECOND).unwrap();
    assert_eq!((pallet.as_str(), extrinsic.as_str(), steps, repeats), ("balances", "set_balance", 10, 20));
}

#[test]
fn keys_must_read_as_they_must() {
    for wrong in [
        FIRST.replace("Pallet:", "Pallet"),
        FIRST.replace("Extrinsic:", "extrinsic:"),
        FIRST.replace("Steps:", "Step:"),
        FIRST.replace("Repeat:", "Repeats:"),
    ] {
        assert_eq!(header_of(&wrong, SECOND).unwrap_err(), AnalyserError::InvalidHeader);
    }
}

#[test]
fn values_must_stand_between_their_marks() {
    for wrong in [
        FIRST.replace("\"balances\",", "balances\","),
        FIRST.replace("\"balances\",", "\"balances\""),
        FIRST.replace("\"balances\",", "\","),
        FIRST.replace("\"set_balance\",", "\"set_balance,"),
        FIRST.replace("[10],", "10],"),
        FIRST.replace("[10],", "[10]"),
        FIRST.replace("[10],", "[ten],"),
        FIRST.replace("[10],", "[],"),
        FIRST.replace("[10],", "[-1],"),
        FIRST.replace("Repeat: 20", "Repeat: [20]"),
        FIRST.replace("Repeat: 20", "Repeat: 20,"),
        FIRST.replace("Repeat: 20", "Repeat: many"),
        FIRST.replace("Repeat: 20", "Repeat: 99999999999999999999999"),
    ] {
        assert_eq!(header_of(&wrong, SECOND).unwrap_err(), AnalyserError::InvalidHeader, "{}", wrong);
    }
}

#[test]
fn names_keep_what_stands_between_their_marks() {
    let first = FIRST.replace("\"balances\",", "\"\",").replace("\"set_balance\",", "\"a\"b,c\",");
    let (pallet, extrinsic, _, _, _) = header_of(&first, SECOND).unwrap();
    assert_eq!(pallet, "");
    assert_eq!(extrinsic, "a\"b,c");
}

#[test]
fn numbers_may_have_a_plus_sign_and_leading_zeros() {
    let first = FIRST.replace("[10],", "[+010],").replace("Repeat: 20", "Repeat: +0");
    let (_, _, steps, repeats, _) = header_of(&first, SECOND).unwrap();
    assert_eq!((steps, repeats), (10, 0));
    let first = FIRST.replace("[10],", "[+],");
    assert_eq!(header_of(&first, SECOND).unwrap_err(), AnalyserError::InvalidHeader);
    let first = FIRST.replace("[10],", "[++1],");
    assert_eq!(header_of(&first, SECOND).unwrap_err(), AnalyserError::InvalidHeader);
}

#[test]
fn second_line_must_name_both_timings() {
    for wrong in [
        "u,e",
        "extrinsic_time,storage_root_time",
        "u,e,storage_root_time",
        "u,e,extrinsic_time",
        "u,e,extrinsic_time,storage_root_times",
        "u, e,extrinsic_time,storage_root_time",
        "u,ee,extrinsic_time,storage_root_time",
        "u,,extrinsic_time,storage_root_time",
        "u,storage_root_time,extrinsic_time",
        "",
    ] {
        assert_eq!(header_of(FIRST, wrong).unwrap_err(), AnalyserError::InvalidHeader, "{}", wrong);
    }
}

#[test]
fn input_variables_are_the_columns_before_the_extrinsic_time() {
    let names = |second: &str| header_of(FIRST, second).unwrap().4;
    assert_eq!(names("r,extrinsic_time,storage_root_time"), vec!["r"]);
    assert_eq!(names("a,b,c,extrinsic_time,storage_root_time"), vec!["a", "b", "c"]);
    assert_eq!(names("extrinsic_time,storage_root_time,x"), Vec::<String>::new());
    assert_eq!(names("a,extrinsic_time,bb,storage_root_time,extrinsic_time"), vec!["a"]);
    assert_eq!(names("\u{e9},extrinsic_time,storage_root_time"), vec!["\u{e9}"]);
}

#[test]
fn lines_may_end_with_carriage_returns() {
    let content = FileContent(format!("{}\r\n{}\r\n1,2,3,4\r\n5,6,7,8\r\n", FIRST, SECOND));
    let res = content.parse().unwrap();
    assert_eq!(res.pallet(), "balances");
    assert_eq!(res.repeats(), 20);
    assert_eq!(res.input_var_names(), &vec!["u", "e"]);
    let trials = res.steps_repeats();
    assert_eq!(trials.len(), 2);
    assert_eq!(trials[1].input_vars, vec![5, 6]);
    assert_eq!(trials[1].extrinsic_time, 7);
    assert_eq!(trials[1].storage_root_time, 8);
}

#[test]
fn parse_reads_header_and_body() {
    let content = FileContent(format!(
        "{}\n{}\n1,100,409567,85176\n1,100,404202,95485\nMedian Slopes Analysis\n========\n2,200,1,1\n",
        FIRST, SECOND
    ));
    let res = content.parse().unwrap();
    assert_eq!(res.pallet(), "balances");
    assert_eq!(res.extrinsic(), "set_balance");
    assert_eq!(res.steps(), 10);
    assert_eq!(res.repeats(), 20);
    let trials = res.steps_repeats();
    assert_eq!(trials.len(), 2);
    assert_eq!(trials[0].input_vars, vec![1, 100]);
    assert_eq!(trials[0].extrinsic_time, 409567);
    assert_eq!(trials[0].storage_root_time, 85176);
    assert_eq!(trials[1].extrinsic_time, 404202);
}

#[test]
fn parse_fails_as_the_header_does() {
    let content = FileContent(format!("{}\n", FIRST));
    assert_eq!(content.parse().unwrap_err(), AnalyserError::MissingHeader);
    let content = FileContent(format!("{}\nu,e\n1,2,3,4\n", FIRST));
    assert_eq!(content.parse().unwrap_err(), AnalyserError::InvalidHeader);
}

fn rows_of(body: &str, expected_len: usize) -> Vec<(Vec<u64>, u64, u64)> {
    let content = FileContent(format!("first\nsecond\n{}", body));
    parse_body(&content, expected_len)
        .unwrap()
        .into_iter()
        .map(|entry| (entry.input_vars, entry.extrinsic_time, entry.storage_root_time))
        .collect()
}

#[test]
fn every_row_has_one_value_for_each_variable() {
    let rows = rows_of("1,2,3,4\n5,6,7,8\n9,10,11\n12,13,14,15\n", 4);
    assert_eq!(rows, vec![(vec![1, 2], 3, 4), (vec![5, 6], 7, 8)]);
    let rows = rows_of("1,2,3,4,5\n5,6,7,8\n", 4);
    assert!(rows.is_empty());
    let rows = rows_of("3,4\n5,6\n", 2);
    assert_eq!(rows, vec![(vec![], 3, 4), (vec![], 5, 6)]);
}

#[test]
fn body_ends_at_the_first_line_that_is_no_row() {
    assert_eq!(rows_of("1,2,3\n\n4,5,6\n", 3), vec![(vec![1], 2, 3)]);
    assert_eq!(rows_of("1,2,3\n4,x,6\n7,8,9\n", 3), vec![(vec![1], 2, 3)]);
    assert_eq!(rows_of("1,2,3\n4,5,\n7,8,9\n", 3), vec![(vec![1], 2, 3)]);
    assert_eq!(rows_of("1,2,3\n4, 5,6\n7,8,9\n", 3), vec![(vec![1], 2, 3)]);
    assert_eq!(rows_of("1,2,3\n4,-5,6\n7,8,9\n", 3), vec![(vec![1], 2, 3)]);
    assert_eq!(rows_of("1,2,3\n4,5.5,6\n7,8,9\n", 3), vec![(vec![1], 2, 3)]);
    assert_eq!(
        rows_of("1,2,3\n4,18446744073709551616,6\n7,8,9\n", 3),
        vec![(vec![1], 2, 3)]
    );
    assert_eq!(
        rows_of("1,2,3\n4,18446744073709551615,+6\n", 3),
        vec![(vec![1], 2, 3), (vec![4], 18446744073709551615, 6)]
    );
}

#[test]
fn body_needs_rows_of_two_fields_or_more() {
    assert!(rows_of("1\n2\n", 1).is_empty());
    assert!(rows_of("1,2\n", 0).is_empty());
    assert!(rows_of("", 3).is_empty());
    let content = FileContent(String::from("only one line"));
    assert!(parse_body(&content, 3).unwrap().is_empty());
}

#[test]
fn parser_error_messages() {
    assert_eq!(
        AnalyserError::MissingHeader.message(),
        "header value of the benchmark result is missing"
    );
    assert_eq!(
        AnalyserError::InvalidHeader.message(),
        "header value of the benchmark result is invalid"
    );
}
