use libreviewer::{ExtrinsicCollection, ExtrinsicCollectionError, FileContent};

fn header(pallet: &str, name: &str, columns: &str) -> String {
    format!(
        "Pallet: \"{}\", Extrinsic: \"{}\", Lowest values: [], Highest values: [], Steps: [3], Repeat: 3\n{}\n",
        pallet, name, columns
    )
}

fn decimal(ten_thousandths: u128) -> f64 {
    ten_thousandths as f64 / 10000.0
}

fn set_balance_killing() -> FileContent {
    let mut text = header("balances", "set_balance_killing", "u,e,extrinsic_time,storage_root_time");
    text.push_str(
        "1,1000,122488,79915\n\
         1,1000,122489,79914\n\
         1,1000,122489,79916\n\
         199,1000,108735,71866\n\
         199,1000,108736,71866\n\
         199,1000,108736,71867\n\
         496,1000,105916,62925\n\
         496,1000,105915,62924\n\
         496,1000,105917,62926\n",
    );
    FileContent(text)
}

fn propose() -> FileContent {
    let mut text = header("democracy", "propose", "p,extrinsic_time,storage_root_time");
    text.push_str(
        "1,125904,84059\n\
         1,125904,84059\n\
         1,125905,84060\n\
         10,130751,89704\n\
         10,130751,89705\n\
         10,130751,89705\n\
         10,130751,89705\n\
         10,130751,89705\n\
         19,135927,106922\n\
         19,135926,106921\n\
         19,135928,106923\n",
    );
    FileContent(text)
}

#[test]
fn test_step_table() {
    let files = [propose(), set_balance_killing()];
    let mut collection = ExtrinsicCollection::new();

    for content in &files {
        let extrinsic_result = content.parse().unwrap();
        collection.push(extrinsic_result);
    }

    let mut table = collection.generate_step_table().unwrap();
    table.sort_by_extrinsic_incr_percentage();

    let expected = [
        ("balances", "set_balance_killing", &vec![1, 1000], 122488.6667, 79915.0, 15.6470, 27.0004),
        ("balances", "set_balance_killing", &vec![199, 1000], 108735.6667, 71866.3333, 2.6622, 14.2095),
        ("balances", "set_balance_killing", &vec![496, 1000], 105916.0, 62925.0, 0.0, 0.0),
        ("democracy", "propose", &vec![19], 135927.0, 106922.0, 7.9605, 27.1982),
        ("democracy", "propose", &vec![10], 130751.0, 89704.8, 3.8495, 6.7160),
        ("democracy", "propose", &vec![1], 125904.3333, 84059.3333, 0.0, 0.0),
    ];

    let list = table.raw_list();
    assert_eq!(list.len(), expected.len());

    let mut counter = 0;
    for entry in list {
        assert_eq!(entry.0, expected[counter].0);
        assert_eq!(entry.1, expected[counter].1);
        assert_eq!(entry.2, expected[counter].2.as_slice());
        assert_eq!(decimal(entry.3), expected[counter].3);
        assert_eq!(decimal(entry.4), expected[counter].4);
        assert_eq!(decimal(entry.5), expected[counter].5);
        assert_eq!(decimal(entry.6), expected[counter].6);

        counter += 1;
    }
}

#[test]
fn step_table_stands_in_the_order_of_first_measurements() {
    let mut collection = ExtrinsicCollection::new();
    collection.push(propose().parse().unwrap());
    collection.push(set_balance_killing().parse().unwrap());

    let table = collection.generate_step_table().unwrap();
    let list = table.raw_list();
    let steps: Vec<(&str, Vec<u64>)> = list.iter().map(|row| (row.1, row.2.to_vec())).collect();
    assert_eq!(
        steps,
        vec![
            ("propose", vec![1]),
            ("propose", vec![10]),
            ("propose", vec![19]),
            ("set_balance_killing", vec![1, 1000]),
            ("set_balance_killing", vec![199, 1000]),
            ("set_balance_killing", vec![496, 1000]),
        ]
    );
}

#[test]
fn step_table_puts_results_of_one_extrinsic_together() {
    let mut first = header("p", "e", "n,extrinsic_time,storage_root_time");
    first.push_str("1,10,100\n2,30,100\n");
    let mut other = header("p", "f", "n,extrinsic_time,storage_root_time");
    other.push_str("1,7,7\n");
    let mut second = header("p", "e", "n,extrinsic_time,storage_root_time");
    second.push_str("2,50,300\n1,30,100\n3,20,400\n");

    let mut collection = ExtrinsicCollection::new();
    collection.push(FileContent(first).parse().unwrap());
    collection.push(FileContent(other).parse().unwrap());
    collection.push(FileContent(second).parse().unwrap());

    let table = collection.generate_step_table().unwrap();
    // Step 1 of e: times 10 and 30, average 20; step 2: 30 and 50, average
    // 40; step 3: 20. The lowest average is 20. Storage root: 100, 200 and
    // 400, the lowest is 100.
    assert_eq!(
        table.raw_list(),
        vec![
            ("p", "e", &[1u64][..], 200000, 1000000, 0, 0),
            ("p", "e", &[2u64][..], 400000, 2000000, 1000000, 1000000),
            ("p", "e", &[3u64][..], 200000, 4000000, 0, 3000000),
            ("p", "f", &[1u64][..], 70000, 70000, 0, 0),
        ]
    );
}

#[test]
fn step_increase_is_taken_from_the_rounded_averages() {
    let mut text = header("p", "e", "n,extrinsic_time,storage_root_time");
    // Averages 1 / 3 = 0.3333 and 2 / 3 = 0.6667: the increase is
    // 0.6667 / 0.3333 - 1 = 100.0300 percent, not 100.
    text.push_str("1,1,1\n1,0,1\n1,0,1\n2,1,1\n2,1,1\n2,0,1\n");
    let mut collection = ExtrinsicCollection::new();
    collection.push(FileContent(text).parse().unwrap());

    let table = collection.generate_step_table().unwrap();
    assert_eq!(
        table.raw_list(),
        vec![
            ("p", "e", &[1u64][..], 3333, 10000, 0, 0),
            ("p", "e", &[2u64][..], 6667, 10000, 1000300, 0),
        ]
    );
}

#[test]
fn steps_of_one_extrinsic_are_not_compared_with_another() {
    let mut alone = ExtrinsicCollection::new();
    alone.push(propose().parse().unwrap());
    let alone = alone.generate_step_table().unwrap();

    let mut together = ExtrinsicCollection::new();
    together.push(set_balance_killing().parse().unwrap());
    together.push(propose().parse().unwrap());
    let together = together.generate_step_table().unwrap();

    let own: Vec<_> = together.raw_list().into_iter().filter(|row| row.1 == "propose").collect();
    assert_eq!(own, alone.raw_list());
}

#[test]
fn step_table_twice_is_the_same() {
    let mut collection = ExtrinsicCollection::new();
    collection.push(propose().parse().unwrap());
    collection.push(set_balance_killing().parse().unwrap());
    let first = collection.generate_step_table().unwrap();
    let second = collection.generate_step_table().unwrap();
    assert_eq!(first.raw_list(), second.raw_list());
}

#[test]
fn step_table_of_nothing_is_empty() {
    let collection = ExtrinsicCollection::new();
    let table = collection.generate_step_table().unwrap();
    assert!(table.raw_list().is_empty());

    let mut collection = ExtrinsicCollection::new();
    let text = header("p", "e", "n,extrinsic_time,storage_root_time");
    collection.push(FileContent(text).parse().unwrap());
    let table = collection.generate_step_table().unwrap();
    assert!(table.raw_list().is_empty());
}

#[test]
fn step_table_with_nothing_but_zero_to_compare_with_fails() {
    let mut text = header("p", "e", "n,extrinsic_time,storage_root_time");
    text.push_str("1,10,0\n2,30,100\n");
    let mut collection = ExtrinsicCollection::new();
    collection.push(FileContent(text).parse().unwrap());
    assert_eq!(
        collection.generate_step_table().unwrap_err(),
        ExtrinsicCollectionError::EmptyResults
    );
}

#[test]
fn sorting_steps_keeps_ties_in_order() {
    let mut zeta = header("zeta", "e", "n,extrinsic_time,storage_root_time");
    zeta.push_str("1,10,1\n2,20,1\n3,20,1\n4,10,1\n5,30,1\n");
    let mut alpha_late = header("alpha", "late", "n,extrinsic_time,storage_root_time");
    alpha_late.push_str("1,5,1\n");
    let mut alpha_later = header("alpha", "later", "n,extrinsic_time,storage_root_time");
    alpha_later.push_str("1,5,1\n");
    let mut collection = ExtrinsicCollection::new();
    collection.push(FileContent(zeta).parse().unwrap());
    collection.push(FileContent(alpha_late).parse().unwrap());
    collection.push(FileContent(alpha_later).parse().unwrap());

    let mut table = collection.generate_step_table().unwrap();
    table.sort_by_extrinsic_incr_percentage();
    let order: Vec<(&str, &str, u64)> =
        table.raw_list().iter().map(|row| (row.0, row.1, row.2[0])).collect();
    assert_eq!(
        order,
        vec![
            ("alpha", "late", 1),
            ("alpha", "later", 1),
            ("zeta", "e", 5),
            ("zeta", "e", 2),
            ("zeta", "e", 3),
            ("zeta", "e", 1),
            ("zeta", "e", 4),
        ]
    );
}
