use libreviewer::{ExtrinsicCollection, ExtrinsicCollectionError, FileContent};

/// A benchmark file of `count` measurements at one step whose extrinsic
/// times sum to `extrinsic` and whose storage root times sum to
/// `storage_root`.
fn file(pallet: &str, name: &str, count: u64, extrinsic: u64, storage_root: u64) -> FileContent {
    let mut text = format!(
        "Pallet: \"{}\", Extrinsic: \"{}\", Lowest values: [], Highest values: [], Steps: [10], Repeat: 10\n\
         r,extrinsic_time,storage_root_time\n",
        pallet, name
    );
    for i in 0..count {
        // The first measurements are longer by one, so that the sums come out.
        let e = extrinsic / count + if i < extrinsic % count { 1 } else { 0 };
        let s = storage_root / count + if i < storage_root % count { 1 } else { 0 };
        text.push_str(&format!("1,{},{}\n", e, s));
    }
    FileContent(text)
}

fn decimal(ten_thousandths: u128) -> f64 {
    ten_thousandths as f64 / 10000.0
}

#[test]
/// Tests a collection as large as the benchmark binary generates it.
fn test_overview_table_full_files() {
    let files = [
        file("balances", "transfer", 220, 40612533, 18236093),
        file("democracy", "delegate", 60, 90899847, 27890533),
        file("identity", "add_registrar", 190, 15707231, 8932255),
        file("staking", "bond_extra", 110, 20491021, 13325748),
        file("treasury", "tip_new", 230, 40701506, 20252595),
    ];
    let mut collection = ExtrinsicCollection::new();

    for content in &files {
        let extrinsic_result = content.parse().unwrap();
        collection.push(extrinsic_result);
    }

    let mut table = collection.generate_overview_table().unwrap();
    table.sort_by_ratio();

    let expected = [
        ("identity", "add_registrar", 82669.6368, 47011.8684, 1.0, 0.0),
        ("treasury", "tip_new", 176963.0696, 88054.7609, 2.1406, 114.0605),
        ("balances", "transfer", 184602.4227, 82891.3318, 2.233, 123.3014),
        ("staking", "bond_extra", 186282.0091, 121143.1636, 2.2533, 125.333),
        ("democracy", "delegate", 1514997.45, 464842.2167, 18.3259, 1732.5924),
    ];

    let list = table.raw_list();
    assert_eq!(list.len(), 5);

    let mut counter = 0;
    for entry in list {
        assert_eq!(entry.0, expected[counter].0);
        assert_eq!(entry.1, expected[counter].1);
        assert_eq!(decimal(entry.2), expected[counter].2);
        assert_eq!(decimal(entry.3), expected[counter].3);
        assert_eq!(decimal(entry.4), expected[counter].4);
        assert_eq!(decimal(entry.5), expected[counter].5);

        counter += 1;
    }
}

#[test]
/// Tests a small collection, where the expected results have been
/// calculated by hand.
fn test_overview_table_shortened() {
    let files = [
        file("balances", "transfer", 5, 938401, 418904),
        file("democracy", "delegate", 5, 7507098, 2320499),
        file("identity", "add_registrar", 5, 383004, 219372),
        file("staking", "bond_extra", 5, 941220, 589815),
        file("treasury", "tip_new", 6, 843959, 369650),
    ];
    let mut collection = ExtrinsicCollection::new();

    for content in &files {
        let extrinsic_result = content.parse().unwrap();
        collection.push(extrinsic_result);
    }

    let mut table = collection.generate_overview_table().unwrap();
    table.sort_by_ratio();

    let expected = [
        ("identity", "add_registrar", 76600.8, 43874.4, 1.0, 0.0),
        ("treasury", "tip_new", 140659.8333, 61608.3333, 1.8363, 83.6271),
        ("balances", "transfer", 187680.2, 83780.8, 2.4501, 145.0108),
        ("staking", "bond_extra", 188244.0, 117963.0, 2.4575, 145.7468),
        ("democracy", "delegate", 1501419.6, 464099.8, 19.6006, 1860.0573),
    ];

    let list = table.raw_list();
    assert_eq!(list.len(), 5);

    let mut counter = 0;
    for entry in list {
        assert_eq!(entry.0, expected[counter].0);
        assert_eq!(entry.1, expected[counter].1);
        assert_eq!(decimal(entry.2), expected[counter].2);
        assert_eq!(decimal(entry.3), expected[counter].3);
        assert_eq!(decimal(entry.4), expected[counter].4);
        assert_eq!(decimal(entry.5), expected[counter].5);

        counter += 1;
    }
}

#[test]
fn overview_keeps_the_order_of_the_results() {
    let mut collection = ExtrinsicCollection::new();
    collection.push(file("b", "slow", 2, 30, 8).parse().unwrap());
    collection.push(file("a", "fast", 4, 20, 2).parse().unwrap());
    collection.push(file("c", "middle", 1, 10, 1).parse().unwrap());

    let table = collection.generate_overview_table().unwrap();
    let list = table.raw_list();
    // Averages 15, 5 and 10: the second result is the one to compare with.
    assert_eq!(
        list,
        vec![
            ("b", "slow", 150000, 40000, 30000, 2000000),
            ("a", "fast", 50000, 5000, 10000, 0),
            ("c", "middle", 100000, 10000, 20000, 1000000),
        ]
    );
}

#[test]
fn overview_rounds_half_up_at_the_fourth_digit() {
    let mut collection = ExtrinsicCollection::new();
    // 1 / 8 = 0.125 exactly; 3 / 16 = 0.1875, over 0.125 is 1.5.
    collection.push(file("p", "eighth", 8, 1, 1).parse().unwrap());
    collection.push(file("p", "more", 16, 3, 5).parse().unwrap());
    // 100001 / 160000 = 0.62500625, over 0.125 is 5.00005: a tie at the
    // fourth digit, which goes up to 5.0001.
    collection.push(file("p", "tie", 160000, 100001, 0).parse().unwrap());

    let table = collection.generate_overview_table().unwrap();
    let list = table.raw_list();
    assert_eq!(list[0], ("p", "eighth", 1250, 1250, 10000, 0));
    assert_eq!(list[1], ("p", "more", 1875, 3125, 15000, 500000));
    assert_eq!(list[2], ("p", "tie", 6250, 0, 50001, 4000050));
}

#[test]
fn overview_twice_is_the_same() {
    let mut collection = ExtrinsicCollection::new();
    collection.push(file("balances", "transfer", 5, 938401, 418904).parse().unwrap());
    collection.push(file("treasury", "tip_new", 6, 843959, 369650).parse().unwrap());

    let first = collection.generate_overview_table().unwrap();
    let second = collection.generate_overview_table().unwrap();
    assert_eq!(first.raw_list(), second.raw_list());
}

#[test]
fn overview_of_nothing_fails() {
    let collection = ExtrinsicCollection::new();
    assert_eq!(
        collection.generate_overview_table().unwrap_err(),
        ExtrinsicCollectionError::EmptyResults
    );
}

#[test]
fn overview_of_a_result_without_measurements_fails() {
    let mut collection = ExtrinsicCollection::new();
    collection.push(file("balances", "transfer", 5, 938401, 418904).parse().unwrap());
    collection.push(file("treasury", "tip_new", 0, 0, 0).parse().unwrap());
    assert_eq!(
        collection.generate_overview_table().unwrap_err(),
        ExtrinsicCollectionError::EmptyResults
    );
}

#[test]
fn overview_with_nothing_but_zero_to_compare_with_fails() {
    let mut collection = ExtrinsicCollection::new();
    collection.push(file("balances", "transfer", 5, 938401, 418904).parse().unwrap());
    collection.push(file("treasury", "tip_new", 3, 0, 12).parse().unwrap());
    assert_eq!(
        collection.generate_overview_table().unwrap_err(),
        ExtrinsicCollectionError::EmptyResults
    );
}

#[test]
fn overview_of_more_than_can_be_summed_up_fails() {
    let text = "Pallet: \"p\", Extrinsic: \"e\", Lowest values: [], Highest values: [], Steps: [1], Repeat: 2\n\
                r,extrinsic_time,storage_root_time\n\
                1,18446744073709551615,1\n\
                1,1,1\n";
    let mut collection = ExtrinsicCollection::new();
    collection.push(FileContent(String::from(text)).parse().unwrap());
    assert_eq!(
        collection.generate_overview_table().unwrap_err(),
        ExtrinsicCollectionError::Overflow
    );
    assert_eq!(
        collection.generate_step_table().unwrap_err(),
        ExtrinsicCollectionError::Overflow
    );
}

#[test]
fn sort_by_ratio_keeps_ties_in_order() {
    let mut collection = ExtrinsicCollection::new();
    collection.push(file("d", "slow", 1, 40, 1).parse().unwrap());
    collection.push(file("c", "first", 1, 20, 1).parse().unwrap());
    collection.push(file("b", "base", 1, 10, 1).parse().unwrap());
    collection.push(file("a", "second", 2, 40, 1).parse().unwrap());

    let mut table = collection.generate_overview_table().unwrap();
    table.sort_by_ratio();
    let names: Vec<&str> = table.raw_list().iter().map(|row| row.1).collect();
    assert_eq!(names, vec!["base", "first", "second", "slow"]);
}

#[test]
fn error_messages() {
    assert_eq!(
        ExtrinsicCollectionError::EmptyResults.message(),
        "collection does not contain any results"
    );
    assert_eq!(
        ExtrinsicCollectionError::Overflow.message(),
        "collection holds more than can be summed up"
    );
}
