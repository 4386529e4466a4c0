use hash_hack_dbms::data::Tbl;
use hash_hack_dbms::error::Error;
use hash_hack_dbms::gendata::primary_table;
use hash_hack_dbms::query::{
    query_bili2, query_collision_rehash_resolve, query_db, query_tbl, step, Probe, Stage,
};

fn header(len: u64, keysize: u32, valsize: u32) -> Vec<u8> {
    let mut out = Vec::new();
    out.extend_from_slice(&len.to_le_bytes());
    out.extend_from_slice(&keysize.to_le_bytes());
    out.extend_from_slice(&valsize.to_le_bytes());
    out
}

#[test]
fn query_finds_the_id_of_a_hash() {
    let db = vec![primary_table(0, 4)];
    assert_eq!(query_bili2(&db, 0x83DC_EFB7), Ok(vec![1]));
    assert_eq!(query_bili2(&db, 0x1AD5_BE0D), Ok(vec![2]));
    assert_eq!(query_bili2(&db, 0x6DD2_8E9B), Ok(vec![3]));
    assert_eq!(query_bili2(&db, 0xF3B6_1B38), Ok(vec![4]));
}

#[test]
fn query_of_zero_finds_nothing() {
    let db = vec![primary_table(0, 4)];
    assert_eq!(query_bili2(&db, 0x0000_0000), Ok(vec![]));
}

#[test]
fn query_of_an_empty_catalog_finds_nothing() {
    assert_eq!(query_bili2(&vec![], 0x83DC_EFB7), Ok(vec![]));
    assert_eq!(query_collision_rehash_resolve(&vec![], 0x83DC_EFB7), Ok(vec![]));
    assert_eq!(query_db(&vec![], 0), Ok(vec![]));
}

#[test]
fn query_of_an_empty_table_finds_nothing() {
    let db = vec![primary_table(0, 0)];
    assert_eq!(query_bili2(&db, 0x83DC_EFB7), Ok(vec![]));
}

#[test]
fn query_below_every_key_finds_nothing() {
    let tbl = Tbl::from_records(&vec![(10, 1), (20, 2), (30, 3)]);
    assert_eq!(query_tbl(&tbl, 5), Ok(vec![]));
    assert_eq!(query_tbl(&tbl, 0), Ok(vec![]));
}

#[test]
fn query_above_every_key_is_pruned() {
    let tbl = Tbl::from_records(&vec![(10, 1), (20, 2), (30, 3)]);
    assert_eq!(query_tbl(&tbl, 31), Ok(vec![]));
    assert_eq!(query_tbl(&tbl, u32::MAX), Ok(vec![]));
    let mut probe = Probe::new(3, 31);
    assert_eq!(probe.wanted(), Some(2));
    assert_eq!(probe.feed((30, 3)), None);
    assert_eq!(probe.wanted(), None);
    assert_eq!(probe.stage(), Stage::Done);
}

#[test]
fn query_between_keys_finds_nothing() {
    let tbl = Tbl::from_records(&vec![(10, 1), (20, 2), (30, 3), (40, 4)]);
    for key in [11, 19, 21, 29, 35] {
        assert_eq!(query_tbl(&tbl, key), Ok(vec![]));
    }
}

#[test]
fn query_finds_every_key_of_a_table() {
    let records: Vec<(u32, u32)> = (0..100u32).map(|i| (i * 3, i)).collect();
    let tbl = Tbl::from_records(&records);
    for (key, val) in records {
        assert_eq!(query_tbl(&tbl, key), Ok(vec![val]));
    }
}

#[test]
fn query_gives_a_run_of_equal_keys_in_table_order() {
    let tbl = Tbl::from_records(&vec![(1, 5), (7, 1), (7, 2), (7, 9), (8, 0)]);
    assert_eq!(query_tbl(&tbl, 7), Ok(vec![1, 2, 9]));
    assert_eq!(query_tbl(&tbl, 1), Ok(vec![5]));
    assert_eq!(query_tbl(&tbl, 8), Ok(vec![0]));
}

#[test]
fn query_gives_a_run_longer_than_any_window() {
    let mut records: Vec<(u32, u32)> = vec![(1, 0), (2, 0)];
    for v in 0..1000u32 {
        records.push((50, v));
    }
    records.push((60, 0));
    let tbl = Tbl::from_records(&records);
    let expected: Vec<u32> = (0..1000).collect();
    assert_eq!(query_tbl(&tbl, 50), Ok(expected));
}

#[test]
fn query_of_a_table_of_one_key() {
    let records: Vec<(u32, u32)> = (0..40u32).map(|v| (9, v)).collect();
    let tbl = Tbl::from_records(&records);
    assert_eq!(query_tbl(&tbl, 9), Ok((0..40).collect::<Vec<u32>>()));
    assert_eq!(query_tbl(&tbl, 8), Ok(vec![]));
    assert_eq!(query_tbl(&tbl, 10), Ok(vec![]));
}

#[test]
fn query_puts_the_tables_answers_one_after_the_other() {
    let db = vec![
        Tbl::from_records(&vec![(1, 10), (5, 50), (5, 51)]),
        Tbl::from_records(&vec![]),
        Tbl::from_records(&vec![(2, 20), (3, 30)]),
        Tbl::from_records(&vec![(5, 7), (6, 60)]),
    ];
    assert_eq!(query_db(&db, 5), Ok(vec![50, 51, 7]));
    assert_eq!(query_db(&db, 3), Ok(vec![30]));
    assert_eq!(query_db(&db, 4), Ok(vec![]));
}

#[test]
fn query_does_not_remove_repeated_values() {
    let db = vec![
        Tbl::from_records(&vec![(5, 50)]),
        Tbl::from_records(&vec![(5, 50)]),
    ];
    assert_eq!(query_db(&db, 5), Ok(vec![50, 50]));
}

#[test]
fn query_over_two_bundles() {
    let db = vec![primary_table(0, 1000), primary_table(1, 1000)];
    for id in [1u32, 999, 1000, 1001, 1500, 2000] {
        let key = hash_hack_dbms::hash::primary_key(id);
        assert_eq!(query_bili2(&db, key), Ok(vec![id]));
    }
}

#[test]
fn query_of_a_table_of_other_widths_is_an_error() {
    let mut wide = header(1, 8, 4);
    wide.extend_from_slice(&[0u8; 12]);
    let db = vec![Tbl::from_records(&vec![(1, 1)]), Tbl::from_raw(&wide).unwrap()];
    assert_eq!(query_db(&db, 1), Err(Error::KindMismatch));
    let mut odd = header(1, 4, 3);
    odd.extend_from_slice(&[0u8; 7]);
    let db = vec![Tbl::from_raw(&odd).unwrap(), Tbl::from_raw(&wide).unwrap()];
    assert_eq!(query_db(&db, 1), Err(Error::UnsupportedWidth));
    let db = vec![Tbl::from_raw(&header(0, 8, 8)).unwrap()];
    assert_eq!(query_db(&db, 1), Ok(vec![]));
}

#[test]
fn probe_asks_for_the_last_record_first() {
    let probe = Probe::new(10, 5);
    assert_eq!(probe.stage(), Stage::Sentinel);
    assert_eq!(probe.wanted(), Some(9));
    let empty = Probe::new(0, 5);
    assert_eq!(empty.stage(), Stage::Done);
    assert_eq!(empty.wanted(), None);
}

#[test]
fn probe_halves_the_range() {
    assert_eq!(step(Stage::Sentinel, 10, 5, (9, 0)), (Stage::Search { lo: 0, hi: 10 }, None));
    assert_eq!(
        step(Stage::Search { lo: 0, hi: 10 }, 10, 5, (7, 0)),
        (Stage::Search { lo: 0, hi: 5 }, None)
    );
    assert_eq!(
        step(Stage::Search { lo: 0, hi: 10 }, 10, 5, (3, 0)),
        (Stage::Search { lo: 6, hi: 10 }, None)
    );
    assert_eq!(step(Stage::Search { lo: 4, hi: 5 }, 10, 5, (3, 0)), (Stage::Done, None));
    assert_eq!(step(Stage::Search { lo: 4, hi: 5 }, 10, 5, (7, 0)), (Stage::Done, None));
}

#[test]
fn probe_walks_back_to_the_start_of_the_run_and_collects() {
    assert_eq!(
        step(Stage::Search { lo: 0, hi: 10 }, 10, 5, (5, 1)),
        (Stage::Rewind { at: 5 }, None)
    );
    assert_eq!(step(Stage::Search { lo: 0, hi: 1 }, 10, 5, (5, 1)), (Stage::Collect { at: 0 }, None));
    assert_eq!(step(Stage::Rewind { at: 5 }, 10, 5, (5, 0)), (Stage::Rewind { at: 4 }, None));
    assert_eq!(step(Stage::Rewind { at: 1 }, 10, 5, (5, 0)), (Stage::Collect { at: 0 }, None));
    assert_eq!(step(Stage::Rewind { at: 4 }, 10, 5, (4, 0)), (Stage::Collect { at: 4 }, None));
    assert_eq!(step(Stage::Collect { at: 4 }, 10, 5, (5, 77)), (Stage::Collect { at: 5 }, Some(77)));
    assert_eq!(step(Stage::Collect { at: 9 }, 10, 5, (5, 78)), (Stage::Done, Some(78)));
    assert_eq!(step(Stage::Collect { at: 6 }, 10, 5, (6, 79)), (Stage::Done, None));
    assert_eq!(step(Stage::Done, 10, 5, (5, 80)), (Stage::Done, None));
}

#[test]
fn probe_driven_by_hand_agrees_with_the_query() {
    let records: Vec<(u32, u32)> = vec![(1, 1), (4, 2), (4, 3), (4, 4), (9, 5), (9, 6)];
    let tbl = Tbl::from_records(&records);
    for key in 0..11u32 {
        let mut probe = Probe::new(records.len() as u64, key);
        let mut out = Vec::new();
        let mut reads = 0;
        while let Some(i) = probe.wanted() {
            reads += 1;
            assert!(reads <= 3 * records.len() + 3);
            if let Some(v) = probe.feed(records[i as usize]) {
                out.push(v);
            }
        }
        assert_eq!(Ok(out), query_tbl(&tbl, key));
    }
}

#[test]
fn query_of_both_databases() {
    let key = 77;
    let primary = vec![Tbl::from_records(&vec![(5, 1), (key, 2), (key, 3)])];
    let resolved = vec![Tbl::from_records(&vec![(key, 9), (80, 3)])];
    assert_eq!(hash_hack_dbms::query::query(&primary, &resolved, key), Ok((vec![2, 3], vec![9])));
    assert_eq!(hash_hack_dbms::query::query(&primary, &resolved, 80), Ok((vec![], vec![3])));
    assert_eq!(hash_hack_dbms::query::query(&vec![], &vec![], 80), Ok((vec![], vec![])));
    let mut wide = header(1, 8, 4);
    wide.extend_from_slice(&[0u8; 12]);
    let broken = vec![Tbl::from_raw(&wide).unwrap()];
    assert_eq!(hash_hack_dbms::query::query(&primary, &broken, key), Err(Error::KindMismatch));
    assert_eq!(hash_hack_dbms::query::query(&broken, &resolved, key), Err(Error::KindMismatch));
}

#[test]
fn query_of_a_table_out_of_order_gives_only_records_with_the_key() {
    let tbl = Tbl::from_records(&vec![(9, 1), (3, 2), (9, 3), (1, 4), (9, 5)]);
    for key in [1u32, 3, 9] {
        let found = query_tbl(&tbl, key).unwrap();
        for val in found {
            assert!(tbl.to_records().unwrap().contains(&(key, val)));
        }
    }
}

#[test]
fn every_answer_hashes_to_the_probe() {
    let db = vec![primary_table(0, 300), primary_table(1, 300), primary_table(2, 300)];
    for id in (1u32..=900).step_by(37) {
        let key = hash_hack_dbms::hash::primary_key(id);
        let found = query_bili2(&db, key).unwrap();
        assert!(found.contains(&id));
        for val in found {
            assert_eq!(hash_hack_dbms::hash::primary_key(val), key);
        }
    }
    for key in [0u32, 1, 2, 0xFFFF_FFFF] {
        for val in query_bili2(&db, key).unwrap() {
            assert_eq!(hash_hack_dbms::hash::primary_key(val), key);
        }
    }
}
