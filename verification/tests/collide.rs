use hash_hack_dbms::bitmap::SeenKeys;
use hash_hack_dbms::data::{Tbl, TblMeta};
use hash_hack_dbms::error::Error;
use hash_hack_dbms::gendata::{
    extract_table, build_dup, build_resolve, primary_table, resolve_table,
    CollisionResolver,
};
use hash_hack_dbms::stream::DBWriter;
use hash_hack_dbms::query::{query_bili2, query_collision_rehash_resolve};

fn header(len: u64, keysize: u32, valsize: u32) -> Vec<u8> {
    let mut out = Vec::new();
    out.extend_from_slice(&len.to_le_bytes());
    out.extend_from_slice(&keysize.to_le_bytes());
    out.extend_from_slice(&valsize.to_le_bytes());
    out
}

fn records_of(tables: &Vec<Tbl>) -> Vec<Vec<(u32, u32)>> {
    tables.iter().map(|t| t.to_records().unwrap()).collect()
}

#[test]
fn seen_keys_remember() {
    let mut seen = SeenKeys::new();
    assert!(!seen.contains(0));
    assert!(!seen.contains(u32::MAX));
    assert!(!seen.observe(0));
    assert!(seen.contains(0));
    assert!(seen.observe(0));
    assert!(!seen.contains(1));
    assert!(!seen.observe(u32::MAX));
    assert!(seen.observe(u32::MAX));
    assert!(!seen.observe(8));
    assert!(!seen.contains(9));
    assert!(!seen.contains(15));
    assert!(seen.contains(8));
}

#[test]
fn no_collision_gives_one_empty_table() {
    let primary = vec![primary_table(0, 4)];
    let dups = build_dup(&primary, 4).unwrap();
    assert_eq!(dups.len(), 1);
    assert_eq!(dups[0].meta(), TblMeta { len: 0, keysize: 4, valsize: 4 });
    assert_eq!(dups[0].to_bytes().len(), 16);
}

#[test]
fn colliding_ids_are_found_and_resolved() {
    let key = 0x1234_5678;
    let primary = vec![
        Tbl::from_records(&vec![(5, 100), (key, 21), (key, 22), (0xF000_0000, 3)]),
        Tbl::from_records(&vec![(6, 101), (key, 23)]),
    ];
    assert_eq!(query_bili2(&primary, key), Ok(vec![21, 22, 23]));

    let dups = build_dup(&primary, 4).unwrap();
    assert_eq!(records_of(&dups), vec![vec![(key, 22), (key, 23)]]);
    assert_eq!(dups[0].meta(), TblMeta { len: 2, keysize: 4, valsize: 4 });

    let resolver = CollisionResolver::Rehash;
    let resolve = build_resolve(resolver, &dups, 4).unwrap();
    let rekey = resolver.resolve(key, 0);
    assert_eq!(rekey, crc32fast::hash(b"305419896"));
    assert_eq!(records_of(&resolve), vec![vec![(rekey, 22), (rekey, 23)]]);
    assert_eq!(query_collision_rehash_resolve(&resolve, rekey), Ok(vec![22, 23]));
    assert_eq!(query_collision_rehash_resolve(&resolve, key), Ok(vec![]));
}

#[test]
fn every_occurrence_but_the_first_is_a_duplicate() {
    let primary = vec![
        Tbl::from_records(&vec![(1, 10), (2, 20), (2, 21), (3, 30)]),
        Tbl::from_records(&vec![(1, 11), (2, 22), (4, 40), (4, 41), (4, 42)]),
        Tbl::from_records(&vec![(1, 12), (5, 50)]),
    ];
    let dups = build_dup(&primary, 100).unwrap();
    assert_eq!(
        records_of(&dups),
        vec![vec![(2, 21), (1, 11), (2, 22), (4, 41), (4, 42), (1, 12)]]
    );
    let all = &records_of(&dups)[0];
    for (key, occurrences) in [(1u32, 3usize), (2, 3), (3, 1), (4, 3), (5, 1), (6, 0)] {
        let found = all.iter().filter(|r| r.0 == key).count();
        assert_eq!(found, occurrences.saturating_sub(1));
    }
}

#[test]
fn more_duplicates_than_a_table_takes_roll_over() {
    let mut records: Vec<(u32, u32)> = Vec::new();
    for v in 0..6u32 {
        records.push((7, v));
    }
    let primary = vec![Tbl::from_records(&records)];
    let dups = build_dup(&primary, 4).unwrap();
    assert_eq!(dups.len(), 2);
    assert_eq!(
        records_of(&dups),
        vec![vec![(7, 1), (7, 2), (7, 3), (7, 4)], vec![(7, 5)]]
    );
    assert_eq!(dups[0].meta().len, 4);
    assert_eq!(dups[1].meta().len, 1);
    for tbl in dups.iter() {
        assert_eq!(tbl.to_bytes().len() as u64, tbl.meta().tbl_bytes());
    }
}

#[test]
fn a_full_last_table_opens_no_further_one() {
    let records: Vec<(u32, u32)> = (0..9u32).map(|v| (7, v)).collect();
    let dups = build_dup(&vec![Tbl::from_records(&records)], 4).unwrap();
    assert_eq!(
        records_of(&dups),
        vec![vec![(7, 1), (7, 2), (7, 3), (7, 4)], vec![(7, 5), (7, 6), (7, 7), (7, 8)]]
    );
    let records: Vec<(u32, u32)> = (0..10u32).map(|v| (7, v)).collect();
    let dups = build_dup(&vec![Tbl::from_records(&records)], 4).unwrap();
    assert_eq!(dups.len(), 3);
    assert_eq!(dups[2].to_records(), Ok(vec![(7, 9)]));
}

#[test]
fn tables_of_one_record() {
    let records: Vec<(u32, u32)> = vec![(3, 0), (3, 1), (3, 2)];
    let dups = build_dup(&vec![Tbl::from_records(&records)], 1).unwrap();
    assert_eq!(records_of(&dups), vec![vec![(3, 1)], vec![(3, 2)]]);
}

#[test]
fn tables_without_room_are_full_at_the_first_duplicate() {
    let unique = vec![Tbl::from_records(&vec![(1, 1), (2, 2)])];
    let dups = build_dup(&unique, 0).unwrap();
    assert_eq!(records_of(&dups), vec![vec![]]);
    let twice = vec![Tbl::from_records(&vec![(1, 1), (1, 2)])];
    assert!(matches!(build_dup(&twice, 0), Err(Error::TableFull)));
    assert!(matches!(
        build_resolve(CollisionResolver::Rehash, &twice, 0),
        Err(Error::TableFull)
    ));
    let none: Vec<Tbl> = vec![Tbl::from_records(&vec![])];
    let resolve = build_resolve(CollisionResolver::Rehash, &none, 0).unwrap();
    assert_eq!(records_of(&resolve), vec![vec![]]);
}

#[test]
fn passes_stop_at_a_table_that_cannot_be_read() {
    let mut wide = header(1, 4, 8);
    wide.extend_from_slice(&[0u8; 12]);
    let tables = vec![Tbl::from_records(&vec![(1, 1)]), Tbl::from_raw(&wide).unwrap()];
    assert!(matches!(build_dup(&tables, 4), Err(Error::KindMismatch)));
    assert!(matches!(
        build_resolve(CollisionResolver::Rehash, &tables, 4),
        Err(Error::KindMismatch)
    ));
    let mut odd = header(1, 5, 4);
    odd.extend_from_slice(&[0u8; 9]);
    let tables = vec![Tbl::from_raw(&odd).unwrap()];
    assert!(matches!(build_dup(&tables, 4), Err(Error::UnsupportedWidth)));
}

#[test]
fn resolution_tables_are_sorted_table_by_table() {
    let resolver = CollisionResolver::Rehash;
    let dup_records: Vec<(u32, u32)> = (1..=10u32).map(|k| (k, 100 + k)).collect();
    let dups = vec![
        Tbl::from_records(&dup_records[..6].to_vec()),
        Tbl::from_records(&dup_records[6..].to_vec()),
    ];
    let resolve = build_resolve(resolver, &dups, 4).unwrap();
    assert_eq!(resolve.len(), 3);
    let rekeyed: Vec<(u32, u32)> =
        dup_records.iter().map(|r| (resolver.resolve(r.0, r.1), r.1)).collect();
    let mut from = 0;
    for tbl in resolve.iter() {
        let got = tbl.to_records().unwrap();
        let mut expected = rekeyed[from..from + got.len()].to_vec();
        expected.sort();
        assert_eq!(got, expected);
        from += got.len();
    }
    assert_eq!(from, 10);
    assert_eq!(resolve[0].meta().len, 4);
    assert_eq!(resolve[1].meta().len, 4);
    assert_eq!(resolve[2].meta().len, 2);
    for (key, val) in dup_records {
        let hits = query_collision_rehash_resolve(&resolve, resolver.resolve(key, val)).unwrap();
        assert!(hits.contains(&val));
    }
}

#[test]
fn passes_can_be_fed_table_by_table() {
    let first = Tbl::from_records(&vec![(1, 10), (2, 20), (2, 21)]);
    let second = Tbl::from_records(&vec![(1, 11), (3, 30)]);
    let mut seen = SeenKeys::new();
    let mut out = DBWriter::init(2, false);
    assert_eq!(extract_table(&mut seen, &first, &mut out), Ok(()));
    assert!(seen.contains(1) && seen.contains(2) && !seen.contains(3));
    assert_eq!(extract_table(&mut seen, &second, &mut out), Ok(()));
    assert!(seen.contains(3));
    let dups = out.finish();
    assert_eq!(records_of(&dups), vec![vec![(2, 21), (1, 11)]]);

    let resolver = CollisionResolver::Rehash;
    let mut out = DBWriter::init(2, true);
    assert_eq!(resolve_table(resolver, &dups[0], &mut out), Ok(()));
    let resolve = out.finish();
    let mut expected = vec![(resolver.resolve(2, 21), 21), (resolver.resolve(1, 11), 11)];
    expected.sort();
    assert_eq!(records_of(&resolve), vec![expected]);
}

#[test]
fn database_writer_rolls_on_the_record_that_finds_the_table_full() {
    let mut out = DBWriter::init(3, false);
    for v in 0..3u32 {
        assert_eq!(out.write((1, v)), Ok(()));
    }
    let tables = out.finish();
    assert_eq!(records_of(&tables), vec![vec![(1, 0), (1, 1), (1, 2)]]);
    let mut out = DBWriter::init(3, false);
    for v in 0..4u32 {
        assert_eq!(out.write((1, v)), Ok(()));
    }
    assert_eq!(records_of(&out.finish()), vec![vec![(1, 0), (1, 1), (1, 2)], vec![(1, 3)]]);
    let mut none = DBWriter::init(0, false);
    assert_eq!(none.write((1, 1)), Err(Error::TableFull));
    assert_eq!(records_of(&none.finish()), vec![vec![]]);
}

#[test]
fn duplicate_pass_twice_gives_the_same_bytes() {
    let primary = vec![
        Tbl::from_records(&vec![(1, 10), (2, 20), (2, 21)]),
        Tbl::from_records(&vec![(1, 11), (2, 22)]),
    ];
    let once: Vec<Vec<u8>> =
        build_dup(&primary, 2).unwrap().iter().map(|t| t.to_bytes()).collect();
    let again: Vec<Vec<u8>> =
        build_dup(&primary, 2).unwrap().iter().map(|t| t.to_bytes()).collect();
    assert_eq!(once, again);
    assert_eq!(once.len(), 2);
}

#[test]
fn full_tables_can_be_taken_out_early() {
    let mut out = DBWriter::init(2, false);
    assert_eq!(records_of(&out.take_full()), Vec::<Vec<(u32, u32)>>::new());
    for v in 0..5u32 {
        assert_eq!(out.write((1, v)), Ok(()));
    }
    assert_eq!(records_of(&out.take_full()), vec![vec![(1, 0), (1, 1)], vec![(1, 2), (1, 3)]]);
    assert_eq!(records_of(&out.take_full()), Vec::<Vec<(u32, u32)>>::new());
    assert_eq!(out.write((1, 5)), Ok(()));
    assert_eq!(out.write((1, 6)), Ok(()));
    assert_eq!(records_of(&out.take_full()), vec![vec![(1, 4), (1, 5)]]);
    assert_eq!(records_of(&out.finish()), vec![vec![(1, 6)]]);
}
