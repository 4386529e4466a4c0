use hash_hack_dbms::data::{Tbl, TblMeta};
use hash_hack_dbms::gendata::{build_primary, primary_table, CollisionResolver};
use hash_hack_dbms::hash::{primary_key, rehash};
use crc32fast::hash;

#[test]
fn test_hash_bili2() {
    let uid = 6487381u32;
    let uid_s = format!("{}", uid);
    println!("{}: -h-> {:0x}", uid, hash(uid_s.as_bytes()));
    assert_eq!(primary_key(uid), hash(uid_s.as_bytes()));
    assert_eq!(primary_key(uid), 0x55F5_DEFA);
}

#[test]
fn primary_key_is_crc32_of_decimal_text() {
    assert_eq!(primary_key(1), 0x83DC_EFB7);
    assert_eq!(primary_key(2), 0x1AD5_BE0D);
    assert_eq!(primary_key(3), 0x6DD2_8E9B);
    assert_eq!(primary_key(4), 0xF3B6_1B38);
    assert_eq!(primary_key(0), 0xF4DB_DF21);
    assert_ne!(primary_key(12), 12);
}

#[test]
fn second_hash_is_crc32_of_the_decimal_text_of_the_hash() {
    let resolver = CollisionResolver::Rehash;
    assert_eq!(resolver.resolve(0x83DC_EFB7, 1), 0xE9F5_DC8E);
    assert_eq!(resolver.resolve(0x83DC_EFB7, 99), 0xE9F5_DC8E);
    assert_eq!(resolver.resolve(2_212_294_583, 1), crc32fast::hash(b"2212294583"));
}

#[test]
fn rehash_is_the_hash_of_the_hash() {
    assert_eq!(rehash(0x83DC_EFB7), 0xE9F5_DC8E);
    assert_eq!(rehash(primary_key(1)), crc32fast::hash(b"2212294583"));
    assert_eq!(rehash(7), primary_key(7));
}

#[test]
fn bundle_of_four_is_sorted_by_key() {
    let records = build_primary(0, 4);
    assert_eq!(
        records,
        vec![(0x1AD5_BE0D, 2), (0x6DD2_8E9B, 3), (0x83DC_EFB7, 1), (0xF3B6_1B38, 4)]
    );
    let values: Vec<u32> = records.iter().map(|r| r.1).collect();
    assert_eq!(values, vec![2, 3, 1, 4]);
}

#[test]
fn bundle_table_of_four_has_four_records() {
    let tbl = primary_table(0, 4);
    assert_eq!(tbl.meta(), TblMeta { len: 4, keysize: 4, valsize: 4 });
    assert_eq!(tbl.to_bytes().len(), 16 + 4 * 8);
    assert_eq!(tbl.to_records().unwrap().len(), 4);
}

#[test]
fn second_bundle_covers_the_next_ids() {
    let records = build_primary(1, 4);
    let mut values: Vec<u32> = records.iter().map(|r| r.1).collect();
    values.sort();
    assert_eq!(values, vec![5, 6, 7, 8]);
    for (key, id) in records {
        assert_eq!(key, primary_key(id));
    }
}

#[test]
fn adjacent_keys_never_decrease() {
    let records = build_primary(3, 500);
    assert_eq!(records.len(), 500);
    for pair in records.windows(2) {
        assert!(pair[0].0 <= pair[1].0);
        assert!(pair[0] <= pair[1]);
    }
}

#[test]
fn every_id_of_the_bundle_has_one_record() {
    let records = build_primary(2, 300);
    for id in 601u32..=900 {
        let hits: Vec<&(u32, u32)> = records.iter().filter(|r| r.1 == id).collect();
        assert_eq!(hits.len(), 1);
        assert_eq!(hits[0].0, primary_key(id));
    }
}

#[test]
fn empty_bundle_is_a_header_only_table() {
    assert_eq!(build_primary(0, 0), vec![]);
    assert_eq!(build_primary(7, 0), vec![]);
    let tbl = primary_table(0, 0);
    assert_eq!(tbl.to_bytes(), vec![0, 0, 0, 0, 0, 0, 0, 0, 4, 0, 0, 0, 4, 0, 0, 0]);
    assert!(Tbl::from_raw(&tbl.to_bytes()).is_ok());
}

#[test]
fn building_twice_gives_the_same_bytes() {
    assert_eq!(primary_table(1, 64).to_bytes(), primary_table(1, 64).to_bytes());
}

#[test]
fn last_bundle_reaches_the_largest_id() {
    let records = build_primary(u32::MAX - 1, 1);
    assert_eq!(records, vec![(primary_key(u32::MAX), u32::MAX)]);
    let records = build_primary(0, 1);
    assert_eq!(records, vec![(0x83DC_EFB7, 1)]);
}
