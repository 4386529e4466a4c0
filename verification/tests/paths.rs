use hash_hack_dbms::gendata::CollisionResolver;
use hash_hack_dbms::shell::{tbl_dir, tbl_dup_dir, tbl_dup_path, tbl_path, TblTy, BUNDLE_NAME};

#[test]
fn primary_tables_live_in_numbered_directories() {
    assert_eq!(tbl_dir(0), "data0");
    assert_eq!(tbl_dir(7), "data7");
    assert_eq!(tbl_dir(41), "data41");
    assert_eq!(tbl_dir(1_000_000), "data1000000");
    assert_eq!(tbl_dir(u32::MAX), "data4294967295");
    assert_eq!(tbl_path(0), "data0/db.bin");
    assert_eq!(tbl_path(12), "data12/db.bin");
    assert_eq!(BUNDLE_NAME, "db.bin");
}

#[test]
fn duplicate_tables_live_in_one_directory() {
    assert_eq!(tbl_dup_dir(), "data_dup");
    assert_eq!(tbl_dup_path(0), "data_dup/db_dup_0.bin");
    assert_eq!(tbl_dup_path(10), "data_dup/db_dup_10.bin");
}

#[test]
fn resolution_tables_live_in_one_directory() {
    let resolver = CollisionResolver::Rehash;
    assert_eq!(resolver.dir(), "data_cr_rehash");
    assert_eq!(resolver.pathbuf(0), "data_cr_rehash/db_cr_rehash_0.bin");
    assert_eq!(resolver.pathbuf(305), "data_cr_rehash/db_cr_rehash_305.bin");
}

#[test]
fn a_table_knows_its_path() {
    assert_eq!(TblTy::Normal(3).pathbuf(), "data3/db.bin");
    assert_eq!(TblTy::Dup(3).pathbuf(), "data_dup/db_dup_3.bin");
    assert_eq!(
        TblTy::Resolve(3, CollisionResolver::Rehash).pathbuf(),
        "data_cr_rehash/db_cr_rehash_3.bin"
    );
}

#[test]
fn the_next_table_is_of_the_same_family() {
    assert_eq!(TblTy::Normal(0).add(), TblTy::Normal(1));
    assert_eq!(TblTy::Dup(9).add(), TblTy::Dup(10));
    assert_eq!(
        TblTy::Resolve(u32::MAX - 1, CollisionResolver::Rehash).add(),
        TblTy::Resolve(u32::MAX, CollisionResolver::Rehash)
    );
    assert_eq!(TblTy::Dup(9).id(), 9);
    assert_eq!(TblTy::Normal(1).add().add().id(), 3);
}
