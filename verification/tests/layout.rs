use hash_hack_dbms::data::{TblMeta, UInt};
use hash_hack_dbms::query::load_tblmeta;
use std::mem::size_of;

#[test]
fn check_env() {
    assert_eq!(16, size_of::<TblMeta>())
}

#[test]
fn header_and_integer_are_at_hand_beside_the_tables() {
    assert_eq!(UInt::U32(1).len(), 4);
    let head = TblMeta { len: 0, keysize: 4, valsize: 4 }.to_le_bytes();
    assert_eq!(load_tblmeta(&head, 16), Ok(TblMeta { len: 0, keysize: 4, valsize: 4 }));
}
