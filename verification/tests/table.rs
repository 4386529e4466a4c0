use hash_hack_dbms::data::{read_record, record_bytes, Tbl, TblMeta, HEADER_LEN};
use hash_hack_dbms::error::Error;
use hash_hack_dbms::stream::{write_table, TblReader, TblWriter};

fn header(len: u64, keysize: u32, valsize: u32) -> Vec<u8> {
    let mut out = Vec::new();
    out.extend_from_slice(&len.to_le_bytes());
    out.extend_from_slice(&keysize.to_le_bytes());
    out.extend_from_slice(&valsize.to_le_bytes());
    out
}

#[test]
fn header_is_sixteen_bytes_little_endian() {
    let meta = TblMeta { len: 102_400_000, keysize: 4, valsize: 4 };
    let bytes = meta.to_le_bytes();
    assert_eq!(bytes.len(), HEADER_LEN);
    assert_eq!(bytes, header(102_400_000, 4, 4));
    assert_eq!(
        bytes,
        vec![0x00, 0x80, 0x1A, 0x06, 0, 0, 0, 0, 4, 0, 0, 0, 4, 0, 0, 0]
    );
}

#[test]
fn header_reads_back() {
    let meta = TblMeta { len: 5, keysize: 4, valsize: 8 };
    assert_eq!(TblMeta::from_raw(&meta.to_le_bytes()), Ok(meta));
    let mut longer = meta.to_le_bytes();
    longer.extend_from_slice(&[9, 9, 9]);
    assert_eq!(TblMeta::from_raw(&longer), Ok(meta));
}

#[test]
fn short_header_is_bad_header() {
    assert_eq!(TblMeta::from_raw(&[0u8; 15]), Err(Error::BadHeader));
    assert_eq!(TblMeta::from_raw(&[]), Err(Error::BadHeader));
}

#[test]
fn table_size_is_header_plus_records() {
    assert_eq!(TblMeta { len: 0, keysize: 4, valsize: 4 }.tbl_bytes(), 16);
    assert_eq!(TblMeta { len: 4, keysize: 4, valsize: 4 }.tbl_bytes(), 48);
    assert_eq!(TblMeta { len: 102_400_000, keysize: 4, valsize: 4 }.tbl_bytes(), 819_200_016);
    assert_eq!(TblMeta { len: 3, keysize: 4, valsize: 8 }.tbl_bytes(), 52);
}

#[test]
fn checked_table_size_detects_overflow() {
    assert_eq!(TblMeta { len: 4, keysize: 4, valsize: 4 }.checked_tbl_bytes(), Some(48));
    assert_eq!(TblMeta { len: u64::MAX, keysize: 4, valsize: 4 }.checked_tbl_bytes(), None);
    assert_eq!(
        TblMeta { len: (u64::MAX - 16) / 8, keysize: 4, valsize: 4 }.checked_tbl_bytes(),
        Some(16 + ((u64::MAX - 16) / 8) * 8)
    );
    assert_eq!(TblMeta { len: u64::MAX, keysize: 0, valsize: 0 }.checked_tbl_bytes(), Some(16));
}

#[test]
fn image_of_records_has_the_announced_size() {
    let records = vec![(1u32, 10u32), (2, 20), (3, 30)];
    let tbl = Tbl::from_records(&records);
    let image = tbl.to_bytes();
    assert_eq!(image.len() as u64, tbl.meta().tbl_bytes());
    assert_eq!(image.len(), 16 + 3 * 8);
    assert_eq!(&image[..16], &header(3, 4, 4)[..]);
    assert_eq!(&image[16..24], &[1, 0, 0, 0, 10, 0, 0, 0]);
}

#[test]
fn read_all_of_write_all_is_identity() {
    let records = vec![(0x1AD5_BE0Du32, 2u32), (0x83DC_EFB7, 1), (u32::MAX, 0), (0, u32::MAX)];
    let tbl = Tbl::from_records(&records);
    assert_eq!(tbl.to_records(), Ok(records.clone()));
    let again = Tbl::from_raw(&tbl.to_bytes()).unwrap();
    assert_eq!(again.meta(), tbl.meta());
    assert_eq!(again.data(), tbl.data());
    assert_eq!(again.to_records(), Ok(records));
}

#[test]
fn truncated_table_is_bad_header() {
    let tbl = Tbl::from_records(&vec![(1, 1), (2, 2)]);
    let image = tbl.to_bytes();
    assert!(matches!(Tbl::from_raw(&image[..10]), Err(Error::BadHeader)));
    assert!(matches!(Tbl::from_raw(&image[..16]), Err(Error::BadHeader)));
    assert!(matches!(Tbl::from_raw(&image[..image.len() - 1]), Err(Error::BadHeader)));
}

#[test]
fn table_with_bytes_to_spare_is_bad_header() {
    let mut image = Tbl::from_records(&vec![(1, 1)]).to_bytes();
    image.push(0);
    assert!(matches!(Tbl::from_raw(&image), Err(Error::BadHeader)));
}

#[test]
fn header_whose_size_overflows_is_bad_header() {
    let image = header(u64::MAX, 4, 4);
    assert!(matches!(Tbl::from_raw(&image), Err(Error::BadHeader)));
}

#[test]
fn header_only_table_is_valid() {
    let tbl = Tbl::from_raw(&header(0, 4, 4)).unwrap();
    assert_eq!(tbl.len(), 0);
    assert_eq!(tbl.to_records(), Ok(vec![]));
    assert_eq!(tbl.to_bytes(), header(0, 4, 4));
}

#[test]
fn partly_filled_table_is_read_with_its_real_count() {
    let mut image = header(5, 4, 4);
    image.extend_from_slice(&record_bytes((7, 70)));
    image.extend_from_slice(&record_bytes((8, 80)));
    assert!(matches!(Tbl::from_raw(&image), Err(Error::BadHeader)));
    let tbl = Tbl::from_raw_partial(&image).unwrap();
    assert_eq!(tbl.meta(), TblMeta { len: 2, keysize: 4, valsize: 4 });
    assert_eq!(tbl.to_records(), Ok(vec![(7, 70), (8, 80)]));
    assert_eq!(tbl.to_bytes().len() as u64, tbl.meta().tbl_bytes());
}

#[test]
fn partly_filled_table_accepts_a_full_one() {
    let image = Tbl::from_records(&vec![(1, 2), (3, 4)]).to_bytes();
    let tbl = Tbl::from_raw_partial(&image).unwrap();
    assert_eq!(tbl.to_records(), Ok(vec![(1, 2), (3, 4)]));
}

#[test]
fn partly_filled_table_refuses_broken_images() {
    let mut image = header(1, 4, 4);
    image.extend_from_slice(&record_bytes((7, 70)));
    image.extend_from_slice(&record_bytes((8, 80)));
    assert!(matches!(Tbl::from_raw_partial(&image), Err(Error::BadHeader)));
    let mut torn = header(5, 4, 4);
    torn.extend_from_slice(&[1, 2, 3]);
    assert!(matches!(Tbl::from_raw_partial(&torn), Err(Error::BadHeader)));
    assert!(matches!(Tbl::from_raw_partial(&[0u8; 10]), Err(Error::BadHeader)));
    let mut no_width = header(5, 0, 0);
    no_width.push(1);
    assert!(matches!(Tbl::from_raw_partial(&no_width), Err(Error::BadHeader)));
    assert!(Tbl::from_raw_partial(&header(5, 0, 0)).is_ok());
}

#[test]
fn record_by_index() {
    let tbl = Tbl::from_records(&vec![(1, 10), (2, 20), (3, 30)]);
    assert_eq!(tbl.record(0), Ok((1, 10)));
    assert_eq!(tbl.record(2), Ok((3, 30)));
    assert_eq!(tbl.record(3), Err(Error::EndOfTable));
    assert_eq!(tbl.record(u64::MAX), Err(Error::EndOfTable));
}

#[test]
fn wide_keys_are_kind_mismatch() {
    let mut image = header(1, 8, 4);
    image.extend_from_slice(&[0u8; 12]);
    let tbl = Tbl::from_raw(&image).unwrap();
    assert_eq!(tbl.record(0), Err(Error::KindMismatch));
    assert_eq!(tbl.to_records(), Err(Error::KindMismatch));
}

#[test]
fn wide_values_are_kind_mismatch() {
    let mut image = header(1, 4, 8);
    image.extend_from_slice(&[0u8; 12]);
    let tbl = Tbl::from_raw(&image).unwrap();
    assert_eq!(tbl.record(0), Err(Error::KindMismatch));
}

#[test]
fn odd_widths_are_unsupported_width() {
    let mut image = header(2, 3, 4);
    image.extend_from_slice(&[0u8; 14]);
    let tbl = Tbl::from_raw(&image).unwrap();
    assert_eq!(tbl.record(1), Err(Error::UnsupportedWidth));
    let mut other = header(1, 4, 2);
    other.extend_from_slice(&[0u8; 6]);
    assert_eq!(Tbl::from_raw(&other).unwrap().record(0), Err(Error::UnsupportedWidth));
    let mut key_first = header(1, 8, 3);
    key_first.extend_from_slice(&[0u8; 11]);
    assert_eq!(Tbl::from_raw(&key_first).unwrap().record(0), Err(Error::KindMismatch));
}

#[test]
fn record_from_its_bytes() {
    let meta = TblMeta { len: 1, keysize: 4, valsize: 4 };
    assert_eq!(read_record(&meta, &[1, 0, 0, 0, 0, 1, 0, 0]), Ok((1, 256)));
    assert_eq!(record_bytes((1, 256)), vec![1, 0, 0, 0, 0, 1, 0, 0]);
}

#[test]
fn writer_refuses_a_record_past_len() {
    let mut writer = TblWriter::new(TblMeta { len: 2, keysize: 4, valsize: 4 });
    assert!(!writer.is_full());
    assert_eq!(writer.write_item(&record_bytes((1, 10))), Ok(()));
    assert!(!writer.is_full());
    assert_eq!(writer.write_item(&record_bytes((2, 20))), Ok(()));
    assert!(writer.is_full());
    assert_eq!(writer.write_item(&record_bytes((3, 30))), Err(Error::TableFull));
    let tbl = writer.finish();
    assert_eq!(tbl.to_records(), Ok(vec![(1, 10), (2, 20)]));
}

#[test]
fn writer_of_no_room_is_full_at_once() {
    let mut writer = TblWriter::new(TblMeta { len: 0, keysize: 4, valsize: 4 });
    assert!(writer.is_full());
    assert_eq!(writer.write_item(&record_bytes((3, 30))), Err(Error::TableFull));
    assert_eq!(writer.finish().to_bytes(), header(0, 4, 4));
}

#[test]
fn writer_counts_what_was_written() {
    let mut writer = TblWriter::new(TblMeta { len: 100, keysize: 4, valsize: 4 });
    assert_eq!(writer.write_item(&record_bytes((9, 90))), Ok(()));
    let tbl = writer.finish();
    assert_eq!(tbl.meta(), TblMeta { len: 1, keysize: 4, valsize: 4 });
    assert_eq!(tbl.to_bytes().len(), 24);
}

#[test]
fn reader_ends_after_len_records() {
    let tbl = Tbl::from_records(&vec![(1, 10), (2, 20)]);
    let mut reader = TblReader::new(&tbl);
    assert_eq!(reader.read_record(), Ok((1, 10)));
    assert_eq!(reader.read_record(), Ok((2, 20)));
    assert_eq!(reader.read_record(), Err(Error::EndOfTable));
    assert_eq!(reader.read_record(), Err(Error::EndOfTable));
}

#[test]
fn reader_of_an_empty_table_ends_at_once() {
    let tbl = Tbl::from_records(&vec![]);
    let mut reader = TblReader::new(&tbl);
    assert_eq!(reader.read_record(), Err(Error::EndOfTable));
}

#[test]
fn written_table_keeps_or_sorts() {
    let records = vec![(5u32, 1u32), (3, 9), (5, 0), (1, 7)];
    assert_eq!(write_table(&records, false).to_records(), Ok(records.clone()));
    assert_eq!(
        write_table(&records, true).to_records(),
        Ok(vec![(1, 7), (3, 9), (5, 0), (5, 1)])
    );
}
