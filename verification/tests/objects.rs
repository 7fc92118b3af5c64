use std::io::{Read, Write};

use minigit::bytes::read_decimal;
use minigit::commands::{cat_file_p, hash_object};
use minigit::cursor::Cursor;
use minigit::error::{Error, ErrorKind};
use minigit::obj_read::{is_valid_name, ObjReader};
use minigit::obj_type::ObjType;
use minigit::obj_write::{write_object, ObjWriter};
use minigit::store::ObjectStore;

fn zlib(data: &[u8]) -> Vec<u8> {
    let mut encoder = flate2::write::ZlibEncoder::new(Vec::new(), flate2::Compression::default());
    encoder.write_all(data).unwrap();
    encoder.finish().unwrap()
}

fn unzlib(data: &[u8]) -> Vec<u8> {
    let mut out = Vec::new();
    flate2::read::ZlibDecoder::new(data).read_to_end(&mut out).unwrap();
    out
}

fn stored(object: &[u8]) -> ObjectStore {
    let mut store = ObjectStore::new();
    store.load("0123456789abcdef0123456789abcdef01234567", zlib(object));
    store
}

const NAME: &str = "0123456789abcdef0123456789abcdef01234567";

#[test]
fn hash_object_of_single_byte() {
    let mut store = ObjectStore::new();
    let name = hash_object(b"A", true, &mut store);
    assert_eq!(name, "8c7e5a667f1b771847fe88c01c3de34413a1b220");
    assert_eq!(store.len(), 1);
    let slot = store.slot(0);
    assert_eq!(slot.name, name.as_bytes());
    assert_eq!(unzlib(&slot.data), b"blob 1\0A");
}

#[test]
fn hash_object_without_write_leaves_the_store() {
    let mut store = ObjectStore::new();
    let name = hash_object(b"A", false, &mut store);
    assert_eq!(name, "8c7e5a667f1b771847fe88c01c3de34413a1b220");
    assert_eq!(store.len(), 0);
}

#[test]
fn hash_of_the_empty_blob() {
    let mut store = ObjectStore::new();
    let name = hash_object(b"", true, &mut store);
    assert_eq!(name, "e69de29bb2d1d6434b8b29ae775ad8c2e48c5391");
    assert_eq!(cat_file_p(&store, &name), Ok(Vec::new()));
}

#[test]
fn cat_file_returns_what_hash_object_wrote() {
    let mut store = ObjectStore::new();
    let content = b"hello\0world\n".to_vec();
    let name = hash_object(&content, true, &mut store);
    assert_eq!(cat_file_p(&store, &name), Ok(content));
}

#[test]
fn cat_file_round_trip_on_every_byte_value() {
    let mut store = ObjectStore::new();
    let content: Vec<u8> = (0..=255u8).cycle().take(70_000).collect();
    let name = hash_object(&content, true, &mut store);
    assert_eq!(cat_file_p(&store, &name), Ok(content));
}

#[test]
fn a_later_install_replaces_an_earlier_one() {
    let mut store = ObjectStore::new();
    store.load(NAME, zlib(b"blob 1\0x"));
    store.load(NAME, zlib(b"blob 1\0y"));
    assert_eq!(cat_file_p(&store, NAME), Ok(b"y".to_vec()));
    assert_eq!(store.len(), 2);
    assert_eq!(store.get(NAME.as_bytes()), Some(&zlib(b"blob 1\0y")));
    assert_eq!(store.get(b"0123"), None);
}

#[test]
fn short_name_is_a_bad_name() {
    let store = ObjectStore::new();
    assert_eq!(cat_file_p(&store, "abc"), Err(Error::BadName));
    assert_eq!(cat_file_p(&store, ""), Err(Error::BadName));
    assert_eq!(Error::BadName.kind(), ErrorKind::BadName);
}

#[test]
fn name_that_is_not_lowercase_hex_is_a_bad_name() {
    let mut store = ObjectStore::new();
    store.load("ABCD", zlib(b"blob 1\0x"));
    store.load("../x", zlib(b"blob 1\0x"));
    assert_eq!(cat_file_p(&store, "ABCD"), Err(Error::BadName));
    assert_eq!(cat_file_p(&store, "../x"), Err(Error::BadName));
    assert!(is_valid_name(b"abcd"));
    assert!(is_valid_name(b"0a1b2c"));
    assert!(!is_valid_name(b"abcg"));
    assert!(!is_valid_name(b"abc"));
}

#[test]
fn missing_object_is_not_found() {
    let mut store = ObjectStore::new();
    assert_eq!(
        cat_file_p(&store, "8c7e5a667f1b771847fe88c01c3de34413a1b220"),
        Err(Error::NotFound)
    );
    hash_object(b"B", true, &mut store);
    assert_eq!(
        cat_file_p(&store, "8c7e5a667f1b771847fe88c01c3de34413a1b220"),
        Err(Error::NotFound)
    );
    assert_eq!(cat_file_p(&store, "8c7e"), Err(Error::NotFound));
    assert_eq!(Error::NotFound.kind(), ErrorKind::NotFound);
}

#[test]
fn file_that_is_no_zlib_stream_is_corrupt() {
    let mut store = ObjectStore::new();
    store.load(NAME, b"blob 1\0A".to_vec());
    assert_eq!(cat_file_p(&store, NAME), Err(Error::CorruptStream));
    assert_eq!(Error::CorruptStream.kind(), ErrorKind::Io);
    let mut cut = zlib(b"blob 5\0hello");
    cut.truncate(cut.len() - 3);
    assert!(ObjReader::from_file(&cut).is_err());
}

#[test]
fn unparseable_headers_are_malformed() {
    for object in [
        &b"blob"[..],
        b"blob 1",
        b"blob x\0A",
        b"blob \0A",
        b"blob -1\0A",
        b"blob 1 \0A",
        b"bloc 1\0A",
        b"BLOB 1\0A",
        b" 1\0A",
        b"blob 99999999999999999999999999\0A",
    ] {
        assert_eq!(cat_file_p(&stored(object), NAME), Err(Error::Malformed));
    }
    assert_eq!(Error::Malformed.kind(), ErrorKind::Malformed);
}

#[test]
fn header_size_is_digits_and_nothing_else() {
    assert_eq!(cat_file_p(&stored(b"blob +1\0A"), NAME), Err(Error::Malformed));
    assert_eq!(cat_file_p(&stored(b"blob 1+\0A"), NAME), Err(Error::Malformed));
    assert_eq!(cat_file_p(&stored(b"blob 0x1\0A"), NAME), Err(Error::Malformed));
    assert_eq!(cat_file_p(&stored(b"blob 001\0A"), NAME), Ok(b"A".to_vec()));
}

#[test]
fn reader_knows_type_and_size_after_open() {
    let store = stored(b"commit 3\0abc");
    let reader = ObjReader::from_hash(&store, NAME).unwrap();
    assert_eq!(reader.obj_type(), ObjType::Commit);
    assert_eq!(reader.size(), 3);
    let tag = ObjReader::from_file(&zlib(b"tag 0\0")).unwrap();
    assert_eq!(tag.obj_type(), ObjType::Tag);
    assert_eq!(tag.size(), 0);
}

#[test]
fn reader_delivers_exactly_the_declared_size() {
    let mut reader = ObjReader::from_file(&zlib(b"blob 5\0hello")).unwrap();
    assert_eq!(reader.eof(), Ok(false));
    assert_eq!(reader.read(2), Ok(b"he".to_vec()));
    assert_eq!(reader.read(0), Ok(Vec::new()));
    assert_eq!(reader.read(100), Ok(b"llo".to_vec()));
    assert_eq!(reader.read(100), Ok(Vec::new()));
    assert_eq!(reader.eof(), Ok(true));
}

#[test]
fn stream_shorter_than_declared_is_an_unexpected_eof() {
    let mut reader = ObjReader::from_file(&zlib(b"blob 9\0hello")).unwrap();
    assert_eq!(reader.read_to_end(), Err(Error::UnexpectedEof));
    assert_eq!(reader.read(5), Ok(b"hello".to_vec()));
    assert_eq!(reader.eof(), Ok(false));
    assert_eq!(reader.read(1), Err(Error::UnexpectedEof));
    assert_eq!(reader.read_exact(1), Err(Error::UnexpectedEof));
    assert_eq!(Error::UnexpectedEof.kind(), ErrorKind::SizeMismatch);
}

#[test]
fn stream_longer_than_declared_is_a_size_mismatch() {
    let mut reader = ObjReader::from_file(&zlib(b"blob 3\0hello")).unwrap();
    assert_eq!(reader.read_to_end(), Err(Error::SizeMismatch));
    assert_eq!(reader.read(4), Err(Error::SizeMismatch));
    assert_eq!(reader.read_exact(4), Err(Error::SizeMismatch));
    assert_eq!(reader.read_exact(3), Ok(b"hel".to_vec()));
    assert_eq!(reader.eof(), Err(Error::TrailingBytes));
    assert_eq!(Error::SizeMismatch.kind(), ErrorKind::SizeMismatch);
    assert_eq!(Error::TrailingBytes.kind(), ErrorKind::SizeMismatch);
}

#[test]
fn read_up_to_stops_at_the_delimiter() {
    let mut reader = ObjReader::from_file(&zlib(b"blob 11\0one two\0end")).unwrap();
    assert_eq!(reader.read_up_to(b' '), Ok(b"one".to_vec()));
    assert_eq!(reader.read_up_to(0), Ok(b"two".to_vec()));
    assert_eq!(reader.read_up_to(b' '), Err(Error::UnexpectedEof));
    assert_eq!(reader.read_to_end(), Ok(b"end".to_vec()));
}

#[test]
fn read_up_to_does_not_look_beyond_the_declared_size() {
    let mut reader = ObjReader::from_file(&zlib(b"blob 3\0abc def")).unwrap();
    assert_eq!(reader.read_up_to(b' '), Err(Error::SizeMismatch));
    let mut exact = ObjReader::from_file(&zlib(b"blob 4\0abc def")).unwrap();
    assert_eq!(exact.read_up_to(b' '), Ok(b"abc".to_vec()));
}

#[test]
fn writer_checks_the_announced_size() {
    let mut store = ObjectStore::new();
    let mut short = ObjWriter::new(ObjType::Blob, 3, true);
    assert_eq!(short.write(b"ab"), Ok(2));
    assert_eq!(short.check(), Err(Error::SizeShort));
    assert_eq!(short.finish(&mut store), Err(Error::SizeShort));
    let mut long = ObjWriter::new(ObjType::Blob, 3, true);
    assert_eq!(long.write(b"ab"), Ok(2));
    assert_eq!(long.write(b"cd"), Err(Error::SizeExceeded));
    assert_eq!(long.write(b""), Err(Error::SizeExceeded));
    assert_eq!(long.finish(&mut store), Err(Error::SizeExceeded));
    assert_eq!(store.len(), 0);
    assert_eq!(Error::SizeShort.kind(), ErrorKind::SizeMismatch);
    assert_eq!(Error::SizeExceeded.kind(), ErrorKind::SizeMismatch);
}

#[test]
fn writer_takes_the_payload_in_pieces() {
    let mut store = ObjectStore::new();
    let mut writer = ObjWriter::new(ObjType::Blob, 5, true);
    assert_eq!(writer.write(b"he"), Ok(2));
    assert_eq!(writer.write(b""), Ok(0));
    assert_eq!(writer.write(b"llo"), Ok(3));
    assert_eq!(writer.check(), Ok(()));
    let name = writer.finish(&mut store).unwrap();
    assert_eq!(name, "b6fc4c620b67d95f953a5c1c1230aaab5db5a1b0");
    assert_eq!(name, write_object(ObjType::Blob, b"hello", false, &mut store));
    assert_eq!(unzlib(&store.slot(0).data), b"blob 5\0hello");
}

#[test]
fn written_object_goes_through_a_temporary_name() {
    let mut store = ObjectStore::new();
    write_object(ObjType::Blob, b"one", true, &mut store);
    write_object(ObjType::Blob, b"two", true, &mut store);
    let first = store.slot(0).tmp_name.clone().unwrap();
    let second = store.slot(1).tmp_name.clone().unwrap();
    assert_eq!(first.len(), 46);
    assert!(first.starts_with(b"tmpobj"));
    assert!(first[6..].iter().all(|b| b.is_ascii_digit() || (b'a'..=b'f').contains(b)));
    assert_ne!(first, second);
    store.load("abcd", Vec::new());
    assert_eq!(store.slot(2).tmp_name, None);
}

#[test]
fn temporary_name_is_the_nonce_in_hex() {
    assert_eq!(ObjWriter::tmp_path(&[0x00, 0x1f, 0xa0, 0xff]), b"tmpobj001fa0ff".to_vec());
    assert_eq!(ObjWriter::tmp_path(&[]), b"tmpobj".to_vec());
}

#[test]
fn names_of_the_four_types() {
    assert_eq!(write_object(ObjType::Commit, b"", false, &mut ObjectStore::new()).len(), 40);
    for (label, obj_type) in [
        ("commit", ObjType::Commit),
        ("tree", ObjType::Tree),
        ("blob", ObjType::Blob),
        ("tag", ObjType::Tag),
    ] {
        assert_eq!(obj_type.to_str(), label);
        assert_eq!(ObjType::from_bytes(label.as_bytes()), Ok(obj_type));
    }
    assert_eq!(ObjType::from_bytes(b"blobs"), Err(Error::Malformed));
    assert_eq!(ObjType::from_bytes(b""), Err(Error::Malformed));
    assert_eq!(ObjType::from_bytes(b"Tree"), Err(Error::Malformed));
}

#[test]
fn the_type_is_part_of_the_name() {
    let mut store = ObjectStore::new();
    let blob = write_object(ObjType::Blob, b"x", false, &mut store);
    let tag = write_object(ObjType::Tag, b"x", false, &mut store);
    assert_ne!(blob, tag);
}

#[test]
fn decimal_numbers() {
    assert_eq!(read_decimal(b"0"), Some(0));
    assert_eq!(read_decimal(b"42"), Some(42));
    assert_eq!(read_decimal(b"+42"), None);
    assert_eq!(read_decimal(b"0042"), Some(42));
    assert_eq!(read_decimal(b""), None);
    assert_eq!(read_decimal(b"+"), None);
    assert_eq!(read_decimal(b"-1"), None);
    assert_eq!(read_decimal(b"4 2"), None);
    assert_eq!(read_decimal(b"++1"), None);
    assert_eq!(read_decimal(usize::MAX.to_string().as_bytes()), Some(usize::MAX));
    assert_eq!(read_decimal(b"340282366920938463463374607431768211456"), None);
    let mut out = b"n=".to_vec();
    minigit::bytes::append_decimal(&mut out, 0);
    minigit::bytes::append_decimal(&mut out, 1905);
    minigit::bytes::append_decimal(&mut out, u64::MAX);
    assert_eq!(out, b"n=0190518446744073709551615".to_vec());
}

#[test]
fn cursor_reads_from_front_to_back() {
    let mut cursor = Cursor::new(b"ab cd".to_vec());
    assert_eq!(cursor.read_byte(), Ok(b'a'));
    assert_eq!(cursor.read_up_to(b' '), Ok(b"b".to_vec()));
    assert_eq!(cursor.position(), 3);
    assert_eq!(cursor.read_up_to(b' '), Err(Error::UnexpectedEof));
    assert_eq!(cursor.read_exact(3), Err(Error::UnexpectedEof));
    assert_eq!(cursor.remaining_bytes(), b"cd".to_vec());
    assert_eq!(cursor.rest(), b"cd");
    assert_eq!(cursor.read_exact(2), Ok(b"cd".to_vec()));
    assert_eq!(cursor.read_byte(), Err(Error::UnexpectedEof));
    assert_eq!(cursor.consumed_bytes(), b"ab cd".to_vec());
    assert_eq!(cursor.remaining_len(), 0);
    let mut other = Cursor::new(b"xyz".to_vec());
    other.advance(2);
    assert_eq!(minigit::cursor::read_byte(&mut other), Ok(b'z'));
    let mut third = Cursor::new(b"k=v".to_vec());
    assert_eq!(minigit::cursor::read_up_to(&mut third, b'='), Ok(b"k".to_vec()));
}
