use oxygit::error::ObjectError;
use oxygit::header::{decimal, encode_header, parse_decimal, parse_header_fields};
use oxygit::kind::Kind;
use oxygit::parser::ObjectParser;
use oxygit::reader::{load_object, ObjectReader};
use oxygit::store::{expect_kind, id_to_hex, object_location, parse_id};
use oxygit::writer::{compute_id, encode_object, ObjectWriter};
use std::io::Write;

fn decode_in_pieces(bytes: &[u8], piece: usize) -> Result<(Kind, Vec<u8>), ObjectError> {
    let mut reader = ObjectReader::new();
    let mut body = Vec::new();
    for chunk in bytes.chunks(piece) {
        body.extend(reader.feed(chunk)?);
    }
    let (kind, size) = reader.finish()?;
    assert_eq!(size as usize, body.len());
    Ok((kind, body))
}

fn compress(raw: &[u8]) -> Vec<u8> {
    let mut e = flate2::write::ZlibEncoder::new(Vec::new(), flate2::Compression::default());
    e.write_all(raw).unwrap();
    e.finish().unwrap()
}

fn sample(n: usize) -> Vec<u8> {
    let mut v = Vec::with_capacity(n);
    let mut x: u32 = 12345;
    for _ in 0..n {
        x = x.wrapping_mul(1103515245).wrapping_add(12345);
        v.push((x >> 16) as u8);
    }
    v
}

#[test]
fn hello_blob_has_the_well_known_id() {
    let id = compute_id(Kind::Blob, b"hello\n");
    assert_eq!(id_to_hex(&id), "ce013625030ba8dba906f756967f9e9ca394464a");
}

#[test]
fn hello_blob_prints_back_exactly() {
    let (bytes, id) = encode_object(Kind::Blob, b"hello\n");
    assert_eq!(id, compute_id(Kind::Blob, b"hello\n"));
    let (kind, body) = decode_in_pieces(&bytes, 4096).unwrap();
    assert_eq!(kind, Kind::Blob);
    assert_eq!(body, b"hello\n".to_vec());
}

#[test]
fn empty_blob_id() {
    let id = compute_id(Kind::Blob, b"");
    assert_eq!(id_to_hex(&id), "e69de29bb2d1d6434b8b29ae775ad8c2e48c5391");
}

#[test]
fn round_trip_of_many_bodies() {
    for n in [0usize, 1, 5, 31, 32, 33, 1000, 70000] {
        let body = sample(n);
        let (bytes, _) = encode_object(Kind::Blob, &body);
        for piece in [1usize, 7, 4096, 1 << 20] {
            let (kind, back) = decode_in_pieces(&bytes, piece).unwrap();
            assert_eq!(kind, Kind::Blob);
            assert_eq!(back, body, "length {} in pieces of {}", n, piece);
        }
    }
}

#[test]
fn round_trip_keeps_the_kind() {
    for kind in [Kind::Blob, Kind::Tree, Kind::Commit] {
        let (bytes, _) = encode_object(kind, b"abc");
        let (back, body) = decode_in_pieces(&bytes, 3).unwrap();
        assert_eq!(back, kind);
        assert_eq!(body, b"abc".to_vec());
    }
}

#[test]
fn storing_twice_gives_the_same_id_and_bytes() {
    let body = sample(5000);
    let (a, id_a) = encode_object(Kind::Blob, &body);
    let (b, id_b) = encode_object(Kind::Blob, &body);
    assert_eq!(id_a, id_b);
    assert_eq!(a, b);
    assert_eq!(decode_in_pieces(&a, 100).unwrap().1, body);
}

#[test]
fn writer_id_does_not_depend_on_chunking() {
    let body = sample(3000);
    let mut w = ObjectWriter::new(Kind::Blob, body.len() as u64);
    let mut stored = Vec::new();
    for chunk in body.chunks(77) {
        w.write(chunk).unwrap();
        stored.extend(w.take_output());
    }
    let (tail, id) = w.finish().unwrap();
    stored.extend(tail);
    assert_eq!(id, compute_id(Kind::Blob, &body));
    assert_eq!(decode_in_pieces(&stored, 10).unwrap().1, body);
}

#[test]
fn writer_rejects_a_short_body() {
    let mut w = ObjectWriter::new(Kind::Blob, 5);
    w.write(b"abc").unwrap();
    assert_eq!(w.finish().unwrap_err(), ObjectError::SizeMismatch);
}

#[test]
fn writer_rejects_a_long_body() {
    let mut w = ObjectWriter::new(Kind::Blob, 5);
    w.write(b"abc").unwrap();
    assert_eq!(w.write(b"def").unwrap_err(), ObjectError::SizeMismatch);
    w.write(b"de").unwrap();
    let (_, id) = w.finish().unwrap();
    assert_eq!(id, compute_id(Kind::Blob, b"abcde"));
}

#[test]
fn reader_reports_a_short_body() {
    let bytes = compress(b"blob 10\0hello");
    assert_eq!(decode_in_pieces(&bytes, 4096).unwrap_err(), ObjectError::SizeMismatch);
}

#[test]
fn reader_reports_a_long_body() {
    let bytes = compress(b"blob 2\0hello");
    let mut reader = ObjectReader::new();
    assert_eq!(reader.feed(&bytes).unwrap(), b"he".to_vec());
    assert_eq!(reader.feed(&[]).unwrap_err(), ObjectError::SizeMismatch);
    assert_eq!(reader.finish().unwrap_err(), ObjectError::SizeMismatch);
}

#[test]
fn reader_releases_exactly_the_declared_bytes_of_a_long_body() {
    let mut raw = b"blob 3\0".to_vec();
    let extra = sample(100000);
    raw.extend(&extra);
    let bytes = compress(&raw);
    let mut reader = ObjectReader::new();
    let mut released = Vec::new();
    let mut failed = false;
    for chunk in bytes.chunks(64) {
        match reader.feed(chunk) {
            Ok(b) => released.extend(b),
            Err(e) => {
                assert_eq!(e, ObjectError::SizeMismatch);
                failed = true;
                break;
            }
        }
    }
    assert!(failed);
    assert_eq!(released, extra[..3].to_vec());
    assert_eq!(reader.finish().unwrap_err(), ObjectError::SizeMismatch);
}

#[test]
fn header_without_nul_is_corrupt() {
    let bytes = compress(b"blob 5 hello");
    assert_eq!(decode_in_pieces(&bytes, 4096).unwrap_err(), ObjectError::CorruptObject);
    let long = compress(&[b'a'; 100]);
    assert_eq!(decode_in_pieces(&long, 4096).unwrap_err(), ObjectError::CorruptObject);
}

#[test]
fn unknown_kind_is_corrupt() {
    let bytes = compress(b"blub 5\0hello");
    assert_eq!(decode_in_pieces(&bytes, 4096).unwrap_err(), ObjectError::CorruptObject);
    let upper = compress(b"BLOB 5\0hello");
    assert_eq!(decode_in_pieces(&upper, 4096).unwrap_err(), ObjectError::CorruptObject);
}

#[test]
fn bad_size_is_corrupt() {
    for raw in [&b"blob \0"[..], b"blob x\0", b"blob +5\0hello", b"blob 5 \0hello", b"blob\0"] {
        let bytes = compress(raw);
        assert_eq!(decode_in_pieces(&bytes, 4096).unwrap_err(), ObjectError::CorruptObject);
    }
}

#[test]
fn non_zlib_input_is_corrupt() {
    let mut reader = ObjectReader::new();
    assert_eq!(reader.feed(b"this is not zlib").unwrap_err(), ObjectError::CorruptObject);
    assert_eq!(reader.finish().unwrap_err(), ObjectError::CorruptObject);
}

#[test]
fn truncated_stream_is_corrupt() {
    let (bytes, _) = encode_object(Kind::Blob, &sample(2000));
    let cut = &bytes[..bytes.len() - 3];
    assert_eq!(decode_in_pieces(cut, 4096).unwrap_err(), ObjectError::CorruptObject);
}

#[test]
fn parser_releases_body_within_size() {
    let mut p = ObjectParser::new();
    assert_eq!(p.header(), None);
    assert_eq!(p.push(b"blob 4\0ab").unwrap(), b"ab".to_vec());
    assert_eq!(p.header(), Some((Kind::Blob, 4)));
    assert_eq!(p.finish().unwrap_err(), ObjectError::SizeMismatch);
    assert_eq!(p.push(b"cd").unwrap(), b"cd".to_vec());
    assert_eq!(p.finish().unwrap(), (Kind::Blob, 4));
    assert_eq!(p.push(b"e").unwrap_err(), ObjectError::SizeMismatch);
    assert_eq!(p.check(), Some(ObjectError::SizeMismatch));
}

#[test]
fn parser_with_incomplete_header_is_corrupt_at_the_end() {
    let mut p = ObjectParser::new();
    assert_eq!(p.push(b"tree 1").unwrap(), Vec::<u8>::new());
    assert_eq!(p.check(), None);
    assert_eq!(p.finish().unwrap_err(), ObjectError::CorruptObject);
}

#[test]
fn encode_header_bytes() {
    assert_eq!(encode_header(Kind::Tree, 123), b"tree 123\0".to_vec());
    assert_eq!(encode_header(Kind::Blob, 0), b"blob 0\0".to_vec());
    assert_eq!(encode_header(Kind::Commit, u64::MAX), b"commit 18446744073709551615\0".to_vec());
}

#[test]
fn decimal_rendering() {
    assert_eq!(decimal(0), b"0".to_vec());
    assert_eq!(decimal(9), b"9".to_vec());
    assert_eq!(decimal(10), b"10".to_vec());
    assert_eq!(decimal(1234567890), b"1234567890".to_vec());
}

#[test]
fn decimal_parsing() {
    assert_eq!(parse_decimal(b"0"), Some(0));
    assert_eq!(parse_decimal(b"007"), Some(7));
    assert_eq!(parse_decimal(b"18446744073709551615"), Some(u64::MAX));
    assert_eq!(parse_decimal(b"18446744073709551616"), None);
    assert_eq!(parse_decimal(b""), None);
    assert_eq!(parse_decimal(b"+5"), None);
    assert_eq!(parse_decimal(b"1a"), None);
}

#[test]
fn header_fields() {
    assert_eq!(parse_header_fields(b"blob 6"), Some((Kind::Blob, 6)));
    assert_eq!(parse_header_fields(b"commit 0"), Some((Kind::Commit, 0)));
    assert_eq!(parse_header_fields(b"tree"), None);
    assert_eq!(parse_header_fields(b"tree  1"), None);
    assert_eq!(parse_header_fields(b"blob6"), None);
}

#[test]
fn kind_tokens() {
    assert_eq!(Kind::from_token(b"blob"), Some(Kind::Blob));
    assert_eq!(Kind::from_token(b"tree"), Some(Kind::Tree));
    assert_eq!(Kind::from_token(b"commit"), Some(Kind::Commit));
    assert_eq!(Kind::from_token(b"tag"), None);
    assert_eq!(Kind::Commit.token(), b"commit".to_vec());
}

#[test]
fn hex_forms_of_an_id() {
    let id = compute_id(Kind::Blob, b"hello\n");
    let (dir, file) = object_location(&id);
    assert_eq!(dir, "ce");
    assert_eq!(file, "013625030ba8dba906f756967f9e9ca394464a");
    assert_eq!(parse_id(b"ce013625030ba8dba906f756967f9e9ca394464a"), Some(id));
    assert_eq!(parse_id(b"CE013625030BA8DBA906F756967F9E9CA394464A"), Some(id));
    assert_eq!(parse_id(b"ce01"), None);
    assert_eq!(parse_id(b"zz013625030ba8dba906f756967f9e9ca394464a"), None);
}

#[test]
fn printing_requires_a_blob() {
    assert_eq!(expect_kind(Kind::Blob, Kind::Blob), Ok(()));
    assert_eq!(expect_kind(Kind::Commit, Kind::Blob), Err(ObjectError::UnsupportedKind));
    assert_eq!(expect_kind(Kind::Blob, Kind::Tree), Err(ObjectError::UnsupportedKind));
}

#[test]
fn compressed_bytes_differ_from_raw() {
    let (bytes, _) = encode_object(Kind::Blob, b"hello\n");
    assert_ne!(bytes, b"blob 6\0hello\n".to_vec());
    assert_eq!(bytes[0], 0x78);
}

#[test]
fn size_with_leading_zeros_is_accepted() {
    let mut raw = b"blob ".to_vec();
    raw.extend(vec![b'0'; 28]);
    raw.extend(b"6\0hello\n");
    let bytes = compress(&raw);
    let (kind, body) = decode_in_pieces(&bytes, 4096).unwrap();
    assert_eq!(kind, Kind::Blob);
    assert_eq!(body, b"hello\n".to_vec());
    let (kind, body) = decode_in_pieces(&bytes, 1).unwrap();
    assert_eq!(kind, Kind::Blob);
    assert_eq!(body, b"hello\n".to_vec());
}

#[test]
fn many_leading_zeros_and_a_zero_size() {
    let mut raw = b"tree ".to_vec();
    raw.extend(vec![b'0'; 5000]);
    raw.push(0);
    let bytes = compress(&raw);
    let (kind, body) = decode_in_pieces(&bytes, 7).unwrap();
    assert_eq!(kind, Kind::Tree);
    assert!(body.is_empty());
}

#[test]
fn long_header_text_is_corrupt() {
    let mut raw = b"blob 1".to_vec();
    raw.extend(vec![b'1'; 40]);
    raw.push(0);
    let bytes = compress(&raw);
    assert_eq!(decode_in_pieces(&bytes, 4096).unwrap_err(), ObjectError::CorruptObject);
}

#[test]
fn load_object_reads_back_what_was_encoded() {
    for n in [0usize, 6, 40000] {
        let body = sample(n);
        let (bytes, _) = encode_object(Kind::Tree, &body);
        assert_eq!(load_object(&bytes).unwrap(), (Kind::Tree, body));
    }
}

#[test]
fn load_object_reports_errors() {
    assert_eq!(load_object(b"not zlib at all").unwrap_err(), ObjectError::CorruptObject);
    assert_eq!(load_object(&compress(b"blob 3\0ab")).unwrap_err(), ObjectError::SizeMismatch);
    assert_eq!(load_object(&compress(b"blob 1\0ab")).unwrap_err(), ObjectError::SizeMismatch);
    assert_eq!(load_object(&compress(b"bob 1\0a")).unwrap_err(), ObjectError::CorruptObject);
    let (bytes, _) = encode_object(Kind::Blob, b"hello\n");
    assert_eq!(load_object(&bytes[..bytes.len() - 1]).unwrap_err(), ObjectError::CorruptObject);
}
