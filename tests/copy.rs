use postgres_binary_copy::error::CopyError;
use postgres_binary_copy::reader::BinaryCopyReader;
use postgres_binary_copy::wire::Field;
use postgres_binary_copy::writer::{BinaryCopyWriter, WriteValueReader};

const MAGIC: &[u8] = b"PGCOPY\n\xff\r\n\0";

fn header(flags: u32) -> Vec<u8> {
    let mut v = MAGIC.to_vec();
    v.extend_from_slice(&flags.to_be_bytes());
    v.extend_from_slice(&0u32.to_be_bytes());
    v
}

fn to_field(v: &Option<Vec<u8>>) -> Field {
    match v {
        Some(p) => Field::Value(p.clone()),
        None => Field::Null,
    }
}

/// Runs the encoder over `values`, draining it `chunk` bytes at a time.
fn encode(columns: usize, values: &[Option<Vec<u8>>], chunk: usize) -> Vec<u8> {
    let mut enc = BinaryCopyReader::new(columns);
    let mut out = Vec::new();
    let mut next = 0;
    let mut dest = vec![0u8; chunk];
    loop {
        if enc.is_finished() {
            break;
        }
        if enc.is_drained() {
            if next < values.len() {
                enc.fill_buf(Some(to_field(&values[next]))).unwrap();
                next += 1;
            } else {
                assert!(enc.at_row_boundary());
                enc.fill_buf(None).unwrap();
            }
        }
        let n = enc.read_with_info(&mut dest);
        out.extend_from_slice(&dest[..n]);
    }
    out
}

/// Runs the decoder over `bytes`, offering `chunk` bytes per call.
fn decode(bytes: &[u8], chunk: usize) -> Result<(Vec<Option<Vec<u8>>>, bool), CopyError> {
    let mut dec = BinaryCopyWriter::new();
    let mut fields = Vec::new();
    let mut pos = 0;
    while pos < bytes.len() {
        let end = std::cmp::min(pos + chunk, bytes.len());
        let (n, ev) = dec.write_with_info(&bytes[pos..end])?;
        pos += n;
        match ev {
            Some(Field::Null) => fields.push(None),
            Some(Field::Value(p)) => fields.push(Some(p)),
            None => {}
        }
    }
    Ok((fields, dec.is_done()))
}

fn sample_rows(rows: usize) -> Vec<Option<Vec<u8>>> {
    let mut values = Vec::new();
    for i in 0..rows {
        values.push(Some((i as i32).to_be_bytes().to_vec()));
        if i % 3 == 0 {
            values.push(None);
        } else {
            values.push(Some(format!("the value for {}", i).into_bytes()));
        }
    }
    values
}

#[test]
fn encoder_writes_header_then_footer_for_no_rows() {
    let bytes = encode(2, &[], 64);
    let mut expected = header(0);
    expected.extend_from_slice(&[0xff, 0xff]);
    assert_eq!(bytes, expected);
}

#[test]
fn encoder_writes_exact_tuple_bytes() {
    let values = vec![Some(1i32.to_be_bytes().to_vec()), Some(b"foobar".to_vec())];
    let bytes = encode(2, &values, 3);
    let mut expected = header(0);
    expected.extend_from_slice(&[0, 2]);
    expected.extend_from_slice(&[0, 0, 0, 4, 0, 0, 0, 1]);
    expected.extend_from_slice(&[0, 0, 0, 6]);
    expected.extend_from_slice(b"foobar");
    expected.extend_from_slice(&[0xff, 0xff]);
    assert_eq!(bytes, expected);
}

#[test]
fn encoder_writes_null_marker() {
    let values = vec![None];
    let bytes = encode(1, &values, 100);
    let mut expected = header(0);
    expected.extend_from_slice(&[0, 1, 0xff, 0xff, 0xff, 0xff, 0xff, 0xff]);
    assert_eq!(bytes, expected);
}

#[test]
fn encoder_reports_next_column() {
    let mut enc = BinaryCopyReader::new(3);
    let mut dest = vec![0u8; 64];
    assert_eq!(enc.next_column(), 0);
    enc.read_with_info(&mut dest);
    enc.fill_buf(Some(Field::Null)).unwrap();
    assert_eq!(enc.next_column(), 1);
    assert!(!enc.at_row_boundary());
    enc.read_with_info(&mut dest);
    enc.fill_buf(Some(Field::Null)).unwrap();
    enc.read_with_info(&mut dest);
    enc.fill_buf(Some(Field::Null)).unwrap();
    assert_eq!(enc.next_column(), 0);
    assert!(enc.at_row_boundary());
}

#[test]
fn encoder_refuses_too_wide_schema() {
    let mut enc = BinaryCopyReader::new(40000);
    let mut dest = vec![0u8; 64];
    assert_eq!(enc.read_with_info(&mut dest), 19);
    assert_eq!(enc.fill_buf(Some(Field::Null)), Err(CopyError::SchemaTooWide));
}

#[test]
fn encoder_returns_nothing_after_end() {
    let mut enc = BinaryCopyReader::new(1);
    let mut dest = vec![0u8; 64];
    enc.read_with_info(&mut dest);
    enc.fill_buf(None).unwrap();
    assert_eq!(enc.read_with_info(&mut dest), 2);
    assert!(enc.is_finished());
    assert_eq!(enc.fill_buf(None), Ok(()));
    assert_eq!(enc.read_with_info(&mut dest), 0);
}

#[test]
fn round_trip_no_rows() {
    let bytes = encode(2, &[], 5);
    assert_eq!(decode(&bytes, 4096), Ok((vec![], true)));
}

#[test]
fn round_trip_one_row() {
    let values = sample_rows(1);
    let bytes = encode(2, &values, 5);
    assert_eq!(decode(&bytes, 4096), Ok((values, true)));
}

#[test]
fn round_trip_many_rows() {
    let values = sample_rows(10000);
    let bytes = encode(2, &values, 4096);
    assert_eq!(decode(&bytes, 4096), Ok((values, true)));
}

#[test]
fn round_trip_empty_payload() {
    let values = vec![Some(vec![]), None, Some(vec![7])];
    let bytes = encode(3, &values, 2);
    assert_eq!(decode(&bytes, 1), Ok((values, true)));
}

#[test]
fn decoding_does_not_depend_on_chunk_size() {
    let values = sample_rows(50);
    let bytes = encode(2, &values, 100);
    let whole = decode(&bytes, bytes.len()).unwrap();
    assert_eq!(decode(&bytes, 1).unwrap(), whole);
    assert_eq!(decode(&bytes, 7).unwrap(), whole);
    assert_eq!(whole, (values, true));
}

#[test]
fn decoder_takes_at_most_one_unit_per_call() {
    let mut dec = BinaryCopyWriter::new();
    let mut bytes = header(0);
    bytes.extend_from_slice(&[0, 1, 0, 0, 0, 2, 9, 9, 0xff, 0xff]);
    assert_eq!(dec.write_with_info(&bytes[..10]).unwrap().0, 10);
    assert_eq!(dec.write_with_info(&bytes[10..]).unwrap().0, 9);
    assert_eq!(dec.write_with_info(&bytes[19..]).unwrap().0, 2);
    assert_eq!(dec.write_with_info(&bytes[21..]).unwrap().0, 4);
    match dec.write_with_info(&bytes[25..]).unwrap() {
        (2, Some(Field::Value(p))) => assert_eq!(p, vec![9, 9]),
        _ => panic!("expected the payload"),
    }
    assert_eq!(dec.write_with_info(&bytes[27..]).unwrap().0, 2);
    assert!(dec.is_done());
}

#[test]
fn decoder_counts_oid_field() {
    let mut bytes = header(1 << 16);
    for row in 0..3u32 {
        bytes.extend_from_slice(&[0, 1]);
        bytes.extend_from_slice(&[0, 0, 0, 4]);
        bytes.extend_from_slice(&(100 + row).to_be_bytes());
        bytes.extend_from_slice(&[0, 0, 0, 4]);
        bytes.extend_from_slice(&row.to_be_bytes());
    }
    bytes.extend_from_slice(&[0xff, 0xff]);
    let (fields, done) = decode(&bytes, 3).unwrap();
    assert!(done);
    assert_eq!(fields.len(), 6);
    assert_eq!(fields[0], Some(100u32.to_be_bytes().to_vec()));
    assert_eq!(fields[5], Some(2u32.to_be_bytes().to_vec()));
    let mut dec = BinaryCopyWriter::new();
    dec.write_with_info(&bytes).unwrap();
    assert!(dec.has_oids());
}

#[test]
fn decoder_takes_empty_tuple() {
    let mut bytes = header(0);
    bytes.extend_from_slice(&[0, 0, 0, 0, 0xff, 0xff]);
    assert_eq!(decode(&bytes, 100), Ok((vec![], true)));
}

#[test]
fn decoder_refuses_input_after_end() {
    let mut bytes = encode(1, &[Some(vec![1])], 100);
    let n = bytes.len();
    bytes.push(0);
    assert_eq!(decode(&bytes, 100), Err(CopyError::InputAfterEnd));
    let mut dec = BinaryCopyWriter::new();
    let mut pos = 0;
    while !dec.is_done() {
        pos += dec.write_with_info(&bytes[pos..n]).unwrap().0;
    }
    assert_eq!(pos, n);
    assert_eq!(dec.write_with_info(&bytes[n..]), Err(CopyError::InputAfterEnd));
}

#[test]
fn decoder_hands_out_null_without_payload() {
    let mut bytes = header(0);
    bytes.extend_from_slice(&[0, 2, 0xff, 0xff, 0xff, 0xff, 0, 0, 0, 1, 5, 0xff, 0xff]);
    let mut dec = BinaryCopyWriter::new();
    assert_eq!(dec.write_with_info(&bytes).unwrap().0, 19);
    assert_eq!(dec.write_with_info(&bytes[19..]).unwrap().0, 2);
    match dec.write_with_info(&bytes[21..]).unwrap() {
        (4, Some(Field::Null)) => {}
        _ => panic!("expected a null"),
    }
    // The next unit is the length prefix of the second field.
    assert_eq!(dec.write_with_info(&bytes[25..]).unwrap(), (4, None));
    match dec.write_with_info(&bytes[29..]).unwrap() {
        (1, Some(Field::Value(p))) => assert_eq!(p, vec![5]),
        _ => panic!("expected the payload"),
    }
}

#[test]
fn large_payload_round_trip() {
    let payload: Vec<u8> = (0..128 * 1024).map(|i| (i % 251) as u8).collect();
    let values = vec![Some(payload.clone())];
    let bytes = encode(1, &values, 1000);
    assert_eq!(&bytes[21..25], &[0, 2, 0, 0]);
    assert_eq!(bytes.len(), 19 + 2 + 4 + 128 * 1024 + 2);
    assert_eq!(decode(&bytes, 1000), Ok((values, true)));
}

#[test]
fn decoder_refuses_bad_header() {
    let mut bytes = header(0);
    bytes[3] = b'X';
    bytes.extend_from_slice(&[0, 1, 0, 0, 0, 0, 0xff, 0xff]);
    let mut dec = BinaryCopyWriter::new();
    assert_eq!(dec.write_with_info(&bytes), Err(CopyError::BadHeader));
    assert!(CopyError::BadHeader.is_format_error());
}

#[test]
fn decoder_refuses_critical_flags() {
    let mut dec = BinaryCopyWriter::new();
    assert_eq!(dec.write_with_info(&header(1)), Err(CopyError::CriticalFlags));
    let mut dec = BinaryCopyWriter::new();
    assert_eq!(dec.write_with_info(&header(1 << 17)), Err(CopyError::CriticalFlags));
}

#[test]
fn decoder_refuses_negative_counts() {
    let mut bytes = header(0);
    bytes.extend_from_slice(&[0xff, 0xfe]);
    assert_eq!(decode(&bytes, 100), Err(CopyError::NegativeFieldCount));
    let mut bytes = header(0);
    bytes.extend_from_slice(&[0, 1, 0xff, 0xff, 0xff, 0xfe]);
    assert_eq!(decode(&bytes, 100), Err(CopyError::NegativeFieldLength));
}

#[test]
fn error_kinds_and_messages() {
    assert!(!CopyError::SchemaTooWide.is_format_error());
    assert!(!CopyError::ValueTooLarge.is_format_error());
    assert!(CopyError::InputAfterEnd.is_format_error());
    assert_eq!(CopyError::BadHeader.message(), "Did not receive expected header");
    assert_eq!(CopyError::InputAfterEnd.message(), "Unexpected input after stream end");
}

#[test]
fn value_reader_reads_in_pieces() {
    let mut r = WriteValueReader::new(vec![1, 2, 3, 4, 5]);
    let mut dest = [0u8; 2];
    assert_eq!(r.read(&mut dest), 2);
    assert_eq!(dest, [1, 2]);
    assert_eq!(r.remaining(), 3);
    assert_eq!(r.read(&mut dest), 2);
    assert_eq!(dest, [3, 4]);
    let mut big = [9u8; 4];
    assert_eq!(r.read(&mut big), 1);
    assert_eq!(big, [5, 9, 9, 9]);
    assert_eq!(r.read(&mut big), 0);
}

#[test]
fn field_reports_null() {
    assert!(Field::Null.is_null());
    assert!(!Field::Value(vec![]).is_null());
}

#[test]
fn decoder_hands_out_empty_payload_on_next_call() {
    let mut bytes = header(0);
    bytes.extend_from_slice(&[0, 1, 0, 0, 0, 0, 0xff, 0xff]);
    let mut dec = BinaryCopyWriter::new();
    assert_eq!(dec.write_with_info(&bytes).unwrap(), (19, None));
    assert_eq!(dec.write_with_info(&bytes[19..]).unwrap(), (2, None));
    // Reading the length hands out nothing yet.
    assert_eq!(dec.write_with_info(&bytes[21..]).unwrap(), (4, None));
    // The next call takes no bytes and hands out the empty value.
    assert_eq!(
        dec.write_with_info(&bytes[25..]).unwrap(),
        (0, Some(Field::Value(vec![])))
    );
    assert_eq!(dec.write_with_info(&bytes[25..]).unwrap(), (2, None));
    assert!(dec.is_done());
}

#[test]
fn decoder_stays_terminal_after_end() {
    let bytes = encode(1, &[None], 100);
    let mut dec = BinaryCopyWriter::new();
    let mut pos = 0;
    while !dec.is_done() {
        pos += dec.write_with_info(&bytes[pos..]).unwrap().0;
    }
    assert_eq!(dec.write_with_info(&[1]), Err(CopyError::InputAfterEnd));
    assert_eq!(dec.write_with_info(&[]), Err(CopyError::InputAfterEnd));
    assert!(dec.is_done());
}
