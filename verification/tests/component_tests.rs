use csv_sink::dialect::{QuoteStyle, SerializeOptions, SyncOnClose};
use csv_sink::encode::{encode_chunk, encode_header, encode_prelude, format_i64, format_u64};
use csv_sink::encoder::{EncoderState, DEFAULT_ALLOCATION_SIZE};
use csv_sink::frame::{Cell, Chunk, DataType, Field, Schema};
use csv_sink::linearizer::{GetResult, InsertResult, Linearizer};
use csv_sink::writer::{classify_path, should_fsync, Backend};

fn opts() -> SerializeOptions {
    SerializeOptions::new_default()
}

fn opts_with_style(quote_style: QuoteStyle) -> SerializeOptions {
    let mut o = SerializeOptions::new_default();
    o.quote_style = quote_style;
    o
}

fn schema_ab() -> Schema {
    Schema {
        fields: vec![
            Field { name: b"a".to_vec(), dtype: DataType::Int64 },
            Field { name: b"b".to_vec(), dtype: DataType::Str },
        ],
    }
}

#[test]
fn integers_format_exactly() {
    assert_eq!(format_u64(0), b"0".to_vec());
    assert_eq!(format_u64(907), b"907".to_vec());
    assert_eq!(format_i64(-42), b"-42".to_vec());
    assert_eq!(format_i64(i64::MIN), b"-9223372036854775808".to_vec());
    assert_eq!(format_i64(i64::MAX), b"9223372036854775807".to_vec());
}

#[test]
fn quote_styles_render_as_promised() {
    let schema = schema_ab();
    let row = vec![vec![Cell::Int(1), Cell::Text(b"x\"y".to_vec())]];
    let chunk = Chunk { rows: row };
    let necessary = encode_chunk(&chunk, &schema, &opts()).unwrap();
    assert_eq!(necessary, b"1,\"x\"\"y\"\n".to_vec());
    let always = encode_chunk(&chunk, &schema, &opts_with_style(QuoteStyle::Always)).unwrap();
    assert_eq!(always, b"\"1\",\"x\"\"y\"\n".to_vec());
    let never = encode_chunk(&chunk, &schema, &opts_with_style(QuoteStyle::Never)).unwrap();
    assert_eq!(never, b"1,x\"y\n".to_vec());
    let non_numeric =
        encode_chunk(&chunk, &schema, &opts_with_style(QuoteStyle::NonNumeric)).unwrap();
    assert_eq!(non_numeric, b"1,\"x\"\"y\"\n".to_vec());
}

#[test]
fn null_bool_and_plain_text_cells() {
    let schema = Schema {
        fields: vec![
            Field { name: b"a".to_vec(), dtype: DataType::Int64 },
            Field { name: b"c".to_vec(), dtype: DataType::Boolean },
            Field { name: b"b".to_vec(), dtype: DataType::Str },
        ],
    };
    let chunk = Chunk {
        rows: vec![vec![Cell::Null, Cell::Bool(true), Cell::Text(b"plain".to_vec())]],
    };
    let got = encode_chunk(&chunk, &schema, &opts()).unwrap();
    assert_eq!(got, b",true,plain\n".to_vec());
}

#[test]
fn shape_mismatch_is_reported() {
    let schema = schema_ab();
    let chunk = Chunk { rows: vec![vec![Cell::Int(1)]] };
    let err = encode_chunk(&chunk, &schema, &opts()).unwrap_err();
    assert_eq!(err, csv_sink::encode::EncodeError::ShapeMismatch { row: 0 });
}

#[test]
fn header_renders_field_names() {
    assert_eq!(encode_header(&schema_ab(), &opts()), b"a,b\n".to_vec());
    assert_eq!(encode_prelude(&schema_ab(), true, true, &opts()), {
        let mut v = vec![0xEF, 0xBB, 0xBF];
        v.extend_from_slice(b"a,b\n");
        v
    });
    assert_eq!(encode_prelude(&schema_ab(), false, false, &opts()), Vec::<u8>::new());
}

#[test]
fn linearizer_orders_across_lanes() {
    let mut lin = Linearizer::new_with_maintain_order(2, 4, true);
    assert!(matches!(lin.insert(0, 0, b"s0".to_vec()), InsertResult::Inserted));
    assert!(matches!(lin.insert(1, 1, b"s1".to_vec()), InsertResult::Inserted));
    assert!(matches!(lin.insert(0, 2, b"s2".to_vec()), InsertResult::Inserted));
    lin.close_lane(1);
    match lin.get() {
        GetResult::Item(seq, bytes) => {
            assert_eq!(seq, 0);
            assert_eq!(bytes, b"s0".to_vec());
        }
        _ => panic!("expected the smallest sequence number"),
    }
    match lin.get() {
        GetResult::Item(seq, _) => assert_eq!(seq, 1),
        _ => panic!("expected the next sequence number"),
    }
    match lin.get() {
        GetResult::Item(seq, _) => assert_eq!(seq, 2),
        _ => panic!("expected the last buffered slot"),
    }
    lin.close_lane(0);
    assert!(matches!(lin.get(), GetResult::Finished));
}

#[test]
fn linearizer_waits_for_an_open_empty_lane() {
    let mut lin = Linearizer::new_with_maintain_order(2, 4, true);
    assert!(matches!(lin.insert(0, 5, b"x".to_vec()), InsertResult::Inserted));
    // Lane 1 is open and empty: it might still deliver a smaller sequence
    // number, so nothing may leave yet.
    assert!(matches!(lin.get(), GetResult::Pending));
    lin.close_lane(1);
    match lin.get() {
        GetResult::Item(seq, _) => assert_eq!(seq, 5),
        _ => panic!("expected the head once the idle lane closed"),
    }
}

#[test]
fn linearizer_lane_capacity_is_enforced() {
    let mut lin = Linearizer::new_with_maintain_order(1, 2, true);
    assert!(matches!(lin.insert(0, 0, b"one".to_vec()), InsertResult::Inserted));
    assert!(matches!(lin.insert(0, 1, b"two".to_vec()), InsertResult::Inserted));
    match lin.insert(0, 2, b"three".to_vec()) {
        InsertResult::Full(bytes) => assert_eq!(bytes, b"three".to_vec()),
        _ => panic!("a full lane must hand the bytes back"),
    }
}

#[test]
fn linearizer_closed_consumer_rejects_inserts() {
    let mut lin = Linearizer::new_with_maintain_order(1, 4, true);
    lin.close_consumer();
    assert!(matches!(lin.insert(0, 0, b"x".to_vec()), InsertResult::Closed));
}

#[test]
fn linearizer_arrival_order_without_maintain() {
    let mut lin = Linearizer::new_with_maintain_order(2, 4, false);
    assert!(matches!(lin.insert(1, 9, b"late".to_vec()), InsertResult::Inserted));
    // Without order maintenance an open empty lane does not block.
    match lin.get() {
        GetResult::Item(seq, _) => assert_eq!(seq, 9),
        _ => panic!("expected the only available slot"),
    }
    lin.close_lane(0);
    lin.close_lane(1);
    assert!(matches!(lin.get(), GetResult::Finished));
}

#[test]
fn allocation_size_never_shrinks() {
    let schema = schema_ab();
    let mut st = EncoderState::new();
    assert_eq!(st.allocation_size, DEFAULT_ALLOCATION_SIZE);
    let chunk = Chunk { rows: vec![vec![Cell::Int(1), Cell::Text(b"x".to_vec())]] };
    let before = st.allocation_size;
    st.encode_morsel(&chunk, &schema, &opts()).unwrap();
    assert!(st.allocation_size >= before);
    let bigger = Chunk {
        rows: vec![vec![Cell::Int(2), Cell::Text(b"y".repeat(64))]],
    };
    let mid = st.allocation_size;
    st.encode_morsel(&bigger, &schema, &opts()).unwrap();
    assert!(st.allocation_size >= mid);
}

#[test]
fn paths_pick_their_backend() {
    assert_eq!(classify_path(&b"s3://bucket/k".to_vec()), Backend::Cloud);
    assert_eq!(classify_path(&b"gs://bucket/k".to_vec()), Backend::Cloud);
    assert_eq!(classify_path(&b"gcs://bucket/k".to_vec()), Backend::Cloud);
    assert_eq!(classify_path(&b"abfss://c@acct/k".to_vec()), Backend::Cloud);
    assert_eq!(classify_path(&b"azure://c/k".to_vec()), Backend::Cloud);
    assert_eq!(classify_path(&b"/tmp/data.csv".to_vec()), Backend::Local);
    assert_eq!(classify_path(&b"relative/out.csv".to_vec()), Backend::Local);
    assert_eq!(classify_path(&b"s3x://not-a-scheme".to_vec()), Backend::Local);
    assert_eq!(classify_path(&b"s3:/missing-slash".to_vec()), Backend::Local);
}

#[test]
fn fsync_only_for_local_with_durability() {
    assert!(!should_fsync(Backend::Local, SyncOnClose::Off));
    assert!(should_fsync(Backend::Local, SyncOnClose::Data));
    assert!(should_fsync(Backend::Local, SyncOnClose::All));
    assert!(!should_fsync(Backend::Cloud, SyncOnClose::Off));
    assert!(!should_fsync(Backend::Cloud, SyncOnClose::Data));
    assert!(!should_fsync(Backend::Cloud, SyncOnClose::All));
}

#[test]
fn quoted_field_reads_back() {
    let schema = Schema { fields: vec![Field { name: b"b".to_vec(), dtype: DataType::Str }] };
    let chunk = Chunk { rows: vec![vec![Cell::Text(b"x\"y,z".to_vec())]] };
    let encoded = encode_chunk(&chunk, &schema, &opts()).unwrap();
    assert_eq!(encoded, b"\"x\"\"y,z\"\n".to_vec());
    // Read the field back the way a dialect-aware reader would: strip the
    // outer quotes and fold doubled quote characters.
    let field = &encoded[..encoded.len() - 1];
    assert_eq!(field[0], b'"');
    assert_eq!(field[field.len() - 1], b'"');
    let inner = &field[1..field.len() - 1];
    let mut text = Vec::new();
    let mut i = 0;
    while i < inner.len() {
        if inner[i] == b'"' && i + 1 < inner.len() && inner[i + 1] == b'"' {
            text.push(b'"');
            i += 2;
        } else {
            text.push(inner[i]);
            i += 1;
        }
    }
    assert_eq!(text, b"x\"y,z".to_vec());
}

#[test]
fn linearizer_reports_buffered_sequence_numbers() {
    let mut lin = Linearizer::new_with_maintain_order(2, 4, true);
    assert!(!lin.contains_seq(7));
    assert!(matches!(lin.insert(0, 7, b"x".to_vec()), InsertResult::Inserted));
    assert!(lin.contains_seq(7));
    assert!(!lin.contains_seq(8));
    lin.close_lane(1);
    match lin.get() {
        GetResult::Item(seq, _) => assert_eq!(seq, 7),
        _ => panic!("expected the buffered slot"),
    }
    assert!(!lin.contains_seq(7));
}

#[test]
fn first_bad_cell_is_reported() {
    let schema = schema_ab();
    let chunk = Chunk {
        rows: vec![
            vec![Cell::Int(1), Cell::Text(b"ok".to_vec())],
            vec![Cell::Int(2), Cell::Int(3)],
        ],
    };
    let err = encode_chunk(&chunk, &schema, &opts()).unwrap_err();
    assert_eq!(err, csv_sink::encode::EncodeError::TypeMismatch { row: 1, col: 1 });
    let chunk2 = Chunk {
        rows: vec![vec![Cell::Text(b"bad".to_vec()), Cell::Int(0)]],
    };
    let err2 = encode_chunk(&chunk2, &schema, &opts()).unwrap_err();
    assert_eq!(err2, csv_sink::encode::EncodeError::TypeMismatch { row: 0, col: 0 });
}
