use csv_sink::dialect::{CsvWriterOptions, SerializeOptions, SinkOptions, SyncOnClose};
use csv_sink::encode::EncodeError;
use csv_sink::frame::{Cell, Chunk, DataType, Field, Morsel, Schema};
use csv_sink::sink::CsvSinkNode;
use csv_sink::writer::Backend;

fn schema_ab() -> Schema {
    Schema {
        fields: vec![
            Field { name: b"a".to_vec(), dtype: DataType::Int64 },
            Field { name: b"b".to_vec(), dtype: DataType::Str },
        ],
    }
}

fn schema_a() -> Schema {
    Schema { fields: vec![Field { name: b"a".to_vec(), dtype: DataType::Int64 }] }
}

fn node(
    path: &[u8],
    schema: Schema,
    maintain_order: bool,
    sync_on_close: SyncOnClose,
    include_header: bool,
    include_bom: bool,
) -> CsvSinkNode {
    CsvSinkNode::new(
        path.to_vec(),
        schema,
        SinkOptions { maintain_order, sync_on_close },
        CsvWriterOptions {
            include_header,
            include_bom,
            serialize_options: SerializeOptions::new_default(),
        },
        None,
    )
}

fn int_row_morsel(value: i64, seq: u64) -> Morsel {
    Morsel {
        chunk: Chunk { rows: vec![vec![Cell::Int(value)]] },
        seq,
        consume_token: None,
    }
}

#[test]
fn header_and_two_morsels_single_lane() {
    let sink = node(b"out.csv", schema_ab(), true, SyncOnClose::Off, true, false);
    let lanes = vec![vec![
        Morsel {
            chunk: Chunk { rows: vec![vec![Cell::Int(1), Cell::Text(b"x".to_vec())]] },
            seq: 0,
            consume_token: None,
        },
        Morsel {
            chunk: Chunk { rows: vec![vec![Cell::Int(2), Cell::Text(b"y,z".to_vec())]] },
            seq: 1,
            consume_token: None,
        },
    ]];
    let out = sink.run_sink_once(lanes).unwrap();
    assert_eq!(out.bytes, b"a,b\n1,x\n2,\"y,z\"\n".to_vec());
}

#[test]
fn two_lanes_maintain_order() {
    let sink = node(b"out.csv", schema_a(), true, SyncOnClose::Off, true, false);
    let lanes = vec![
        vec![int_row_morsel(10, 0), int_row_morsel(12, 2)],
        vec![int_row_morsel(11, 1), int_row_morsel(13, 3)],
    ];
    let out = sink.run_sink_once(lanes).unwrap();
    assert_eq!(out.bytes, b"a\n10\n11\n12\n13\n".to_vec());
}

#[test]
fn two_lanes_unordered_all_present() {
    let sink = node(b"out.csv", schema_a(), false, SyncOnClose::Off, false, false);
    let lanes = vec![
        vec![int_row_morsel(10, 0), int_row_morsel(12, 2)],
        vec![int_row_morsel(11, 1), int_row_morsel(13, 3)],
    ];
    let out = sink.run_sink_once(lanes).unwrap();
    let text = String::from_utf8(out.bytes).unwrap();
    let mut lines: Vec<&str> = text.split_terminator('\n').collect();
    assert_eq!(lines.len(), 4);
    lines.sort();
    assert_eq!(lines, vec!["10", "11", "12", "13"]);
}

#[test]
fn bom_only_empty_morsel() {
    let sink = node(b"out.csv", schema_ab(), true, SyncOnClose::Off, false, true);
    let lanes = vec![vec![Morsel {
        chunk: Chunk { rows: vec![] },
        seq: 0,
        consume_token: None,
    }]];
    let out = sink.run_sink_once(lanes).unwrap();
    assert_eq!(out.bytes, vec![0xEF, 0xBB, 0xBF]);
}

#[test]
fn bom_and_header_precede_data() {
    let sink = node(b"out.csv", schema_a(), true, SyncOnClose::Off, true, true);
    let lanes = vec![vec![int_row_morsel(7, 0)]];
    let out = sink.run_sink_once(lanes).unwrap();
    let mut expected = vec![0xEF, 0xBB, 0xBF];
    expected.extend_from_slice(b"a\n7\n");
    assert_eq!(out.bytes, expected);
}

#[test]
fn local_sync_all_closes_and_syncs() {
    let sink = node(b"/tmp/out.csv", schema_a(), true, SyncOnClose::All, false, false);
    let out = sink.run_sink_once(vec![vec![int_row_morsel(1, 0)]]).unwrap();
    assert!(out.closed);
    assert_eq!(out.backend, Backend::Local);
    assert_eq!(out.synced, SyncOnClose::All);
}

#[test]
fn cloud_path_never_syncs() {
    let sink = node(b"s3://bucket/key.csv", schema_a(), true, SyncOnClose::All, false, false);
    let out = sink.run_sink_once(vec![vec![int_row_morsel(1, 0)]]).unwrap();
    assert!(out.closed);
    assert_eq!(out.backend, Backend::Cloud);
    assert_eq!(out.synced, SyncOnClose::Off);
}

#[test]
fn error_on_third_morsel() {
    let sink = node(b"out.csv", schema_a(), true, SyncOnClose::Off, true, false);
    let mut lane = Vec::new();
    for i in 0..5u64 {
        if i == 2 {
            // A textual cell in the integer column: a serialization error.
            lane.push(Morsel {
                chunk: Chunk { rows: vec![vec![Cell::Text(b"oops".to_vec())]] },
                seq: i,
                consume_token: None,
            });
        } else {
            lane.push(int_row_morsel(i as i64, i));
        }
    }
    let err = sink.run_sink_once(vec![lane]).unwrap_err();
    assert_eq!(err, EncodeError::TypeMismatch { row: 0, col: 0 });
}

#[test]
fn empty_input_yields_prelude_only() {
    let sink = node(b"out.csv", schema_ab(), true, SyncOnClose::Off, true, false);
    let out = sink.run_sink_once(vec![vec![], vec![]]).unwrap();
    assert_eq!(out.bytes, b"a,b\n".to_vec());
}

#[test]
fn run_sink_via_port() {
    let sink = node(b"out.csv", schema_a(), true, SyncOnClose::Off, false, false);
    let port = csv_sink::sink::SinkInputPort { lanes: vec![vec![int_row_morsel(5, 0)]] };
    let out = sink.run_sink(port).unwrap();
    assert_eq!(out.bytes, b"5\n".to_vec());
}

#[test]
fn node_flags() {
    let sink = node(b"out.csv", schema_a(), true, SyncOnClose::Off, false, false);
    assert_eq!(sink.name(), "csv_sink");
    assert!(sink.is_sink_input_parallel());
    assert!(sink.do_maintain_order());
    let sink2 = node(b"out.csv", schema_a(), false, SyncOnClose::Off, false, false);
    assert!(!sink2.do_maintain_order());
}
