use plotting::error::{CanvasError, PlotError};
use plotting::segment::Sample;
use plotting::store::TraceStore;
use plotting::types::{decode, type_from_name, TypeDescriptor, TypeTag, Value};

fn rows_i32_f32(rows: &[(i32, f32)]) -> Vec<u8> {
    let mut out = Vec::new();
    for (x, y) in rows {
        out.extend_from_slice(&x.to_le_bytes());
        out.extend_from_slice(&y.to_le_bytes());
    }
    out
}

#[test]
fn type_names_map_to_widths() {
    let names = [
        ("datetime", 4),
        ("byte", 1),
        ("short", 2),
        ("int", 4),
        ("long", 8),
        ("ushort", 2),
        ("uint", 4),
        ("ulong", 8),
        ("float", 4),
        ("double", 8),
    ];
    for (name, width) in names {
        let d = TypeDescriptor::lookup(name).unwrap();
        assert_eq!(d.size, width, "{}", name);
        assert_eq!(type_from_name(name).unwrap().width(), width);
    }
    assert_eq!(type_from_name("string"), Err(PlotError::UnknownType));
    assert_eq!(type_from_name(""), Err(PlotError::UnknownType));
    assert_eq!(TypeDescriptor::lookup("int8").err(), Some(PlotError::UnknownType));
}

#[test]
fn decode_is_little_endian_and_width_exact() {
    assert_eq!(decode(TypeTag::Int, &(-2i32).to_le_bytes()), Ok(Value::Int(-2)));
    assert_eq!(decode(TypeTag::UInt, &0xfffffffeu32.to_le_bytes()), Ok(Value::Int(0xfffffffe)));
    assert_eq!(decode(TypeTag::Short, &[0x34, 0x12]), Ok(Value::Int(0x1234)));
    assert_eq!(decode(TypeTag::Short, &[0x00, 0x80]), Ok(Value::Int(-32768)));
    assert_eq!(decode(TypeTag::Byte, &[200]), Ok(Value::Int(200)));
    assert_eq!(decode(TypeTag::Long, &i64::MIN.to_le_bytes()), Ok(Value::Int(i64::MIN as i128)));
    assert_eq!(decode(TypeTag::ULong, &u64::MAX.to_le_bytes()), Ok(Value::Int(u64::MAX as i128)));
    assert_eq!(decode(TypeTag::Float, &1.5f32.to_le_bytes()), Ok(Value::F32Bits(1.5f32.to_bits())));
    assert_eq!(decode(TypeTag::Double, &(-0.25f64).to_le_bytes()), Ok(Value::F64Bits((-0.25f64).to_bits())));
    assert_eq!(decode(TypeTag::Int, &[1, 2, 3]), Err(PlotError::MalformedRow));
    let d = TypeDescriptor::lookup("ushort").unwrap();
    assert_eq!(d.parse(&[1, 1]), Ok(Value::Int(257)));
    assert_eq!(d.parse(&[1, 1, 1]), Err(PlotError::MalformedRow));
}

#[test]
fn bulkload_round_trip() {
    let rows: Vec<(i32, f32)> = vec![(-3, 0.5), (0, -1.25), (7, 3.0), (7, 4.0), (1000, 1e9)];
    let mut store = TraceStore::new();
    let h = store.create_trace("t", "int").unwrap();
    store.bulkload_segments(&[h], "int", "float", &rows_i32_f32(&rows)).unwrap();
    let got = store.query_range(h, -3, 1001).unwrap();
    let want: Vec<Sample> = rows
        .iter()
        .map(|&(x, y)| Sample { x: x as i128, y: Value::F32Bits(y.to_bits()) })
        .collect();
    assert_eq!(got, want);
    let seg = &store.get_trace(h).unwrap().segments;
    assert_eq!((seg.len(), seg[0].from, seg[0].to), (1, -3, 1001));
}

#[test]
fn bulkload_demultiplexes_columns() {
    let mut store = TraceStore::new();
    let a = store.create_trace("a", "datetime").unwrap();
    let b = store.create_trace("b", "datetime").unwrap();
    let mut data = Vec::new();
    for (x, ya, yb) in [(10i32, 1i16, -1i16), (20, 2, -2), (30, 3, -3)] {
        data.extend_from_slice(&x.to_le_bytes());
        data.extend_from_slice(&ya.to_le_bytes());
        data.extend_from_slice(&yb.to_le_bytes());
    }
    store.bulkload_segments(&[a, b], "datetime", "short", &data).unwrap();
    let col = |h: usize| -> Vec<(i128, Value)> {
        store.query_range(h, 0, 100).unwrap().iter().map(|s| (s.x, s.y)).collect()
    };
    assert_eq!(col(a), vec![(10, Value::Int(1)), (20, Value::Int(2)), (30, Value::Int(3))]);
    assert_eq!(col(b), vec![(10, Value::Int(-1)), (20, Value::Int(-2)), (30, Value::Int(-3))]);
}

#[test]
fn bulkload_errors_leave_traces_untouched() {
    let mut store = TraceStore::new();
    let h = store.create_trace("t", "int").unwrap();
    let good = rows_i32_f32(&[(1, 1.0), (2, 2.0)]);
    assert_eq!(store.bulkload_segments(&[h], "int", "real", &good), Err(PlotError::UnknownType));
    assert_eq!(store.bulkload_segments(&[h], "double", "float", &good), Err(PlotError::UnknownType));
    assert_eq!(store.bulkload_segments(&[h, 9], "int", "float", &good), Err(PlotError::UnknownHandle));
    assert_eq!(store.bulkload_segments(&[h], "int", "float", &good[..7]), Err(PlotError::MalformedRow));
    let unsorted = rows_i32_f32(&[(5, 1.0), (2, 2.0)]);
    assert_eq!(store.bulkload_segments(&[h], "int", "float", &unsorted), Err(PlotError::MalformedRow));
    assert!(store.get_trace(h).unwrap().segments.is_empty());
    assert_eq!(store.bulkload_segments(&[h], "int", "float", &[]), Ok(()));
    assert!(store.get_trace(h).unwrap().segments.is_empty());
}

#[test]
fn canvas_error_message() {
    let e = CanvasError(String::from("lost context"));
    assert_eq!(e.message(), "Canvas Error: lost context");
}
