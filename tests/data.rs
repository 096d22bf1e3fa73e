use flood_fill::data::{DataError, PointReader, PointRecord, PointWriter};

fn record(x: f32, y: f32, z: f32) -> PointRecord {
    PointRecord { x: x.to_bits(), y: y.to_bits(), z: z.to_bits() }
}

#[test]
fn point_read_write() {
    let mut writer = PointWriter::new();

    // Write points
    let points = vec![record(0.5, 1.0, -1.2), record(2.0, 3.0, -4.0)];
    for p in &points {
        writer.write(p);
    }
    let buf = writer.into_bytes();
    assert_eq!(buf.len(), 4 * 3 * 2);

    // Read points
    let reader = PointReader(&buf[..]);
    let got_points = reader.read().unwrap();

    assert_eq!(points, got_points);
}

#[test]
fn write_is_little_endian_f32() {
    let mut writer = PointWriter::new();
    writer.write(&record(1.0, -2.0, 0.0));
    assert_eq!(
        writer.into_bytes(),
        vec![0x00, 0x00, 0x80, 0x3f, 0x00, 0x00, 0x00, 0xc0, 0, 0, 0, 0]
    );
}

#[test]
fn read_empty_stream() {
    let reader = PointReader::new(&[]);
    assert_eq!(reader.read(), Ok(vec![]));
}

#[test]
fn read_truncated_record_fails() {
    let mut writer = PointWriter::new();
    writer.write(&record(1.0, 2.0, 3.0));
    let mut buf = writer.into_bytes();
    buf.pop();
    assert_eq!(PointReader::new(&buf).read(), Err(DataError::Truncated));
}

#[test]
fn round_trip_many_records() {
    let points: Vec<PointRecord> = (0..100)
        .map(|i| record(i as f32 * 1.5, -(i as f32), f32::MAX / (i as f32 + 1.0)))
        .collect();
    let mut writer = PointWriter::new();
    for p in &points {
        writer.write(p);
    }
    let buf = writer.into_bytes();
    assert_eq!(buf.len(), 1200);
    assert_eq!(PointReader::new(&buf).read().unwrap(), points);
}
