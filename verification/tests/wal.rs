use lanadb::wal::WAL;
use lanadb::wal_iterator::WALRecordIterator;

// Reads the next record off the iterator and checks every field of it.
fn validate_wal_record(
    it: &mut WALRecordIterator,
    key: &[u8],
    value: Option<&[u8]>,
    timestamp: u128,
    deleted: bool,
) {
    let rec = it.next().unwrap();
    assert_eq!(rec.key, key);
    match value {
        Some(v) => assert_eq!(rec.value.as_ref().unwrap(), &v.to_vec()),
        None => assert_eq!(rec.value, None),
    }
    assert_eq!(rec.timestamp, timestamp);
    assert_eq!(rec.deleted, deleted);
}

#[test]
fn test_write_one() {
    let timestamp: u128 = 42;

    let mut wal = WAL::new();
    wal.set(b"Badri", b"Badri Krishnan", timestamp);
    wal.flush();
    assert_eq!(wal.flushed_len(), wal.contents().len());

    let mut it = WALRecordIterator::new(wal.contents().to_vec());
    validate_wal_record(&mut it, b"Badri", Some(b"Badri Krishnan"), timestamp, false);
    assert!(it.next().is_none());
}

#[test]
fn test_write_many_records() {
    let timestamp: u128 = 7;

    let records: Vec<(&[u8], Option<&[u8]>)> = vec![
        (b"Car", Some(b"Garage")),
        (b"Bike", Some(b"Bike Rack")),
        (b"Pedestrian", Some(b"Pedastrian Walkway")),
    ];
    let mut wal = WAL::new();
    for record in records.iter() {
        wal.set(record.0, record.1.unwrap(), timestamp);
    }
    wal.flush();

    let mut it = WALRecordIterator::new(wal.contents().to_vec());
    for record in records.iter() {
        validate_wal_record(&mut it, record.0, record.1, timestamp, false);
    }
    assert!(it.next().is_none());
}

#[test]
fn test_write_and_delete() {
    let timestamp: u128 = 7;

    let records: Vec<(&[u8], Option<&[u8]>)> = vec![
        (b"Car", Some(b"Garage")),
        (b"Bike", Some(b"Bike Rack")),
        (b"Pedestrian", Some(b"Pedastrian Walkway")),
    ];
    let mut wal = WAL::new();
    for record in records.iter() {
        wal.set(record.0, record.1.unwrap(), timestamp);
    }
    for record in records.iter() {
        wal.delete(record.0, timestamp);
    }
    wal.flush();

    let mut it = WALRecordIterator::new(wal.contents().to_vec());
    for record in records.iter() {
        validate_wal_record(&mut it, record.0, record.1, timestamp, false);
    }
    for record in records.iter() {
        validate_wal_record(&mut it, record.0, None, timestamp, true);
    }
    assert!(it.next().is_none());
}

#[test]
fn test_read_wal_none() {
    let logs: Vec<Vec<u8>> = Vec::new();
    let (new_wal, new_mem_table) = WAL::load_mem_table_from_logs(&logs);
    assert_eq!(new_mem_table.len(), 0);
    assert_eq!(new_wal.contents().len(), 0);
    assert_eq!(new_wal.flushed_len(), 0);
}

#[test]
fn test_read_wal_one() {
    let records: Vec<(&[u8], Option<&[u8]>)> = vec![
        (b"Car", Some(b"Garage")),
        (b"Bike", Some(b"Bike Rack")),
        (b"Pedestrian", Some(b"Pedastrian Walkway")),
    ];
    let mut wal = WAL::new();
    for (time, record) in records.iter().enumerate() {
        wal.set(record.0, record.1.unwrap(), time as u128);
    }
    wal.flush();

    let logs: Vec<Vec<u8>> = vec![wal.contents().to_vec()];
    let (new_wal, recovered_table) = WAL::load_mem_table_from_logs(&logs);

    // The consolidated log holds every record verbatim, in original order,
    // and the rebuilt index serves each key.
    let mut it = WALRecordIterator::new(new_wal.contents().to_vec());
    for (time, record) in records.iter().enumerate() {
        validate_wal_record(&mut it, record.0, record.1, time as u128, false);
        let record_from_mem_table = recovered_table.get(record.0).unwrap();
        assert_eq!(record_from_mem_table.key, record.0);
        assert_eq!(
            record_from_mem_table.value.as_ref().unwrap().as_slice(),
            record.1.unwrap()
        );
        assert_eq!(record_from_mem_table.timestamp, time as u128);
    }
    assert!(it.next().is_none());
    assert_eq!(new_wal.flushed_len(), new_wal.contents().len());
}

// Reopening a log from its stored bytes continues appending after them.
#[test]
fn test_reopen_existing_log() {
    let mut wal = WAL::new();
    wal.set(b"Car", b"Garage", 1);
    wal.flush();

    let mut reopened = WAL::from_contents(wal.contents().to_vec());
    assert_eq!(reopened.flushed_len(), reopened.contents().len());
    reopened.delete(b"Car", 2);
    reopened.flush();

    let mut it = WALRecordIterator::new(reopened.contents().to_vec());
    validate_wal_record(&mut it, b"Car", Some(b"Garage"), 1, false);
    validate_wal_record(&mut it, b"Car", None, 2, true);
    assert!(it.next().is_none());
}

// A log truncated inside its final record yields only the complete records:
// the unflushed tail is discarded silently, never an error.
#[test]
fn test_truncated_tail_discarded() {
    let mut wal = WAL::new();
    wal.set(b"Car", b"Garage", 1);
    wal.set(b"Bike", b"Bike Rack", 2);
    wal.flush();

    let full = wal.contents().to_vec();
    let cut = full[..full.len() - 5].to_vec();

    let mut it = WALRecordIterator::new(cut.clone());
    validate_wal_record(&mut it, b"Car", Some(b"Garage"), 1, false);
    assert!(it.next().is_none());

    // Recovery over the truncated log keeps only the complete record.
    let (_, table) = WAL::load_mem_table_from_logs(&vec![cut]);
    assert_eq!(table.len(), 1);
    assert!(table.get(b"Car").is_some());
    assert!(table.get(b"Bike").is_none());
}
