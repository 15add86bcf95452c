use bulletformat::{
    batch_bounds, data_len, max_batch_size, records_from_bytes, refill_capacity, BulletFormat,
    MarlinFormat,
};

#[test]
fn records_from_bytes_reads_whole_records() {
    let mut file = Vec::new();
    for i in 0..10u16 {
        let mut rec = [0u8; 32];
        rec[28..30].copy_from_slice(&(i as i16).to_le_bytes());
        file.extend_from_slice(&rec);
    }
    // A trailing fragment shorter than one record is dropped.
    file.extend_from_slice(&[7u8; 31]);
    let records: Vec<MarlinFormat> = records_from_bytes(&file);
    assert_eq!(records.len(), 10);
    for (i, r) in records.iter().enumerate() {
        assert_eq!(r.score, i as i16);
    }
}

#[test]
fn batch_sizing() {
    assert_eq!(max_batch_size(512 * 1024 * 1024), 16 * 1024 * 1024);
    assert_eq!(data_len(3201, 0), 100);
    assert_eq!(data_len(3201, 1), 100);
    assert_eq!(data_len(3233, 1), 101);
    // 1 MB budget, batches of 1000 records: 32 whole batches per refill.
    assert_eq!(refill_capacity(1024 * 1024, 1000), 32 * 1000 * 32);
}

#[test]
fn streaming_read_yields_ordered_batches() {
    // A file of 100,000 records read with batch size 1,000 and a 1 MB
    // buffer budget yields exactly 100 batches whose concatenation, in
    // order, equals the original record sequence.
    let total = 100_000u32;
    let mut file = Vec::with_capacity(total as usize * 32);
    for i in 0..total {
        let mut rec = [0u8; 32];
        rec[0..4].copy_from_slice(&i.to_le_bytes());
        rec[28..30].copy_from_slice(&((i % 1000) as i16).to_le_bytes());
        file.extend_from_slice(&rec);
    }
    let cap = refill_capacity(1024 * 1024, 1000);
    assert_eq!(cap, 1_024_000);

    let mut batches: Vec<Vec<MarlinFormat>> = Vec::new();
    let mut offset = 0usize;
    while offset < file.len() {
        let end = (offset + cap).min(file.len());
        let records: Vec<MarlinFormat> = records_from_bytes(&file[offset..end]);
        for (s, e) in batch_bounds(records.len(), 1000) {
            batches.push(records[s..e].to_vec());
        }
        offset = end;
    }
    assert_eq!(batches.len(), 100);
    let mut idx = 0u32;
    for batch in &batches {
        assert_eq!(batch.len(), 1000);
        for r in batch {
            assert_eq!(r.occ, idx as u64);
            idx += 1;
        }
    }
    assert_eq!(idx, total);

    // Reassembled bytes equal the original file.
    let rebuilt: Vec<u8> = batches
        .iter()
        .flat_map(|b| b.iter().flat_map(|r| r.to_bytes()))
        .collect();
    assert_eq!(rebuilt, file);
}

#[test]
fn batch_bounds_partition() {
    let bounds = batch_bounds(2500, 1000);
    assert_eq!(bounds, vec![(0, 1000), (1000, 2000), (2000, 2500)]);
    assert_eq!(batch_bounds(0, 16), vec![]);
    assert_eq!(batch_bounds(5, 16), vec![(0, 5)]);
}
