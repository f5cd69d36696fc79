use plast::pretokenizer::{eos_bytes, payload_bytes, shard_file_name, FinishedShard, ShardPlanner};

#[test]
fn shard_files_are_numbered_in_decimal() {
    assert_eq!(shard_file_name(0), "pretokenized_shard_0.bin");
    assert_eq!(shard_file_name(7), "pretokenized_shard_7.bin");
    assert_eq!(shard_file_name(10), "pretokenized_shard_10.bin");
    assert_eq!(shard_file_name(1234), "pretokenized_shard_1234.bin");
    assert_eq!(shard_file_name(usize::MAX), format!("pretokenized_shard_{}.bin", usize::MAX));
}

#[test]
fn eos_marker_is_little_endian() {
    assert_eq!(eos_bytes(0x0102_0304), [4, 3, 2, 1]);
    assert_eq!(eos_bytes(0), [0, 0, 0, 0]);
    assert_eq!(eos_bytes(u32::MAX), [255, 255, 255, 255]);
    assert_eq!(eos_bytes(50256), 50256u32.to_le_bytes());
}

#[test]
fn payload_bytes_are_the_ids_memory() {
    let ids = [1u32, 0xdead_beef, 7];
    let bytes = payload_bytes(&ids);
    assert_eq!(bytes.len(), 12);
    assert_eq!(bytes, bytemuck::cast_slice::<u32, u8>(&ids));
}

#[test]
fn written_record_reads_back_as_ids_then_eos() {
    let ids = [11u32, 22, 33];
    let mut record = payload_bytes(&ids).to_vec();
    record.extend_from_slice(&eos_bytes(99));
    let words: Vec<u32> = record.chunks(4).map(|c| u32::from_ne_bytes([c[0], c[1], c[2], c[3]])).collect();
    // Shards are read back in the machine's byte order; this machine is little-endian.
    assert_eq!(words, vec![11, 22, 33, 99]);
}

#[test]
fn planner_rolls_over_full_shards() {
    let mut planner = ShardPlanner::new(16);
    assert_eq!(planner.finish(), None);

    let step = planner.on_payload(2);
    assert_eq!(step.finished, None);
    assert_eq!(step.new_shard, Some(0));
    assert_eq!(step.token_count, 3);
    assert_eq!(step.byte_count, 12);

    // 12 + 12 bytes would pass the 16-byte shard size: shard 0 is finished.
    let step = planner.on_payload(2);
    assert_eq!(step.finished, Some(FinishedShard { index: 0, tokens: 3 }));
    assert_eq!(step.new_shard, Some(1));

    // 12 + 4 bytes fill shard 1 exactly: it stays open.
    let step = planner.on_payload(0);
    assert_eq!(step.finished, None);
    assert_eq!(step.new_shard, None);
    assert_eq!(step.token_count, 1);
    assert_eq!(step.byte_count, 4);

    assert_eq!(planner.finish(), Some(FinishedShard { index: 1, tokens: 4 }));
}

#[test]
fn planner_gives_an_oversized_document_a_shard_of_its_own() {
    let mut planner = ShardPlanner::new(8);
    assert_eq!(planner.on_payload(0).new_shard, Some(0));
    // 20 bytes: larger than a shard, so it starts shard 1 and fills it alone.
    let step = planner.on_payload(4);
    assert_eq!(step.finished, Some(FinishedShard { index: 0, tokens: 1 }));
    assert_eq!(step.new_shard, Some(1));
    let step = planner.on_payload(0);
    assert_eq!(step.finished, Some(FinishedShard { index: 1, tokens: 5 }));
    assert_eq!(step.new_shard, Some(2));
}

#[test]
fn planner_with_zero_shard_size_gives_each_document_a_shard() {
    let mut planner = ShardPlanner::new(0);
    assert_eq!(planner.on_payload(5).new_shard, Some(0));
    let step = planner.on_payload(1);
    assert_eq!(step.finished, Some(FinishedShard { index: 0, tokens: 6 }));
    assert_eq!(step.new_shard, Some(1));
    assert_eq!(planner.finish(), Some(FinishedShard { index: 1, tokens: 2 }));
}

#[test]
fn planner_refuses_overflowing_documents() {
    let planner = ShardPlanner::new(1024);
    assert!(planner.payload_fits(10));
    assert!(!planner.payload_fits(usize::MAX / 4));
    assert!(planner.payload_fits((usize::MAX - 4) / 4));
    assert!(planner.payload_fits(0));
}
