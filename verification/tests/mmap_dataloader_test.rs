use memmap2::{Mmap, MmapMut};
use plast::mmap_dataloader::MmapPretokenizedDataLoader;
use std::path::PathBuf;

/// A read-only anonymous map holding `bytes`.
fn mapped(bytes: &[u8]) -> Mmap {
    let mut map = MmapMut::map_anon(bytes.len()).unwrap();
    map.copy_from_slice(bytes);
    map.make_read_only().unwrap()
}

/// A mapped shard of 4-byte tokens, as it would be read from a shard file.
fn mock_shard(name: &str, data: &[u32]) -> (PathBuf, Mmap) {
    (PathBuf::from(name), mapped(bytemuck::cast_slice(data)))
}

#[test]
fn mmap_dataloader_test_test_successful_mapping_and_invariants() {
    let shard1_data = vec![1u32, 2, 3, 4]; // 16 bytes
    let shard2_data = vec![5u32, 6, 7, 8, 9, 10]; // 24 bytes

    let files = vec![mock_shard("a.bin", &shard1_data), mock_shard("b.bin", &shard2_data)];
    let loader = MmapPretokenizedDataLoader::map_data(files).unwrap();

    assert_eq!(loader.total_num_shards(), 2);
    assert_eq!(loader.total_size(), 10);
    assert_eq!(loader.shard_lengths(), &[4, 6]);
    assert_eq!(loader.shard_offsets(), &[0, 16, 40]);
}

#[test]
fn mmap_dataloader_test_test_invalid_byte_alignment_error() {
    let files = vec![(PathBuf::from("odd.bin"), mapped(&[1u8, 2, 3]))];
    let result = MmapPretokenizedDataLoader::map_data(files);

    assert!(result.is_err());
}

#[test]
fn test_batch_retrieval_and_shifting() {
    let shard_data = vec![10u32, 20, 30, 40, 50];
    let loader = MmapPretokenizedDataLoader::map_data(vec![mock_shard("s.bin", &shard_data)]).unwrap();

    let (input, target) = loader.get_tf_batch_u8(0, 2).unwrap();

    let input_elements: &[u32] = bytemuck::cast_slice(input);
    let target_elements: &[u32] = bytemuck::cast_slice(target);

    assert_eq!(input_elements, &[10, 20]);
    assert_eq!(target_elements, &[20, 30]);

    assert!(loader.get_tf_batch_u8(10, 2).is_none());
}

#[test]
fn test_unified_generic_iterators() {
    let shard1_data = vec![1u32, 2, 3, 4];
    let shard2_data = vec![5u32, 6, 7, 8];

    let loader = MmapPretokenizedDataLoader::map_data(vec![
        mock_shard("a.bin", &shard1_data),
        mock_shard("b.bin", &shard2_data),
    ])
    .unwrap();

    let mut iter_u32 = loader.iter_u32(2);
    assert_eq!(iter_u32.next(), Some(&[1u32, 2][..]));
    assert_eq!(iter_u32.next(), Some(&[3, 4][..]));
    assert_eq!(iter_u32.next(), Some(&[5, 6][..]));
    assert_eq!(iter_u32.next(), Some(&[7, 8][..]));
    assert_eq!(iter_u32.next(), None);

    let mut iter_i32 = loader.iter_i32(4);
    assert_eq!(iter_i32.next(), Some(&[1i32, 2, 3, 4][..]));
    assert_eq!(iter_i32.next(), Some(&[5, 6, 7, 8][..]));
    assert_eq!(iter_i32.next(), None);
}

#[test]
fn tf_batch_is_a_window_of_the_concatenated_stream() {
    let loader = MmapPretokenizedDataLoader::map_data(vec![
        mock_shard("a.bin", &[1u32, 2, 3, 4]),
        mock_shard("b.bin", &[5u32, 6, 7, 8, 9, 10]),
    ])
    .unwrap();

    // Window 2 of 2 tokens starts at stream byte 16: the start of shard b.
    let (input, target) = loader.get_tf_batch_u8(2, 2).unwrap();
    assert_eq!(bytemuck::cast_slice::<u8, u32>(input), &[5, 6]);
    assert_eq!(bytemuck::cast_slice::<u8, u32>(target), &[6, 7]);

    // Window 1 of 2 tokens would need token 5 of shard a for its target.
    assert!(loader.get_tf_batch_u8(1, 2).is_none());

    // Window 1 of 3 tokens starts at stream byte 12, inside shard a, but
    // straddles into shard b.
    assert!(loader.get_tf_batch_u8(1, 3).is_none());

    // Window 3 of 2 tokens: shard b, local tokens 2..4, target 3..5.
    let (input, target) = loader.get_tf_batch_u8(3, 2).unwrap();
    assert_eq!(bytemuck::cast_slice::<u8, u32>(input), &[7, 8]);
    assert_eq!(bytemuck::cast_slice::<u8, u32>(target), &[8, 9]);
}

#[test]
fn iter_u8_yields_the_bytes_of_each_window() {
    let loader = MmapPretokenizedDataLoader::map_data(vec![
        mock_shard("a.bin", &[1u32, 2, 3]),
        mock_shard("b.bin", &[4u32, 5, 6, 7]),
    ])
    .unwrap();

    let mut iter = loader.iter_u8(2);
    assert_eq!(iter.next().unwrap(), bytemuck::cast_slice::<u32, u8>(&[1, 2]));
    // The tail [3] of shard a is skipped.
    assert_eq!(iter.next().unwrap(), bytemuck::cast_slice::<u32, u8>(&[4, 5]));
    assert_eq!(iter.next().unwrap(), bytemuck::cast_slice::<u32, u8>(&[6, 7]));
    assert!(iter.next().is_none());
    // An exhausted scan stays exhausted.
    assert!(iter.next().is_none());
}

#[test]
fn zero_width_windows_are_empty() {
    let loader = MmapPretokenizedDataLoader::map_data(vec![mock_shard("a.bin", &[1u32, 2])]).unwrap();
    let mut iter = loader.iter_u32(0);
    assert_eq!(iter.next(), Some(&[][..]));
    assert_eq!(iter.next(), Some(&[][..]));
}

#[test]
fn loader_over_no_files_is_empty() {
    let loader = MmapPretokenizedDataLoader::map_data(Vec::new()).unwrap();
    assert_eq!(loader.total_num_shards(), 0);
    assert_eq!(loader.total_size(), 0);
    assert_eq!(loader.shard_lengths(), &[] as &[usize]);
    assert_eq!(loader.shard_offsets(), &[0]);
    assert!(loader.get_tf_batch_u8(0, 1).is_none());
    assert!(loader.iter_u32(1).next().is_none());
}

#[test]
fn first_misaligned_shard_is_reported() {
    let files = vec![
        mock_shard("good.bin", &[1u32]),
        (PathBuf::from("bad1.bin"), mapped(&[1u8, 2, 3, 4, 5])),
        (PathBuf::from("bad2.bin"), mapped(&[1u8])),
    ];
    match MmapPretokenizedDataLoader::map_data(files) {
        Err(plast::errors::DataLoaderError::InvalidByteAlignment { size, path }) => {
            assert_eq!(size, 5);
            assert_eq!(path, PathBuf::from("bad1.bin"));
        }
        _ => panic!("expected the alignment error of the second shard"),
    }
}

#[test]
fn shards_can_be_pushed_one_by_one() {
    let loader = MmapPretokenizedDataLoader::empty();
    let (path, map) = mock_shard("a.bin", &[7u32, 8, 9]);
    let loader = loader.push_shard(path, map).unwrap();
    assert_eq!(loader.shard_lengths(), &[3]);
    assert_eq!(loader.shard_offsets(), &[0, 12]);
    assert_eq!(loader.total_size(), 3);
    let err = loader.push_shard(PathBuf::from("b.bin"), mapped(&[0u8; 6]));
    assert!(matches!(
        err,
        Err(plast::errors::DataLoaderError::InvalidByteAlignment { size: 6, .. })
    ));
}

#[test]
fn offset_limits_are_checked_before_use() {
    let files = vec![mock_shard("a.bin", &[1u32, 2]), mock_shard("b.bin", &[3u32])];
    assert!(plast::dataloader::mapped_total_fits(&files));
    assert!(plast::dataloader::mapped_total_fits(&Vec::new()));

    let loader = MmapPretokenizedDataLoader::empty();
    assert!(loader.push_fits(&mapped(&[0u8; 8])));
    // A misaligned map is refused by `push_shard` itself, so it always fits.
    assert!(loader.push_fits(&mapped(&[0u8; 3])));

    let loader = MmapPretokenizedDataLoader::map_data(files).unwrap();
    assert!(loader.batch_fits(0, 2));
    assert!(loader.batch_fits(1, 1));
    // idx * 4 * batch_elements passes usize.
    assert!(!loader.batch_fits(usize::MAX, 2));
    assert!(!loader.batch_fits(1, usize::MAX / 4 + 1));
}

#[test]
fn loader_counts_what_pretokenization_wrote() {
    // Two shards as pretokenization lays them out: each document's ids, then
    // the end-of-sequence id.
    let eos = 0u32;
    let shard_a: Vec<u32> = [vec![5u32, 6, 7], vec![eos], vec![8u32], vec![eos]].concat();
    let shard_b: Vec<u32> = [vec![9u32, 10], vec![eos]].concat();
    let loader =
        MmapPretokenizedDataLoader::map_data(vec![mock_shard("a.bin", &shard_a), mock_shard("b.bin", &shard_b)])
            .unwrap();
    // Shard a: 4 ids + 2 markers; shard b: 2 ids + 1 marker.
    assert_eq!(loader.shard_lengths(), &[6, 3]);
    assert_eq!(loader.total_size(), 9);
}

#[test]
fn u32_windows_match_the_bytes_windows() {
    let loader = MmapPretokenizedDataLoader::map_data(vec![
        mock_shard("a.bin", &[1u32, 2, 3, 4, 5]),
        mock_shard("b.bin", &[u32::MAX, 0x8000_0000]),
    ])
    .unwrap();
    let mut bytes = loader.iter_u8(2);
    let mut words = loader.iter_u32(2);
    let mut signed = loader.iter_i32(2);
    loop {
        match (bytes.next(), words.next(), signed.next()) {
            (Some(b), Some(w), Some(s)) => {
                assert_eq!(b, bytemuck::cast_slice::<u32, u8>(w));
                let as_signed: Vec<i32> = w.iter().map(|x| *x as i32).collect();
                assert_eq!(s, &as_signed[..]);
            }
            (None, None, None) => break,
            _ => panic!("the iterators disagree on the number of windows"),
        }
    }
    // Once ended, each stays ended.
    assert!(words.next().is_none());
    assert!(signed.next().is_none());
}
