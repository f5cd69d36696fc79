use memmap2::{Mmap, MmapMut};
use plast::errors::DataLoaderError;
use plast::mmap_dataloader_bytes::MmapPretokenizedDataLoaderBytes;
use std::path::PathBuf;

fn mapped(bytes: &[u8]) -> Mmap {
    let mut map = MmapMut::map_anon(bytes.len()).unwrap();
    map.copy_from_slice(bytes);
    map.make_read_only().unwrap()
}

fn mock_shard(name: &str, data: &[u32]) -> (PathBuf, Mmap) {
    (PathBuf::from(name), mapped(bytemuck::cast_slice(data)))
}

#[test]
fn mmap_dataloader_bytes_test_test_successful_mapping_and_invariants() {
    let shard1_data = vec![1u32, 2, 3, 4];
    let shard2_data = vec![5u32, 6, 7, 8, 9, 10];

    let files = vec![mock_shard("a.bin", &shard1_data), mock_shard("b.bin", &shard2_data)];
    let loader = MmapPretokenizedDataLoaderBytes::map_data(files).unwrap();

    assert_eq!(loader.total_num_shards(), 2);
    assert_eq!(loader.total_size(), 10);
    assert_eq!(loader.shard_lengths(), &[4, 6]);
    assert_eq!(loader.shard_offsets(), &[0, 16, 40]);
}

#[test]
fn mmap_dataloader_bytes_test_test_invalid_byte_alignment_error() {
    let files = vec![(PathBuf::from("odd.bin"), mapped(&[1u8, 2, 3]))];
    let result = MmapPretokenizedDataLoaderBytes::map_data(files);

    assert!(result.is_err());
    let err = result.unwrap_err();
    match err {
        DataLoaderError::InvalidByteAlignment { size, path: _ } => {
            assert_eq!(size, 3);
        }
        _ => panic!("Expected InvalidByteAlignment error"),
    }
}

#[test]
fn test_iter_tf_batch_retrieval_and_shifting() {
    let shard_data = vec![10u32, 20, 30, 40, 50, 60];
    let loader = MmapPretokenizedDataLoaderBytes::map_data(vec![mock_shard("s.bin", &shard_data)]).unwrap();

    let mut iter = loader.iter_tf(2);

    let (input, target) = iter.next().unwrap();
    let input_elements: &[u32] = bytemuck::cast_slice(input.as_ref());
    let target_elements: &[u32] = bytemuck::cast_slice(target.as_ref());
    assert_eq!(input_elements, &[10, 20]);
    assert_eq!(target_elements, &[20, 30]);

    let (input, target) = iter.next().unwrap();
    let input_elements: &[u32] = bytemuck::cast_slice(input.as_ref());
    let target_elements: &[u32] = bytemuck::cast_slice(target.as_ref());
    assert_eq!(input_elements, &[30, 40]);
    assert_eq!(target_elements, &[40, 50]);

    assert!(iter.next().is_none());
}

#[test]
fn test_iter_chunked_retrieval() {
    let loader = MmapPretokenizedDataLoaderBytes::map_data(vec![
        mock_shard("a.bin", &[1u32, 2, 3, 4]),
        mock_shard("b.bin", &[5u32, 6, 7, 8]),
    ])
    .unwrap();

    let mut iter = loader.iter(2);

    let assert_bytes_eq = |actual: &[u8], expected: &[u32]| {
        assert_eq!(actual, bytemuck::cast_slice::<u32, u8>(expected));
    };

    assert_bytes_eq(iter.next().unwrap(), &[1, 2]);
    assert_bytes_eq(iter.next().unwrap(), &[3, 4]);
    assert_bytes_eq(iter.next().unwrap(), &[5, 6]);
    assert_bytes_eq(iter.next().unwrap(), &[7, 8]);
    assert!(iter.next().is_none());
}

#[test]
fn test_iter_drops_straddling_remainder() {
    let loader = MmapPretokenizedDataLoaderBytes::map_data(vec![
        mock_shard("a.bin", &[1u32, 2, 3]),
        mock_shard("b.bin", &[4u32, 5, 6]),
    ])
    .unwrap();

    let mut iter = loader.iter(2);

    let assert_bytes_eq = |actual: &[u8], expected: &[u32]| {
        assert_eq!(actual, bytemuck::cast_slice::<u32, u8>(expected));
    };

    assert_bytes_eq(iter.next().unwrap(), &[1, 2]);
    assert_bytes_eq(iter.next().unwrap(), &[4, 5]);
    assert!(iter.next().is_none());
}

#[test]
fn test_empty_shard_handling() {
    let loader = MmapPretokenizedDataLoaderBytes::map_data(vec![(PathBuf::from("empty.bin"), mapped(&[]))]).unwrap();

    assert_eq!(loader.total_size(), 0);
    assert_eq!(loader.total_num_shards(), 1);
    assert_eq!(loader.shard_lengths(), &[0]);
    assert_eq!(loader.shard_offsets(), &[0, 0]);

    let mut iter = loader.iter(2);
    assert!(iter.next().is_none());
}

#[test]
fn tf_pairs_roll_over_to_the_next_shard() {
    let loader = MmapPretokenizedDataLoaderBytes::map_data(vec![
        mock_shard("a.bin", &[1u32, 2, 3]),
        (PathBuf::from("empty.bin"), mapped(&[])),
        mock_shard("b.bin", &[4u32, 5, 6, 7]),
    ])
    .unwrap();

    let mut iter = loader.iter_tf(2);
    let words = |b: &bytes::Bytes| bytemuck::cast_slice::<u8, u32>(b.as_ref()).to_vec();

    let (input, target) = iter.next().unwrap();
    assert_eq!(words(&input), vec![1, 2]);
    assert_eq!(words(&target), vec![2, 3]);
    // [3] left in shard a and nothing in the empty shard: on to shard b.
    let (input, target) = iter.next().unwrap();
    assert_eq!(words(&input), vec![4, 5]);
    assert_eq!(words(&target), vec![5, 6]);
    // [6, 7] cannot hold a pair of 2 plus the shifted target.
    assert!(iter.next().is_none());
}

#[test]
fn bytes_loader_matches_the_mapped_loader_index() {
    let make = || {
        vec![
            mock_shard("a.bin", &[1u32, 2]),
            (PathBuf::from("empty.bin"), mapped(&[])),
            mock_shard("b.bin", &[3u32, 4, 5]),
        ]
    };
    let a = MmapPretokenizedDataLoaderBytes::map_data(make()).unwrap();
    let b = plast::MmapPretokenizedDataLoader::map_data(make()).unwrap();
    assert_eq!(a.shard_lengths(), b.shard_lengths());
    assert_eq!(a.shard_offsets(), b.shard_offsets());
    assert_eq!(a.shard_offsets(), &[0, 8, 8, 20]);
    assert_eq!(a.total_size(), b.total_size());
}

#[test]
fn tf_scan_reports_whether_its_arithmetic_fits() {
    let loader = MmapPretokenizedDataLoaderBytes::map_data(vec![mock_shard("a.bin", &[1u32, 2, 3])]).unwrap();
    assert!(loader.iter_tf(2).fits_next());
    assert!(!loader.iter_tf(usize::MAX / 4).fits_next());
    assert!(loader.iter_tf(usize::MAX / 4 - 1).fits_next());
}

#[test]
fn bytes_loader_checks_offset_limits() {
    let loader = MmapPretokenizedDataLoaderBytes::empty();
    assert!(loader.push_fits(&mapped(&[0u8; 4])));
    assert!(loader.push_fits(&mapped(&[0u8; 5])));
    let (path, map) = mock_shard("a.bin", &[1u32, 2]);
    let loader = loader.push_shard(path, map).unwrap();
    assert_eq!(loader.shard_offsets(), &[0, 8]);
    assert!(loader.push_fits(&mapped(&[0u8; 8])));
}
