use dnsmasq::dns::dnssec::blockdata::{BlockData, BlockDataStats, BLOCK_SIZE};

#[test]
fn test_blockdata_new_empty() {
    let bd = BlockData::new(&[]);
    assert_eq!(bd.len(), 0);
    assert!(bd.is_empty());
    assert_eq!(bd.retrieve(), Vec::<u8>::new());
}

#[test]
fn test_blockdata_new_single_block() {
    let data = vec![1u8, 2, 3, 4, 5];
    let bd = BlockData::new(&data);
    assert_eq!(bd.len(), 5);
    assert!(!bd.is_empty());
    assert_eq!(bd.retrieve(), data);
}

#[test]
fn test_blockdata_new_multiple_blocks() {
    let data = vec![0xABu8; 100];
    let bd = BlockData::new(&data);
    assert_eq!(bd.len(), 100);
    assert_eq!(bd.block_count(), 3);
    assert_eq!(bd.retrieve(), data);
}

#[test]
fn test_blockdata_new_exact_block_boundary() {
    let data = vec![0xFFu8; 80];
    let bd = BlockData::new(&data);
    assert_eq!(bd.len(), 80);
    assert_eq!(bd.block_count(), 2);
    assert_eq!(bd.retrieve(), data);
}

#[test]
fn test_blockdata_expand_empty() {
    let mut bd = BlockData::new(&[]);
    let additional = vec![1u8, 2, 3];
    bd.expand(&additional).unwrap();
    assert_eq!(bd.len(), 3);
    assert_eq!(bd.retrieve(), additional);
}

#[test]
fn test_blockdata_expand_partial_block() {
    let initial = vec![1u8, 2, 3];
    let mut bd = BlockData::new(&initial);
    let additional = vec![4u8, 5, 6];
    bd.expand(&additional).unwrap();

    assert_eq!(bd.len(), 6);
    let expected = vec![1u8, 2, 3, 4, 5, 6];
    assert_eq!(bd.retrieve(), expected);
}

#[test]
fn test_blockdata_expand_across_block_boundary() {
    let initial = vec![0xAAu8; 38];
    let mut bd = BlockData::new(&initial);
    let additional = vec![0xBBu8; 10];
    bd.expand(&additional).unwrap();

    assert_eq!(bd.len(), 48);
    assert_eq!(bd.block_count(), 2);

    let retrieved = bd.retrieve();
    assert_eq!(&retrieved[..38], &vec![0xAAu8; 38][..]);
    assert_eq!(&retrieved[38..], &vec![0xBBu8; 10][..]);
}

#[test]
fn test_blockdata_expand_multiple_new_blocks() {
    let initial = vec![1u8; 10];
    let mut bd = BlockData::new(&initial);
    let additional = vec![2u8; 100];
    bd.expand(&additional).unwrap();

    assert_eq!(bd.len(), 110);
    let retrieved = bd.retrieve();
    assert_eq!(&retrieved[..10], &vec![1u8; 10][..]);
    assert_eq!(&retrieved[10..], &vec![2u8; 100][..]);
}

#[test]
fn test_blockdata_as_bytes_single_block() {
    let data = vec![1u8, 2, 3, 4, 5];
    let bd = BlockData::new(&data);

    let bytes = bd.as_bytes();
    assert!(bytes.is_some());
    assert_eq!(bytes.unwrap(), &data[..]);
}

#[test]
fn test_blockdata_as_bytes_multiple_blocks() {
    let data = vec![0u8; 100];
    let bd = BlockData::new(&data);

    let bytes = bd.as_bytes();
    assert!(bytes.is_none());
}

#[test]
fn test_blockdata_stats_increment_decrement() {
    let mut stats = BlockDataStats::new();

    assert_eq!(stats.current_count(), 0);
    assert_eq!(stats.high_water_mark(), 0);
    assert_eq!(stats.total_allocated(), 0);

    stats.increment(10);
    assert_eq!(stats.current_count(), 10);
    assert_eq!(stats.high_water_mark(), 10);
    assert_eq!(stats.total_allocated(), 10);

    stats.increment(5);
    assert_eq!(stats.current_count(), 15);
    assert_eq!(stats.high_water_mark(), 15);
    assert_eq!(stats.total_allocated(), 15);

    stats.decrement(10);
    assert_eq!(stats.current_count(), 5);
    assert_eq!(stats.high_water_mark(), 15);
    assert_eq!(stats.total_allocated(), 15);
}

#[test]
fn test_blockdata_stats_bytes() {
    let mut stats = BlockDataStats::new();
    stats.increment(10);

    assert_eq!(stats.current_bytes(), 10 * BLOCK_SIZE);
    assert_eq!(stats.hwm_bytes(), 10 * BLOCK_SIZE);
    assert_eq!(stats.allocated_bytes(), 10 * BLOCK_SIZE);
}

#[test]
fn test_blockdata_stats_report() {
    let mut stats = BlockDataStats::new();
    stats.increment(5);

    let report = stats.report();
    assert!(report.contains("pool memory in use"));
    assert!(report.contains(&(5 * BLOCK_SIZE).to_string()));
}

#[test]
fn test_blockdata_drop_updates_stats() {
    let mut stats = BlockDataStats::new();

    stats.increment(3);
    assert_eq!(stats.current_count(), 3);

    stats.decrement(3);
    assert_eq!(stats.current_count(), 0);
    assert_eq!(stats.high_water_mark(), 3);
}

#[test]
fn expanding_appends_at_every_length() {
    for start in 0..90usize {
        for more in [0usize, 1, 39, 40, 41, 85] {
            let all: Vec<u8> = (0..start + more).map(|i| (i * 7 % 251) as u8).collect();
            let mut bd = BlockData::new(&all[..start]);
            let copy = bd.clone();
            bd.expand(&all[start..]).unwrap();
            assert_eq!(bd.retrieve(), all);
            assert_eq!(bd.len(), all.len());
            assert_eq!(bd.block_count(), (all.len() + 39) / 40);
            assert_eq!(copy.retrieve(), &all[..start]);
        }
    }
}

#[test]
fn one_block_can_be_borrowed() {
    assert!(BlockData::new(&[]).as_bytes().is_none());
    assert_eq!(BlockData::new(&[7; 40]).as_bytes().unwrap(), &[7; 40]);
    assert!(BlockData::new(&[7; 41]).as_bytes().is_none());
}
