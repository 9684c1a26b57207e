use toy_cow::direct_io::{
    aligned_len, padding_to_alignment, power_of_two, write_all_at_with, DurableLowLevelIoBackend,
};
use toy_cow::error::StorageError;

#[test]
fn direct_write_retries_unaligned_short_write_from_aligned_boundary() {
    let bytes = vec![7_u8; 4096];
    let mut calls = Vec::new();
    write_all_at_with(&bytes, 8192, 4096, |chunk, offset| {
        calls.push((offset, chunk.len()));
        Ok(if calls.len() == 1 { 512 } else { chunk.len() })
    })
    .unwrap();

    assert_eq!(calls, vec![(8192, 4096), (8192, 4096)]);
}

#[test]
fn direct_write_advances_on_aligned_short_write() {
    let bytes = vec![9_u8; 8192];
    let mut calls = Vec::new();
    write_all_at_with(&bytes, 4096, 4096, |chunk, offset| {
        calls.push((offset, chunk.len()));
        Ok(if calls.len() == 1 { 4096 } else { chunk.len() })
    })
    .unwrap();

    assert_eq!(calls, vec![(4096, 8192), (8192, 4096)]);
}

#[test]
fn direct_write_fails_repeated_unaligned_short_writes() {
    let bytes = vec![11_u8; 4096];
    let error = write_all_at_with(&bytes, 0, 4096, |_chunk, _offset| Ok(512)).unwrap_err();

    assert!(matches!(error, StorageError::Unavailable { .. }));
}

#[test]
fn direct_write_needs_a_power_of_two() {
    let error = write_all_at_with(&[1, 2, 3], 0, 3, |chunk, _offset| Ok(chunk.len())).unwrap_err();
    assert!(matches!(error, StorageError::InvalidArgument { .. }));
}

#[test]
fn direct_write_of_a_part_block_fails() {
    let error = write_all_at_with(&[1; 5], 0, 4, |chunk, _offset| Ok(chunk.len())).unwrap_err();
    assert!(matches!(error, StorageError::Unavailable { .. }));
}

#[test]
fn lengths_are_padded_to_the_alignment() {
    assert_eq!(aligned_len(1, 4096).unwrap(), 4096);
    assert_eq!(aligned_len(4096, 4096).unwrap(), 4096);
    assert_eq!(aligned_len(4097, 4096).unwrap(), 8192);
    assert!(matches!(aligned_len(usize::MAX, 4096), Err(StorageError::InvalidArgument { .. })));
    assert_eq!(padding_to_alignment(4097, 4096), 4095);
    assert_eq!(padding_to_alignment(8192, 4096), 0);
    assert!(power_of_two(4096));
    assert!(!power_of_two(0));
    assert!(!power_of_two(24));
}

#[test]
fn backends_are_known_by_name() {
    assert!(matches!(
        DurableLowLevelIoBackend::from_name("odirect"),
        Ok(DurableLowLevelIoBackend::DirectIo)
    ));
    assert!(matches!(
        DurableLowLevelIoBackend::from_name("auto"),
        Ok(DurableLowLevelIoBackend::DirectIoOrFilesystem)
    ));
    assert!(matches!(
        DurableLowLevelIoBackend::from_name("floppy"),
        Err(StorageError::InvalidArgument { .. })
    ));
}
