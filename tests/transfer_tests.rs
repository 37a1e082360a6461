use s3_bridge::handles::HandleTable;
use s3_bridge::transfer::{
    download_step, exists_code, open_request, prepare_path, size_code, status_code, write_chunk,
    StreamEvent, TransferError,
    EXISTS_FOUND, EXISTS_NOT_FOUND, STATUS_OK,
};

#[test]
fn error_codes_are_distinct_and_negative() {
    let all = [
        TransferError::InvalidPath,
        TransferError::NotFound,
        TransferError::BufferTooSmall,
        TransferError::UploadFailed,
        TransferError::InvalidArgument,
        TransferError::StaleHandle,
    ];
    let codes: Vec<i32> = all.iter().map(|e| e.code()).collect();
    assert_eq!(codes, vec![-1, -2, -3, -4, -5, -6]);
}

#[test]
fn prepare_path_resolves() {
    let b = prepare_path(Some("/bucket/a/b/"), 12, 12).unwrap();
    assert_eq!(b.bucket, "bucket");
    assert_eq!(b.key, "a/b");
}

#[test]
fn prepare_path_rejects_length_beyond_declared() {
    let r = prepare_path(Some("bucket/key"), 10, 9);
    assert!(matches!(r, Err(TransferError::InvalidArgument)));
}

#[test]
fn prepare_path_rejects_bad_encoding() {
    let r = prepare_path(None, 3, 3);
    assert!(matches!(r, Err(TransferError::InvalidPath)));
}

#[test]
fn prepare_path_rejects_empty_path() {
    let r = prepare_path(Some(""), 0, 0);
    assert!(matches!(r, Err(TransferError::InvalidPath)));
}

#[test]
fn exists_codes() {
    assert_eq!(exists_code(Ok(true)), EXISTS_FOUND);
    assert_eq!(exists_code(Ok(true)), 1);
    assert_eq!(exists_code(Ok(false)), EXISTS_NOT_FOUND);
    assert_eq!(exists_code(Ok(false)), 0);
    assert_eq!(exists_code(Err(TransferError::InvalidPath)), -1);
}

#[test]
fn exists_twice_gives_same_code() {
    let first = exists_code(Ok(false));
    let second = exists_code(Ok(false));
    assert_eq!(first, second);
}

#[test]
fn size_codes() {
    assert_eq!(size_code(Ok(Some(12))), 12);
    assert_eq!(size_code(Ok(Some(0))), 0);
    assert_eq!(size_code(Ok(None)), -2);
    assert_eq!(size_code(Ok(Some(-7))), -2);
    assert_eq!(size_code(Err(TransferError::InvalidPath)), -1);
}

#[test]
fn size_of_missing_key_is_negative() {
    assert_eq!(size_code(Err(TransferError::NotFound)), -2);
}

#[test]
fn status_codes() {
    assert_eq!(status_code(Ok(())), STATUS_OK);
    assert_eq!(status_code(Err(TransferError::BufferTooSmall)), -3);
    assert_eq!(status_code(Err(TransferError::UploadFailed)), -4);
}

#[test]
fn chunks_fill_destination_in_order() {
    let data = b"Hello world!";
    let mut dest = vec![0u8; 12];
    let w = write_chunk(&mut dest, 0, &data[..5]).unwrap();
    assert_eq!(w, 5);
    let w = write_chunk(&mut dest, w, &data[5..]).unwrap();
    assert_eq!(w, 12);
    assert_eq!(&dest[..], &data[..]);
}

#[test]
fn chunk_past_capacity_is_refused_and_canary_kept() {
    let mut region = vec![0xAAu8; 8];
    {
        let (dest, _canary) = region.split_at_mut(4);
        let w = write_chunk(dest, 0, b"abc").unwrap();
        assert_eq!(w, 3);
        let r = write_chunk(dest, w, b"de");
        assert_eq!(r, Err(TransferError::BufferTooSmall));
    }
    assert_eq!(region, vec![b'a', b'b', b'c', 0xAA, 0xAA, 0xAA, 0xAA, 0xAA]);
}

#[test]
fn empty_chunk_fits_full_destination() {
    let mut dest = vec![1u8, 2];
    assert_eq!(write_chunk(&mut dest, 2, b""), Ok(2));
    assert_eq!(dest, vec![1, 2]);
}

#[test]
fn tickets_are_never_reused() {
    let mut t: HandleTable<String> = HandleTable::new();
    let a = t.insert("first".to_string()).unwrap();
    let b = t.insert("second".to_string()).unwrap();
    assert_ne!(a, b);
    assert_eq!(t.len(), 2);
    assert_eq!(t.get(a).map(|s| s.as_str()), Some("first"));
    assert_eq!(t.remove(a), Some("first".to_string()));
    assert_eq!(t.len(), 1);
    assert!(t.get(a).is_none());
    assert_eq!(t.remove(a), None);
    let c = t.insert("third".to_string()).unwrap();
    assert_ne!(c, a);
    assert_eq!(t.get(b).map(|s| s.as_str()), Some("second"));
}

#[test]
fn connect_then_release_leaves_nothing_live() {
    let mut t: HandleTable<Vec<u8>> = HandleTable::new();
    let before = t.len();
    let id = t.insert(vec![1, 2, 3]).unwrap();
    assert_eq!(t.len(), before + 1);
    assert!(t.remove(id).is_some());
    assert_eq!(t.len(), before);
}

#[test]
fn open_request_checks_ticket_first() {
    let mut t: HandleTable<u32> = HandleTable::new();
    let id = t.insert(7).unwrap();
    let r = open_request(&t, id + 100, Some("b/k"), 3, 3);
    assert!(matches!(r, Err(TransferError::StaleHandle)));
    let r = open_request(&t, id, Some("/"), 1, 1);
    assert!(matches!(r, Err(TransferError::InvalidPath)));
    let (c, b) = open_request(&t, id, Some("b/k"), 3, 3).unwrap();
    assert_eq!(*c, 7);
    assert_eq!(b.bucket, "b");
    assert_eq!(b.key, "k");
}

#[test]
fn prepare_path_rejects_declared_length_beyond_path() {
    let r = prepare_path(Some("b/k"), 3, 10);
    assert!(matches!(r, Err(TransferError::InvalidArgument)));
}

#[test]
fn download_steps_fill_then_finish() {
    let mut dest = vec![0u8; 4];
    assert_eq!(download_step(&mut dest, 0, StreamEvent::Chunk(b"ab")), Ok(Some(2)));
    assert_eq!(download_step(&mut dest, 2, StreamEvent::Chunk(b"cd")), Ok(Some(4)));
    assert_eq!(download_step(&mut dest, 4, StreamEvent::End), Ok(None));
    assert_eq!(dest, b"abcd".to_vec());
}

#[test]
fn download_step_stops_on_overflow_and_failure() {
    let mut dest = vec![9u8; 3];
    assert_eq!(
        download_step(&mut dest, 2, StreamEvent::Chunk(b"xy")),
        Err(TransferError::BufferTooSmall)
    );
    assert_eq!(download_step(&mut dest, 0, StreamEvent::Failed), Err(TransferError::NotFound));
    assert_eq!(dest, vec![9, 9, 9]);
}

#[test]
fn ticket_zero_is_never_issued() {
    let mut t: HandleTable<u8> = HandleTable::new();
    for _ in 0..5 {
        let id = t.insert(1).unwrap();
        assert_ne!(id, 0);
    }
    assert!(t.get(0).is_none());
    assert_eq!(t.remove(0), None);
}
