use s3_bridge::path::BucketAndKey;

#[test]
fn bucket_and_key() {
    let b = BucketAndKey::from_str("/hello/world/pouet").unwrap();
    assert_eq!(b.bucket, "hello");
    assert_eq!(b.key, "world/pouet");

    let b = BucketAndKey::from_str("/hello/world/pouet/").unwrap();
    assert_eq!(b.bucket, "hello");
    assert_eq!(b.key, "world/pouet");

    let b = BucketAndKey::from_str("hello/world/pouet").unwrap();
    assert_eq!(b.bucket, "hello");
    assert_eq!(b.key, "world/pouet");

    let b = BucketAndKey::from_str("///hello///world/pouet///").unwrap();
    assert_eq!(b.bucket, "hello");
    assert_eq!(b.key, "world/pouet");

    let b = BucketAndKey::from_str("hello/").unwrap();
    assert_eq!(b.bucket, "hello");
    assert_eq!(b.key, "");

    let b = BucketAndKey::from_str("");
    match b {
        None => (),
        _ => assert!(false),
    }
}

#[test]
fn only_slashes_name_no_container() {
    assert!(BucketAndKey::from_str("/").is_none());
    assert!(BucketAndKey::from_str("////").is_none());
}

#[test]
fn container_without_key() {
    let b = BucketAndKey::from_str("///hello").unwrap();
    assert_eq!(b.bucket, "hello");
    assert_eq!(b.key, "");
}

#[test]
fn interior_slashes_of_key_are_kept() {
    let b = BucketAndKey::from_str("/a//b//c/").unwrap();
    assert_eq!(b.bucket, "a");
    assert_eq!(b.key, "b//c");
}

#[test]
fn non_ascii_path() {
    let b = BucketAndKey::from_str("/données/été/clé").unwrap();
    assert_eq!(b.bucket, "données");
    assert_eq!(b.key, "été/clé");
}
