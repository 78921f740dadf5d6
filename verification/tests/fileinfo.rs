use itools::FileInfo;
use itools::FileInfoIncomplete;

#[test]
fn test_is_complete() {
    let fi = FileInfo::default();
    assert_eq!(false, fi.is_complete());

    let fi = FileInfo { a_hash: Some("sisisi".into()), ..fi };
    assert_eq!(false, fi.is_complete());

    let fi = FileInfo {
        d_hash: Some("foobar".into()),
        p_hash: Some("blah".into()),
        sha2_hash: Some("xxxxx".into()),
        ..fi
    };
    assert_eq!(true, fi.is_complete());
}

#[test]
fn fileinfo_test_with_name() {
    let name = "/foobar/baz";
    let fi = FileInfo::with_name(name);
    assert_eq!(name, fi.filename);
    assert_eq!(None, fi.a_hash);
    assert_eq!(None, fi.d_hash);
    assert_eq!(None, fi.p_hash);
    assert_eq!(None, fi.sha2_hash);
}

#[test]
fn incomplete_with_name_starts_unset() {
    let fi = FileInfoIncomplete::with_name("/a/b.png");
    assert_eq!("/a/b.png", fi.filename);
    assert!(!fi.is_complete());
}

#[test]
fn incomplete_into_file_info_keeps_fields() {
    let fi = FileInfoIncomplete {
        filename: "x.png".to_string(),
        a_hash: Some("a".to_string()),
        d_hash: Some("d".to_string()),
        p_hash: Some("p".to_string()),
        sha2_hash: Some("s".to_string()),
    };
    assert!(fi.is_complete());
    let done = fi.into_file_info();
    assert_eq!("x.png", done.filename);
    assert_eq!(Some("a".to_string()), done.a_hash);
    assert_eq!(Some("d".to_string()), done.d_hash);
    assert_eq!(Some("p".to_string()), done.p_hash);
    assert_eq!(Some("s".to_string()), done.sha2_hash);
}
