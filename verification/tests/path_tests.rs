use obiwan::path::normalize;

#[test]
fn path_normalization() {
    let p = b"foo".to_vec();
    assert!(normalize(&p).unwrap()[0] != b'/');

    assert_eq!(normalize(&b"".to_vec()), Some(b"".to_vec()));

    assert_eq!(normalize(&b"/foo/bar".to_vec()), Some(b"foo/bar".to_vec()));

    assert_eq!(normalize(&b"../a".to_vec()), None);

    assert_eq!(normalize(&b"/foo/../bar/../".to_vec()), Some(b"".to_vec()));

    assert_eq!(normalize(&b"/foo/../bar/../b".to_vec()), Some(b"b".to_vec()));
}

#[test]
fn path_normalization_rejects_escapes() {
    assert_eq!(normalize(&b"..".to_vec()), None);
    assert_eq!(normalize(&b"../etc/passwd".to_vec()), None);
    assert_eq!(normalize(&b"a/../../etc".to_vec()), None);
    assert_eq!(normalize(&b"/..".to_vec()), None);
}

#[test]
fn path_normalization_collapses_dots() {
    assert_eq!(normalize(&b"./a".to_vec()), Some(b"a".to_vec()));
    assert_eq!(normalize(&b"a/./b".to_vec()), Some(b"a/b".to_vec()));
    assert_eq!(normalize(&b"//a///b//".to_vec()), Some(b"a/b".to_vec()));
    assert_eq!(normalize(&b"a/b/../c".to_vec()), Some(b"a/c".to_vec()));
}

#[test]
fn path_normalization_result_is_relative() {
    for p in [
        b"/a/b/c".to_vec(),
        b"a/../b".to_vec(),
        b"////x".to_vec(),
        b"x/y/../../z".to_vec(),
    ] {
        let q = normalize(&p).unwrap();
        assert!(q.is_empty() || q[0] != b'/');
        assert!(q != b"..".to_vec());
        assert!(!q.starts_with(b"../"));
    }
}
