use obiwan::simple_fs::{File, Filesystem, MapFilesystem};

fn fixture() -> MapFilesystem {
    let mut fs = MapFilesystem::new();
    fs.insert(b"/foo".to_vec(), vec![1, 2, 3, 4]);
    fs
}

#[test]
fn can_read_btree_fs() {
    let map = fixture();

    let file = map.open(&b"/foo".to_vec()).expect("Failed to open file");

    let mut buf = vec![0u8; 64];

    assert_eq!(file.read(300, &mut buf).unwrap(), 0); // EOF

    assert_eq!(file.read(0, &mut buf).unwrap(), 4);
    assert_eq!(&buf[0..4], &[1, 2, 3, 4]);

    assert_eq!(file.read(3, &mut buf).unwrap(), 1);
    assert_eq!(&buf[0..1], &[4]);
}

#[test]
fn open_missing_file_fails() {
    let map = fixture();
    assert!(map.open(&b"/bar".to_vec()).is_err());
    assert!(map.open(&b"foo".to_vec()).is_err());
}

#[test]
fn insert_replaces_contents() {
    let mut map = fixture();
    map.insert(b"/foo".to_vec(), vec![9]);
    let file = map.open(&b"/foo".to_vec()).unwrap();
    let mut buf = vec![0u8; 4];
    assert_eq!(file.read(0, &mut buf).unwrap(), 1);
    assert_eq!(buf[0], 9);
}
