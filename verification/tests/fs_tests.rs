use openion::fs::{
    create_dir, create_file, init, list_dir, lookup, node_file_type, node_name, read_file, resolve_path, root,
    write_file, FileType, FsError, NodeId, OpenFlags, Vfs, FILE_MAX_SIZE, NAME_MAX,
};

fn fresh() -> Vfs {
    let mut fs = Vfs::new();
    init(&mut fs);
    fs
}

#[test]
fn empty_tree_has_no_root() {
    let fs = Vfs::new();
    assert_eq!(root(&fs), Err(FsError::NotFound));
    assert_eq!(resolve_path(&fs, "/"), Err(FsError::NotFound));
}

#[test]
fn init_makes_standard_directories() {
    let fs = fresh();
    let r = root(&fs).unwrap();
    assert_eq!(node_file_type(&fs, r), Ok(FileType::Directory));
    assert_eq!(node_name(&fs, r), Ok("/"));
    let names: Vec<String> = list_dir(&fs, r).unwrap().iter().map(|e| e.name_str().to_string()).collect();
    assert_eq!(names, vec!["dev".to_string(), "proc".to_string(), "mnt".to_string()]);
    for e in list_dir(&fs, r).unwrap() {
        assert_eq!(e.file_type, FileType::Directory);
    }
}

#[test]
fn init_twice_changes_nothing() {
    let mut fs = fresh();
    init(&mut fs);
    let r = root(&fs).unwrap();
    assert_eq!(list_dir(&fs, r).unwrap().len(), 3);
}

#[test]
fn create_then_lookup_finds_the_file() {
    let mut fs = fresh();
    let r = root(&fs).unwrap();
    let f = create_file(&mut fs, r, "hello.txt").unwrap();
    assert_eq!(lookup(&fs, r, "hello.txt"), Ok(f));
    assert_eq!(node_file_type(&fs, f), Ok(FileType::File));
    assert_eq!(node_name(&fs, f), Ok("hello.txt"));
}

#[test]
fn create_dir_then_resolve_nested_path() {
    let mut fs = fresh();
    let r = root(&fs).unwrap();
    let a = create_dir(&mut fs, r, "a").unwrap();
    let b = create_dir(&mut fs, a, "b").unwrap();
    let c = create_file(&mut fs, b, "c").unwrap();
    assert_eq!(resolve_path(&fs, "/a/b/c"), Ok(c));
    assert_eq!(resolve_path(&fs, "//a//b/"), Ok(b));
    assert_eq!(resolve_path(&fs, "/"), Ok(r));
    assert_eq!(resolve_path(&fs, "/a/x"), Err(FsError::NotFound));
    assert_eq!(resolve_path(&fs, "/a/b/c/d"), Err(FsError::NotDirectory));
}

#[test]
fn create_errors() {
    let mut fs = fresh();
    let r = root(&fs).unwrap();
    assert_eq!(create_file(&mut fs, r, ""), Err(FsError::NameTooLong));
    let long = "x".repeat(NAME_MAX);
    assert_eq!(create_file(&mut fs, r, &long), Err(FsError::NameTooLong));
    assert_eq!(create_file(&mut fs, r, "dev"), Err(FsError::AlreadyExists));
    assert_eq!(create_file(&mut fs, NodeId(999), "x"), Err(FsError::NotFound));
    let f = create_file(&mut fs, r, "f").unwrap();
    assert_eq!(create_file(&mut fs, f, "x"), Err(FsError::NotDirectory));
    assert_eq!(lookup(&fs, f, "x"), Err(FsError::NotDirectory));
    assert_eq!(lookup(&fs, r, "nope"), Err(FsError::NotFound));
}

#[test]
fn name_of_longest_allowed_length_is_kept() {
    let mut fs = fresh();
    let r = root(&fs).unwrap();
    let name = "n".repeat(NAME_MAX - 1);
    let f = create_file(&mut fs, r, &name).unwrap();
    assert_eq!(node_name(&fs, f), Ok(name.as_str()));
}

#[test]
fn write_then_read_gives_the_data_back() {
    let mut fs = fresh();
    let r = root(&fs).unwrap();
    let f = create_file(&mut fs, r, "data").unwrap();
    assert_eq!(write_file(&mut fs, f, b"hello world"), Ok(11));
    let mut buf = [0xAAu8; 16];
    assert_eq!(read_file(&fs, f, &mut buf), Ok(11));
    assert_eq!(&buf[..11], b"hello world");
    assert_eq!(&buf[11..], &[0xAAu8; 5]);
    // a short buffer gets the first bytes
    let mut small = [0u8; 5];
    assert_eq!(read_file(&fs, f, &mut small), Ok(5));
    assert_eq!(&small, b"hello");
    // writing again replaces the content
    assert_eq!(write_file(&mut fs, f, b"bye"), Ok(3));
    let mut buf2 = [0u8; 8];
    assert_eq!(read_file(&fs, f, &mut buf2), Ok(3));
    assert_eq!(&buf2[..3], b"bye");
}

#[test]
fn write_is_capped_at_file_max_size() {
    let mut fs = fresh();
    let r = root(&fs).unwrap();
    let f = create_file(&mut fs, r, "big").unwrap();
    let data = vec![7u8; FILE_MAX_SIZE + 10];
    assert_eq!(write_file(&mut fs, f, &data), Ok(FILE_MAX_SIZE));
    let mut buf = vec![0u8; FILE_MAX_SIZE + 10];
    assert_eq!(read_file(&fs, f, &mut buf), Ok(FILE_MAX_SIZE));
}

#[test]
fn file_operations_on_directories_fail() {
    let mut fs = fresh();
    let r = root(&fs).unwrap();
    assert_eq!(write_file(&mut fs, r, b"x"), Err(FsError::IsDirectory));
    let mut buf = [0u8; 4];
    assert_eq!(read_file(&fs, r, &mut buf), Err(FsError::IsDirectory));
    assert_eq!(write_file(&mut fs, NodeId(500), b"x"), Err(FsError::NotFound));
    assert_eq!(read_file(&fs, NodeId(500), &mut buf), Err(FsError::NotFound));
    let f = create_file(&mut fs, r, "f").unwrap();
    assert!(matches!(list_dir(&fs, f), Err(FsError::NotDirectory)));
    assert!(matches!(list_dir(&fs, NodeId(500)), Err(FsError::NotFound)));
    assert_eq!(node_file_type(&fs, NodeId(500)), Err(FsError::NotFound));
    assert_eq!(node_name(&fs, NodeId(500)), Err(FsError::NotFound));
}

#[test]
fn list_dir_shows_kinds() {
    let mut fs = fresh();
    let r = root(&fs).unwrap();
    let d = resolve_path(&fs, "/mnt").unwrap();
    create_file(&mut fs, d, "f").unwrap();
    create_dir(&mut fs, d, "sub").unwrap();
    let entries = list_dir(&fs, d).unwrap();
    assert_eq!(entries.len(), 2);
    assert_eq!(entries[0].name_str(), "f");
    assert_eq!(entries[0].file_type, FileType::File);
    assert_eq!(entries[1].name_str(), "sub");
    assert_eq!(entries[1].file_type, FileType::Directory);
    let _ = r;
}

#[test]
fn open_flags_bits() {
    let f = OpenFlags(1 | 4);
    assert!(f.read());
    assert!(!f.write());
    assert!(f.create());
    assert!(!f.trunc());
    let g = OpenFlags(2 | 8);
    assert!(!g.read());
    assert!(g.write());
    assert!(!g.create());
    assert!(g.trunc());
}

#[test]
fn directory_holds_at_most_sixteen_children() {
    let mut fs = fresh();
    let d = resolve_path(&fs, "/proc").unwrap();
    for i in 0..16 {
        let name = format!("f{}", i);
        assert!(create_file(&mut fs, d, &name).is_ok());
    }
    assert_eq!(create_file(&mut fs, d, "extra"), Err(FsError::NoSpace));
    assert_eq!(list_dir(&fs, d).unwrap().len(), 16);
}
