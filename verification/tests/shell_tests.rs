use openion::shell::{
    classify_command, command_names, complete_command, first_words, normalize_path, parse_command,
    parse_mount_args, split_completion_path, split_parent_child, split_redirect, tab_arg_start, trim, EditAction,
    EscState, LineEditor, MountCommand, PathCompletion, ShellCommand, ShellPath, ShellState, INPUT_CAP, PATH_CAP,
    complete_path,
};
use openion::fs::{DirEntry, FileType};

fn path_of(state: &ShellState, p: &str) -> Option<Vec<u8>> {
    normalize_path(state, p.as_bytes()).map(|x| x.as_bytes().to_vec())
}

#[test]
fn shell_state_basics() {
    let mut st = ShellState::new();
    assert_eq!(st.cwd_str(), "/");
    assert!(st.last_cmd().is_empty());
    st.remember_cmd("ls /dev");
    assert_eq!(st.last_cmd(), b"ls /dev");
    let long = "x".repeat(200);
    st.remember_cmd(&long);
    assert_eq!(st.last_cmd().len(), 128);
    assert!(st.set_cwd("/mnt"));
    assert_eq!(st.cwd_str(), "/mnt");
    assert!(!st.set_cwd(""));
    assert!(!st.set_cwd(&"a".repeat(PATH_CAP + 1)));
    assert_eq!(st.cwd_str(), "/mnt");
}

#[test]
fn path_normalisation() {
    let mut st = ShellState::new();
    st.set_cwd("/mnt/data");
    assert_eq!(path_of(&st, ""), Some(b"/mnt/data".to_vec()));
    assert_eq!(path_of(&st, "x/y"), Some(b"/mnt/data/x/y".to_vec()));
    assert_eq!(path_of(&st, ".."), Some(b"/mnt".to_vec()));
    assert_eq!(path_of(&st, "../../.."), Some(b"/".to_vec()));
    assert_eq!(path_of(&st, "/dev//./tty"), Some(b"/dev/tty".to_vec()));
    assert_eq!(path_of(&st, "/a/b/../c/"), Some(b"/a/c".to_vec()));
    let long = format!("/{}", "a".repeat(PATH_CAP));
    assert_eq!(path_of(&st, &long), None);
}

#[test]
fn shell_path_components() {
    let mut p = ShellPath::root();
    assert!(p.push_component(b"usr"));
    assert!(p.push_component(b"lib"));
    assert_eq!(p.as_bytes(), b"/usr/lib");
    p.pop_component();
    assert_eq!(p.as_bytes(), b"/usr");
    p.pop_component();
    p.pop_component();
    assert_eq!(p.as_bytes(), b"/");
    assert!(p.push_components(b"a/./b/../c"));
    assert_eq!(p.as_bytes(), b"/a/c");
    assert!(!p.push_component(&[b'z'; PATH_CAP]));
    assert_eq!(p.as_bytes(), b"/a/c");
}

#[test]
fn completion_and_parent_splits() {
    assert_eq!(split_completion_path(b"/dev/tt"), (&b"/dev"[..], &b"tt"[..], 5));
    assert_eq!(split_completion_path(b"/de"), (&b"/"[..], &b"de"[..], 1));
    assert_eq!(split_completion_path(b"fil"), (&b""[..], &b"fil"[..], 0));
    let mut st = ShellState::new();
    st.set_cwd("/home");
    let (parent, child) = split_parent_child(&st, b"docs/new.txt").unwrap();
    assert_eq!(parent.as_bytes(), b"/home/docs");
    assert_eq!(child, b"new.txt");
    let (parent, child) = split_parent_child(&st, b"/top").unwrap();
    assert_eq!(parent.as_bytes(), b"/");
    assert_eq!(child, b"top");
    let (parent, child) = split_parent_child(&st, b"file").unwrap();
    assert_eq!(parent.as_bytes(), b"/home");
    assert_eq!(child, b"file");
    assert!(split_parent_child(&st, b"dir/").is_none());
}

#[test]
fn command_line_parsing() {
    assert_eq!(trim(b"  hi there \t"), b"hi there");
    assert_eq!(trim(b"   "), b"");
    assert_eq!(parse_command(b"ls"), (&b"ls"[..], &b""[..]));
    assert_eq!(parse_command(b"cat   notes.txt  "), (&b"cat"[..], &b"notes.txt"[..]));
    assert_eq!(split_redirect(b" hello > out.txt "), Some((&b"hello"[..], &b"out.txt"[..])));
    assert_eq!(split_redirect(b"hello"), None);
    assert_eq!(split_redirect(b"x >"), Some((&b"x"[..], &b""[..])));
    assert_eq!(tab_arg_start(b"cat fi", 6), Some(4));
    assert_eq!(tab_arg_start(b"ca", 2), None);
    assert_eq!(tab_arg_start(b"cd a b", 4), Some(3));
}

#[test]
fn commands() {
    assert_eq!(command_names().len(), 16);
    assert_eq!(classify_command(b"help"), ShellCommand::Help);
    assert_eq!(classify_command(b"ver"), ShellCommand::Version);
    assert_eq!(classify_command(b"ps"), ShellCommand::Tasks);
    assert_eq!(classify_command(b"mount"), ShellCommand::Mount);
    assert_eq!(classify_command(b"nope"), ShellCommand::Unknown);
    assert_eq!(classify_command(b""), ShellCommand::Unknown);
    assert_eq!(complete_command(b"m"), vec!["mkdir", "mount", "mem"]);
    assert_eq!(complete_command(b"vers"), vec!["version"]);
    assert!(complete_command(b"q").is_empty());
    assert_eq!(complete_command(b"").len(), 16);
}

#[test]
fn mount_arguments() {
    assert_eq!(parse_mount_args(b""), MountCommand::List);
    assert_eq!(parse_mount_args(b"  "), MountCommand::List);
    assert_eq!(parse_mount_args(b"/dev/blk0 /mnt"), MountCommand::Mount(&b"/dev/blk0"[..], &b"/mnt"[..]));
    assert_eq!(parse_mount_args(b"/dev/blk0"), MountCommand::MissingTarget);
    assert_eq!(parse_mount_args(b"a b c"), MountCommand::MountUsage);
    assert_eq!(parse_mount_args(b"-u /mnt"), MountCommand::Unmount(&b"/mnt"[..]));
    assert_eq!(parse_mount_args(b"-u"), MountCommand::MissingUnmountTarget);
    assert_eq!(parse_mount_args(b"-u a b"), MountCommand::UnmountUsage);
    assert_eq!(parse_mount_args(b"-u a b c d"), MountCommand::UnmountUsage);
    let (w, more) = first_words(b" a\tbb  c d ");
    assert_eq!(w, vec![&b"a"[..], &b"bb"[..], &b"c"[..]]);
    assert!(more);
}

fn feed_all(ed: &mut LineEditor, bytes: &[u8], last: &[u8]) -> Vec<EditAction> {
    bytes.iter().map(|&b| ed.feed(b, last)).collect()
}

#[test]
fn line_editing() {
    let mut ed = LineEditor::new();
    feed_all(&mut ed, b"helo", b"");
    // left arrow, then insert
    assert_eq!(ed.feed(0x1b, b""), EditAction::Nothing);
    assert_eq!(ed.feed(b'[', b""), EditAction::Nothing);
    assert_eq!(ed.feed(b'D', b""), EditAction::Redraw);
    assert_eq!(ed.feed(b'l', b""), EditAction::Redraw);
    assert_eq!(ed.text(), b"hello");
    assert_eq!(ed.pos(), 4);
    // backspace removes before the cursor
    assert_eq!(ed.feed(127, b""), EditAction::Redraw);
    assert_eq!(ed.text(), b"helo");
    // home, then delete key
    feed_all(&mut ed, &[0x1b, b'[', b'H'], b"");
    assert_eq!(ed.pos(), 0);
    feed_all(&mut ed, &[0x1b, b'[', b'3', b'~'], b"");
    assert_eq!(ed.text(), b"elo");
    assert_eq!(ed.feed(b'\t', b""), EditAction::Complete);
    assert_eq!(ed.feed(b'\r', b""), EditAction::Submit(b"elo".to_vec()));
    assert!(ed.text().is_empty());
    // up arrow recalls the last command
    feed_all(&mut ed, &[0x1b, b'['], b"");
    assert_eq!(ed.feed(b'A', b"ls /dev"), EditAction::Redraw);
    assert_eq!(ed.text(), b"ls /dev");
    assert_eq!(ed.pos(), 7);
    ed.set_line(b"mount");
    assert_eq!(ed.pos(), 5);
    let mut full = LineEditor::new();
    for _ in 0..INPUT_CAP {
        full.feed(b'a', b"");
    }
    assert_eq!(full.feed(b'b', b""), EditAction::Nothing);
    assert_eq!(full.text().len(), INPUT_CAP);
    let _ = EscState::Normal;
}

fn entry(name: &str, dir: bool) -> DirEntry {
    DirEntry { name: name.as_bytes().to_vec(), file_type: if dir { FileType::Directory } else { FileType::File } }
}

#[test]
fn path_completion() {
    let entries = vec![entry("docs", true), entry("data.txt", false), entry("notes", false)];
    // "cat /mnt/no" completes to the one match
    match complete_path(b"cat /mnt/no", 4, 5, b"no", &entries) {
        PathCompletion::Single(v) => assert_eq!(v, b"cat /mnt/notes".to_vec()),
        _ => panic!("expected one match"),
    }
    // a directory gets a slash
    match complete_path(b"cd do", 3, 0, b"do", &entries) {
        PathCompletion::Single(v) => assert_eq!(v, b"cd docs/".to_vec()),
        _ => panic!("expected one match"),
    }
    match complete_path(b"cat d", 4, 0, b"d", &entries) {
        PathCompletion::Several(hits) => {
            assert_eq!(hits.len(), 2);
            assert_eq!(hits[0].name, b"docs".to_vec());
            assert_eq!(hits[1].name, b"data.txt".to_vec());
        }
        _ => panic!("expected several matches"),
    }
    assert!(matches!(complete_path(b"cat z", 4, 0, b"z", &entries), PathCompletion::NoMatch));
    // the completed line is kept to the input capacity
    let long = vec![b'x'; INPUT_CAP - 2];
    match complete_path(&long, INPUT_CAP - 2, 0, b"", &[entry("abcdef", false)]) {
        PathCompletion::Single(v) => {
            assert_eq!(v.len(), INPUT_CAP);
            assert_eq!(&v[INPUT_CAP - 2..], b"ab");
        }
        _ => panic!("expected one match"),
    }
}
