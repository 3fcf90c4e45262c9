use dutop::entry::{Entry, FileKind, Metadata};
use dutop::modes::DisplayableEntry;
use dutop::root::Root;
use dutop::utils::{ErrorKind, SizeDisplay};

fn scanned_file(path: &str, len: u64) -> Result<Entry, String> {
    Entry::for_path(path, Ok(Metadata { kind: FileKind::File, len }), Ok(vec![]))
}

fn current_directory() -> Root {
    Root::for_path(
        ".",
        Ok(Metadata { kind: FileKind::Directory, len: 4096 }),
        Ok(vec![scanned_file("./.gitignore", 18), scanned_file("./LICENSE", 1073)]),
    )
    .unwrap()
}

#[test]
fn root_it_can_be_constructed_with_a_path() {
    let pwd = current_directory();

    assert_eq!(pwd.name(), "./");
    assert_eq!(pwd.is_hidden(), false);
    assert!(pwd.children().iter().count() > 0);
    assert!(pwd.size() > 0);
}

#[test]
fn root_it_is_error_when_constructed_from_missing_path() {
    let missing = Root::for_path("./does-not-exist", Err(ErrorKind::NotFound), Ok(vec![]));
    assert_eq!(missing.is_err(), true);
    assert_eq!(missing.unwrap_err(), "File not found");
}

#[test]
fn root_it_can_be_displayed() {
    let root =
        Root::for_path("./LICENSE", Ok(Metadata { kind: FileKind::File, len: 1073 }), Ok(vec![]))
            .unwrap();
    assert_eq!(root.to_string(), format!("./LICENSE {}", root.size().as_size_display()));
    assert_eq!(root.to_string(), "./LICENSE 1.07 kB");
}

#[test]
fn root_it_calculates_size_from_children() {
    let root = current_directory();
    let children_size = root.children().iter().map(|child| child.size()).fold(0, |sum, item| sum + item);

    assert!(root.size() >= children_size);
    assert_eq!(root.size(), 4096 + 18 + 1073);
}

#[test]
fn a_root_is_shown_under_the_whole_path() {
    let root = Root::for_path(
        "/var/log/",
        Ok(Metadata { kind: FileKind::Directory, len: 10 }),
        Ok(vec![scanned_file("/var/log/syslog", 5)]),
    )
    .unwrap();
    assert_eq!(root.name(), "/var/log/");
    assert_eq!(root.entry().name(), "log/");
    assert_eq!(root.entry().size(), 15);
    assert_eq!(root.is_file(), false);

    let root = Root::from_metadata(
        "/var/log",
        &Metadata { kind: FileKind::Directory, len: 10 },
        Ok(vec![]),
    )
    .unwrap();
    assert_eq!(root.name(), "/var/log/");
}

#[test]
fn a_root_is_never_hidden() {
    let root =
        Root::for_path(".hidden", Ok(Metadata { kind: FileKind::File, len: 1 }), Ok(vec![]))
            .unwrap();
    assert_eq!(root.name(), ".hidden");
    assert_eq!(root.is_hidden(), false);
    assert_eq!(root.entry().is_hidden(), true);
    assert_eq!(root.is_file(), true);
}

#[test]
fn a_root_that_is_neither_file_nor_directory_is_refused() {
    let refused =
        Root::for_path("/dev/tty", Ok(Metadata { kind: FileKind::Other, len: 0 }), Ok(vec![]));
    assert_eq!(refused.unwrap_err(), "not a file or directory");
}
