use splat::fsmodel::{DirNode, FileNode, FsEntry};
use splat::metadata::{from_str, header_match, split_lines, Metadata};
use splat::paths::RelPath;

static METADATA: &str = "Title: foo\n\nDescription.\n\nNext paragraph.";

fn empty_dir() -> DirNode {
    DirNode {
        name: String::new(),
        entries: vec![],
    }
}

#[test]
fn parse_metadata() {
    let metadata = from_str(&RelPath::new(), &empty_dir(), METADATA);
    assert_eq!(metadata.title, "foo");
    assert_eq!(
        metadata.description,
        "<p>Description.</p>\n<p>Next paragraph.</p>\n"
    );
}

#[test]
fn no_metadata_is_description() {
    let metadata = from_str(&RelPath::new(), &empty_dir(), "This is *bold*.");
    assert_eq!(metadata.title, "");
    assert_eq!(metadata.description, "<p>This is <em>bold</em>.</p>\n");
}

#[test]
fn title_defaults_to_directory_name() {
    let path = RelPath::new().join("galleries").join("summer");
    let metadata = from_str(&path, &empty_dir(), "just text");
    assert_eq!(metadata.title, "summer");
}

#[test]
fn duplicate_keys_last_value_wins() {
    let metadata = from_str(&RelPath::new(), &empty_dir(), "Title: one\nTitle: two\n\nbody");
    assert_eq!(metadata.title, "two");
}

#[test]
fn unknown_keys_are_ignored() {
    let metadata = from_str(&RelPath::new(), &empty_dir(), "Author: me\nTitle: t\n\nbody");
    assert_eq!(metadata.title, "t");
}

#[test]
fn header_ends_at_first_plain_line() {
    let metadata = from_str(
        &RelPath::new(),
        &empty_dir(),
        "Title: kept\nplain line\nTitle: ignored",
    );
    assert_eq!(metadata.title, "kept");
    assert_eq!(
        metadata.description,
        "<p>plain line\nTitle: ignored</p>\n"
    );
}

#[test]
fn thumbnail_override_requires_existing_file() {
    let dir = DirNode {
        name: "d".to_string(),
        entries: vec![FsEntry::File(FileNode {
            name: "pic.jpg".to_string(),
            mtime: 1,
            content: String::new(),
        })],
    };
    let path = RelPath::new().join("d");
    let present = from_str(&path, &dir, "Thumbnail: pic.jpg");
    assert_eq!(present.thumbnail, Some(path.join("pic.jpg")));

    let absent = from_str(&path, &dir, "Thumbnail: gone.jpg");
    assert_eq!(absent.thumbnail, None);
}

#[test]
fn thumbnail_override_resolves_subdirectories() {
    let dir = DirNode {
        name: "d".to_string(),
        entries: vec![FsEntry::Dir(DirNode {
            name: "sub".to_string(),
            entries: vec![FsEntry::File(FileNode {
                name: "pic.jpg".to_string(),
                mtime: 1,
                content: String::new(),
            })],
        })],
    };
    let path = RelPath::new().join("d");
    let metadata = from_str(&path, &dir, "Thumbnail: sub/pic.jpg");
    assert_eq!(metadata.thumbnail, Some(path.join("sub").join("pic.jpg")));
}

#[test]
fn from_path_without_index_uses_defaults() {
    let dir = DirNode {
        name: "holiday".to_string(),
        entries: vec![],
    };
    let path = RelPath::new().join("holiday");
    let metadata = Metadata::from_path(&dir, &path);
    assert_eq!(metadata.title, "holiday");
    assert_eq!(metadata.description, "");
    assert_eq!(metadata.thumbnail, None);
}

#[test]
fn from_path_reads_index_file() {
    let dir = DirNode {
        name: "holiday".to_string(),
        entries: vec![FsEntry::File(FileNode {
            name: "index.md".to_string(),
            mtime: 1,
            content: "Title: Holidays".to_string(),
        })],
    };
    let path = RelPath::new().join("holiday");
    let metadata = Metadata::from_path(&dir, &path);
    assert_eq!(metadata.title, "Holidays");
}

#[test]
fn header_match_finds_key_and_value() {
    let matched = header_match("Title: a value");
    assert_eq!(matched, Some(("Title".to_string(), "a value".to_string())));
    assert_eq!(header_match("no header here"), None);
    assert_eq!(header_match("Key:missing space"), None);
}

#[test]
fn split_lines_strips_carriage_returns() {
    let lines = split_lines("a\r\nb\nc");
    assert_eq!(lines, vec!["a", "b", "c"]);
}

#[test]
fn header_match_takes_the_earliest_run() {
    let matched = header_match("foo Bar: baz");
    assert_eq!(matched, Some(("Bar".to_string(), "baz".to_string())));
}

#[test]
fn longer_key_is_not_a_known_key() {
    let metadata = from_str(&RelPath::new(), &empty_dir(), "XTitle: nope\n\nbody");
    assert_eq!(metadata.title, "");
}
