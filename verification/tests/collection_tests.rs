use splat::collection::{root_collection, Collection, Item};
use splat::config::{Config, Resize, Thumbnail};
use splat::errors::Error;
use splat::fsmodel::{DirNode, FileNode, FsEntry};
use splat::paths::RelPath;

fn file(name: &str) -> FsEntry {
    FsEntry::File(FileNode {
        name: name.to_string(),
        mtime: 100,
        content: String::new(),
    })
}

fn file_with_content(name: &str, content: &str) -> FsEntry {
    FsEntry::File(FileNode {
        name: name.to_string(),
        mtime: 100,
        content: content.to_string(),
    })
}

fn dir(name: &str, entries: Vec<FsEntry>) -> FsEntry {
    FsEntry::Dir(DirNode {
        name: name.to_string(),
        entries,
    })
}

fn config() -> Config {
    Config {
        input: RelPath::new().join("input"),
        output: RelPath::new().join("output"),
        thumbnail: Thumbnail {
            width: 300,
            height: 200,
        },
        resize: None,
    }
}

fn collect(entries: Vec<FsEntry>) -> Option<Collection> {
    let config = config();
    let root = DirNode {
        name: "input".to_string(),
        entries,
    };
    let input = config.input.clone();
    Collection::new(&root, &input, &config).unwrap()
}

#[test]
fn empty_dir_is_none_collection() {
    let collection = collect(vec![]);
    assert!(collection.is_none());
}

#[test]
fn no_image_is_none_collection() {
    let collection = collect(vec![file("foo.bar")]);
    assert!(collection.is_none());
}

#[test]
fn single_image_is_some_collection() {
    let collection = collect(vec![file("test.jpg")]);
    assert!(collection.is_some());

    let collection = collection.unwrap();
    assert_eq!(collection.items.len(), 1);
}

#[test]
fn choose_metadata_thumbnail() {
    let collection = collect(vec![
        file("1.jpg"),
        file("2.jpg"),
        file("3.jpg"),
        file_with_content("index.md", "Thumbnail: 2.jpg"),
    ])
    .unwrap();
    assert_eq!(collection.thumbnail, config().input.join("2.jpg"));
}

#[test]
fn choose_root_thumbnail() {
    let collection = collect(vec![
        file("test.jpg"),
        file_with_content("index.md", "Thumbnail: doesnotexist.jpg"),
    ])
    .unwrap();
    assert_eq!(collection.thumbnail, config().input.join("test.jpg"));
}

#[test]
fn choose_root_thumbnail_on_conflict() {
    let collection = collect(vec![
        file("test.jpg"),
        file_with_content("index.md", "Thumbnail: doesnotexist.jpg"),
    ])
    .unwrap();
    assert_eq!(collection.thumbnail, config().input.join("test.jpg"));
}

#[test]
fn choose_subdir_thumbnail() {
    let collection = collect(vec![dir("a", vec![file("test.jpg")])]).unwrap();
    assert_eq!(
        collection.thumbnail,
        config().input.join("a").join("test.jpg")
    );
}

#[test]
fn single_image_in_subdir() {
    let collection = collect(vec![dir("a", vec![file("test.jpg")])]);
    assert!(collection.is_some());

    let collection = collection.unwrap();
    assert_eq!(collection.items.len(), 0);
    assert_eq!(collection.collections.len(), 1);

    let child_collection = &collection.collections[0];
    assert_eq!(child_collection.items.len(), 1);
    assert_eq!(collection.thumbnail, child_collection.thumbnail);
}

#[test]
fn index_in_root_dir() {
    let collection = collect(vec![
        file("test.jpg"),
        file_with_content("index.md", "Title: foo\n\nDescription.\n\nNext paragraph."),
    ]);
    assert!(collection.is_some());

    let collection = collection.unwrap();
    assert!(collection.metadata.title == "foo");
}

#[test]
fn image_extensions_are_case_insensitive() {
    let collection = collect(vec![
        file("a.JPG"),
        file("b.JpEg"),
        file("c.png"),
        file(".jpg"),
        file("noext"),
    ])
    .unwrap();
    assert_eq!(collection.items.len(), 2);
}

#[test]
fn item_paths_are_rerooted() {
    let collection = collect(vec![dir("a", vec![file("x.jpg")])]).unwrap();
    let item = &collection.collections[0].items[0];
    assert_eq!(item.from, config().input.join("a").join("x.jpg"));
    assert_eq!(item.to, config().output.join("a").join("x.jpg"));
    assert_eq!(
        item.thumbnail,
        config().output.join("a").join("thumbnails").join("x.jpg")
    );
    assert_eq!(item.from_mtime, 100);
}

#[test]
fn items_flatten_depth_first() {
    let collection = collect(vec![
        file("top.jpg"),
        dir("a", vec![file("one.jpg")]),
        dir("b", vec![file("two.jpg"), dir("c", vec![file("three.jpg")])]),
    ])
    .unwrap();
    let items = collection.items();
    let names: Vec<String> = items
        .iter()
        .map(|i: &Item| i.from.segments.last().unwrap().clone())
        .collect();
    assert_eq!(names, vec!["top.jpg", "one.jpg", "two.jpg", "three.jpg"]);
}

#[test]
fn root_collection_without_images_is_fatal() {
    let config = config();
    let root = DirNode {
        name: "input".to_string(),
        entries: vec![file("readme.txt")],
    };
    let result = root_collection(&root, &config);
    assert_eq!(result.unwrap_err(), Error::NoImages);
}

#[test]
fn item_outside_input_root_is_refused() {
    let config = config();
    let elsewhere = RelPath::new().join("elsewhere").join("x.jpg");
    let result = Item::new(elsewhere, 1, &config);
    assert_eq!(result.unwrap_err(), Error::InvalidPath);
}

#[test]
fn resize_config_is_carried() {
    let config = Config {
        resize: Some(Resize {
            width: 600,
            height: 400,
        }),
        ..config()
    };
    assert_eq!(config.resize.unwrap(), Resize {
        width: 600,
        height: 400
    });
}
