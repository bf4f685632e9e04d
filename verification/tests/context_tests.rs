use splat::collection::Collection;
use splat::config::{Config, Thumbnail};
use splat::context::{write_tree, Dim};
use splat::fsmodel::{DirNode, FileNode, FsEntry};
use splat::paths::RelPath;

fn file(name: &str) -> FsEntry {
    FsEntry::File(FileNode {
        name: name.to_string(),
        mtime: 100,
        content: String::new(),
    })
}

fn config() -> Config {
    Config {
        input: RelPath::new().join("input"),
        output: RelPath::new().join("output"),
        thumbnail: Thumbnail {
            width: 300,
            height: 200,
        },
        resize: None,
    }
}

fn sample_tree() -> Collection {
    let config = config();
    let root = DirNode {
        name: "input".to_string(),
        entries: vec![
            file("zebra.jpg"),
            file("apple.jpg"),
            FsEntry::Dir(DirNode {
                name: "beta".to_string(),
                entries: vec![
                    file("b.jpg"),
                    FsEntry::File(FileNode {
                        name: "index.md".to_string(),
                        mtime: 1,
                        content: "Title: Beta".to_string(),
                    }),
                ],
            }),
            FsEntry::Dir(DirNode {
                name: "alpha".to_string(),
                entries: vec![
                    file("a.jpg"),
                    FsEntry::File(FileNode {
                        name: "index.md".to_string(),
                        mtime: 1,
                        content: "Title: Alpha".to_string(),
                    }),
                ],
            }),
        ],
    };
    let input = config.input.clone();
    Collection::new(&root, &input, &config).unwrap().unwrap()
}

fn dims_for(collection: &Collection) -> Vec<Dim> {
    collection
        .items()
        .iter()
        .map(|item| Dim {
            path: item.to.clone(),
            width: 900,
            height: 600,
        })
        .collect()
}

#[test]
fn one_page_per_collection_children_first() {
    let collection = sample_tree();
    let dims = dims_for(&collection);
    let mut breadcrumbs = vec![String::from("home")];
    let output = config().output;
    let pages = write_tree(&collection, &mut breadcrumbs, &output, &dims).unwrap();

    assert_eq!(pages.len(), 3);
    assert_eq!(pages[0].output_dir, output.join("beta"));
    assert_eq!(pages[1].output_dir, output.join("alpha"));
    assert_eq!(pages[2].output_dir, output.clone());
    // The trail is restored after the walk.
    assert_eq!(breadcrumbs, vec![String::from("home")]);
}

#[test]
fn images_sort_by_thumbnail_path() {
    let collection = sample_tree();
    let dims = dims_for(&collection);
    let mut breadcrumbs = vec![String::from("home")];
    let output = config().output;
    let pages = write_tree(&collection, &mut breadcrumbs, &output, &dims).unwrap();

    let root_page = &pages[2];
    assert_eq!(root_page.context.images.len(), 2);
    assert_eq!(root_page.context.images[0].path, "apple.jpg");
    assert_eq!(root_page.context.images[1].path, "zebra.jpg");
    assert_eq!(
        root_page.context.images[0].thumbnail,
        RelPath::new().join("thumbnails").join("apple.jpg")
    );
    assert_eq!(root_page.context.images[0].width, 900);
    assert_eq!(root_page.context.images[0].height, 600);
}

#[test]
fn children_sort_descending_by_title() {
    let collection = sample_tree();
    let dims = dims_for(&collection);
    let mut breadcrumbs = vec![String::from("home")];
    let output = config().output;
    let pages = write_tree(&collection, &mut breadcrumbs, &output, &dims).unwrap();

    let root_page = &pages[2];
    assert_eq!(root_page.context.children.len(), 2);
    assert_eq!(root_page.context.children[0].title, "Beta");
    assert_eq!(root_page.context.children[1].title, "Alpha");
    assert_eq!(root_page.context.children[0].path, "beta");
    assert_eq!(
        root_page.context.children[0].thumbnail,
        RelPath::new().join("beta").join("thumbnails").join("b.jpg")
    );
}

#[test]
fn breadcrumbs_and_theme_paths_follow_depth() {
    let collection = sample_tree();
    let dims = dims_for(&collection);
    let mut breadcrumbs = vec![String::from("home")];
    let output = config().output;
    let pages = write_tree(&collection, &mut breadcrumbs, &output, &dims).unwrap();

    let child_page = &pages[0];
    assert_eq!(child_page.context.title, "Beta");
    assert_eq!(child_page.context.breadcrumbs.len(), 2);
    assert_eq!(child_page.context.breadcrumbs[0].title, "home");
    assert_eq!(child_page.context.breadcrumbs[0].path, "./..");
    assert_eq!(child_page.context.breadcrumbs[1].title, "beta");
    assert_eq!(child_page.context.breadcrumbs[1].path, ".");
    assert_eq!(
        child_page.theme_path,
        RelPath::new().join("..").join("static")
    );

    let root_page = &pages[2];
    assert_eq!(root_page.context.breadcrumbs.len(), 1);
    assert_eq!(root_page.context.breadcrumbs[0].path, ".");
    assert_eq!(root_page.theme_path, RelPath::new().join("static"));
}

#[test]
fn failed_item_is_left_off_its_page() {
    let collection = sample_tree();
    // The dimensions of zebra.jpg's output are unknown: its pipeline work
    // failed.  The page is still emitted, without that image.
    let dims: Vec<Dim> = dims_for(&collection)
        .into_iter()
        .filter(|d| d.path != config().output.join("zebra.jpg"))
        .collect();
    let mut breadcrumbs = vec![String::from("home")];
    let output = config().output;
    let pages = write_tree(&collection, &mut breadcrumbs, &output, &dims).unwrap();

    assert_eq!(pages.len(), 3);
    let root_page = &pages[2];
    assert_eq!(root_page.context.images.len(), 1);
    assert_eq!(root_page.context.images[0].path, "apple.jpg");
}

#[test]
fn sort_children_is_stable_and_descending() {
    let child = |path: &str, title: &str| splat::context::Child {
        path: path.to_string(),
        thumbnail: RelPath::new().join(path),
        title: title.to_string(),
    };
    let children = vec![
        child("first", "Same"),
        child("a", "A"),
        child("ab", "Ab"),
        child("second", "Same"),
    ];
    let sorted = splat::context::sort_children_exec(&children);
    let order: Vec<(String, String)> = sorted
        .iter()
        .map(|c| (c.title.clone(), c.path.clone()))
        .collect();
    assert_eq!(
        order,
        vec![
            ("Same".to_string(), "first".to_string()),
            ("Same".to_string(), "second".to_string()),
            ("Ab".to_string(), "ab".to_string()),
            ("A".to_string(), "a".to_string()),
        ]
    );
}

#[test]
fn sort_images_orders_by_thumbnail() {
    let image = |name: &str| splat::context::Image {
        path: name.to_string(),
        thumbnail: RelPath::new().join("thumbnails").join(name),
        width: 1,
        height: 1,
    };
    let images = vec![image("c.jpg"), image("a.jpg"), image("b.jpg")];
    let sorted = splat::context::sort_images_exec(&images);
    let names: Vec<String> = sorted.iter().map(|i| i.path.clone()).collect();
    assert_eq!(names, vec!["a.jpg", "b.jpg", "c.jpg"]);
}
