use splat::errors::Error;
use splat::paths::{breadcrumbs_to_links, output_path_to_root, path_to_string, RelPath};

#[test]
fn breadcrumb_links() {
    let breadcrumbs = vec![
        String::from("foo"),
        String::from("bar"),
        String::from("baz"),
    ];
    let links = breadcrumbs_to_links(&breadcrumbs);
    assert_eq!(links[0].title, "foo");
    assert_eq!(links[0].path, "./../..");
    assert_eq!(links[1].title, "bar");
    assert_eq!(links[1].path, "./..");
    assert_eq!(links[2].title, "baz");
    assert_eq!(links[2].path, ".");
}

#[test]
fn breadcrumb_links_of_empty_trail() {
    let links = breadcrumbs_to_links(&Vec::new());
    assert_eq!(links.len(), 0);
}

#[test]
fn output_path_to_root_counts_levels() {
    let out = RelPath::new().join("out").join("a").join("b");
    assert_eq!(
        output_path_to_root(&out),
        RelPath::new().join("..").join("..")
    );
    assert_eq!(output_path_to_root(&RelPath::new().join("out")), RelPath::new());
    assert_eq!(output_path_to_root(&RelPath::new()), RelPath::new());
}

#[test]
fn path_operations() {
    let p = RelPath::new().join("a").join("b").join("c.jpg");
    assert_eq!(path_to_string(&p), "c.jpg");
    assert_eq!(path_to_string(&RelPath::new()), "");
    assert_eq!(p.file_name().unwrap(), "c.jpg");
    assert_eq!(p.parent().unwrap(), RelPath::new().join("a").join("b"));
    assert!(RelPath::new().parent().is_none());

    let prefix = RelPath::new().join("a");
    assert_eq!(
        p.strip_prefix(&prefix).unwrap(),
        RelPath::new().join("b").join("c.jpg")
    );
    let other = RelPath::new().join("x");
    assert_eq!(p.strip_prefix(&other).unwrap_err(), Error::InvalidPath);

    let joined = prefix.concat(&RelPath::new().join("y").join("z"));
    assert_eq!(joined, RelPath::new().join("a").join("y").join("z"));
}
