use splat::copyplan::{copy_recursively, CopyAction};
use splat::errors::Error;
use splat::fsmodel::{DirNode, FileNode, FsEntry, Snapshot};
use splat::hooks::{to_display, Process};
use splat::paths::RelPath;

fn hook(command: &str) -> Process {
    Process {
        input: RelPath::new().join("theme").join("input.css"),
        output: RelPath::new().join("theme").join("static").join("main.css"),
        command: command.to_string(),
    }
}

#[test]
fn hook_runs_when_output_is_missing() {
    let p = hook("make css");
    assert_eq!(p.should_run(&Snapshot::new()), Ok(true));
}

#[test]
fn hook_skips_fresh_output() {
    let p = hook("make css");
    let mut snapshot = Snapshot::new();
    snapshot.add_file(p.input.clone(), 10);
    snapshot.add_file(p.output.clone(), 20);
    assert_eq!(p.should_run(&snapshot), Ok(false));

    let mut stale = Snapshot::new();
    stale.add_file(p.input.clone(), 30);
    stale.add_file(p.output.clone(), 20);
    assert_eq!(p.should_run(&stale), Ok(true));
}

#[test]
fn hook_with_missing_input_fails() {
    let p = hook("make css");
    let mut snapshot = Snapshot::new();
    snapshot.add_file(p.output.clone(), 20);
    assert_eq!(p.should_run(&snapshot).unwrap_err(), Error::SourceRead);
}

#[test]
fn command_expansion_replaces_placeholders() {
    let p = hook("tailwind -i $< -o $@ --minify");
    let line = p.expand();
    assert_eq!(line.program, "tailwind");
    assert_eq!(
        line.args,
        vec![
            "-i",
            "theme/input.css",
            "-o",
            "theme/static/main.css",
            "--minify"
        ]
    );
}

#[test]
fn command_without_arguments() {
    let p = hook("make");
    let line = p.expand();
    assert_eq!(line.program, "make");
    assert_eq!(line.args.len(), 0);
}

#[test]
fn to_display_joins_segments() {
    assert_eq!(to_display(&RelPath::new().join("a").join("b")), "a/b");
    assert_eq!(to_display(&RelPath::new()), "");
}

#[test]
fn copy_plan_mirrors_tree_and_skips_fresh_files() {
    // theme/static with a file, a subdirectory, and a fresh file.
    let tree = DirNode {
        name: "static".to_string(),
        entries: vec![
            FsEntry::File(FileNode {
                name: "style.css".to_string(),
                mtime: 100,
                content: String::new(),
            }),
            FsEntry::Dir(DirNode {
                name: "js".to_string(),
                entries: vec![FsEntry::File(FileNode {
                    name: "app.js".to_string(),
                    mtime: 100,
                    content: String::new(),
                })],
            }),
            FsEntry::File(FileNode {
                name: "fresh.css".to_string(),
                mtime: 100,
                content: String::new(),
            }),
        ],
    };
    let static_path = RelPath::new().join("theme").join("static");
    let output = RelPath::new().join("out");
    let mut snapshot = Snapshot::new();
    snapshot.add_file(output.join("static").join("fresh.css"), 200);

    let actions = copy_recursively(&tree, &static_path, &output, &snapshot).unwrap();
    assert_eq!(actions.len(), 3);
    assert!(matches!(&actions[0], CopyAction::CopyFile { from, to }
        if *from == static_path.join("style.css")
            && *to == output.join("static").join("style.css")));
    assert!(matches!(&actions[1], CopyAction::CreateDir(p)
        if *p == output.join("static").join("js")));
    assert!(matches!(&actions[2], CopyAction::CopyFile { from, to }
        if *from == static_path.join("js").join("app.js")
            && *to == output.join("static").join("js").join("app.js")));
}

#[test]
fn copy_of_rootless_tree_is_refused() {
    let tree = DirNode {
        name: String::new(),
        entries: vec![],
    };
    let result = copy_recursively(&tree, &RelPath::new(), &RelPath::new().join("out"), &Snapshot::new());
    assert_eq!(result.unwrap_err(), Error::InvalidPath);
}

#[test]
fn resolve_thumbnail_defends_against_empty_collections() {
    let result = splat::collection::resolve_thumbnail(
        &splat::metadata::Metadata {
            description: String::new(),
            title: String::new(),
            thumbnail: None,
        },
        &Vec::new(),
        &Vec::new(),
    );
    assert_eq!(result.unwrap_err(), Error::NoThumbnail);
}
