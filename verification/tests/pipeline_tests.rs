use splat::collection::Item;
use splat::config::{Config, Resize, Thumbnail};
use splat::errors::Error;
use splat::fsmodel::{is_older, Snapshot};
use splat::paths::RelPath;
use splat::pipeline::{plan_item, stale_items, FullJob, ItemPlan, Progress};

fn config(resize: Option<(u32, u32)>) -> Config {
    Config {
        input: RelPath::new().join("input"),
        output: RelPath::new().join("output"),
        thumbnail: Thumbnail {
            width: 300,
            height: 200,
        },
        resize: resize.map(|r| Resize {
            width: r.0,
            height: r.1,
        }),
    }
}

fn item(name: &str, mtime: u64) -> Item {
    Item::new(RelPath::new().join("input").join(name), mtime, &config(None)).unwrap()
}

/// A snapshot where the item's outputs exist and are newer than its source.
fn fresh_snapshot(items: &[Item]) -> Snapshot {
    let mut snapshot = Snapshot::new();
    for it in items {
        snapshot.add_file(it.to.clone(), it.from_mtime + 1);
        snapshot.add_file(it.thumbnail.clone(), it.from_mtime + 1);
        snapshot.add_dir(it.thumbnail.parent().unwrap());
    }
    snapshot
}

#[test]
fn plan_copy() {
    let it = item("test.jpg", 100);
    let plan = plan_item(&it, &config(None), &Snapshot::new());
    assert_eq!(
        plan,
        ItemPlan {
            create_thumb_dir: true,
            thumbnail: Some(Thumbnail {
                width: 300,
                height: 200
            }),
            full: Some(FullJob::Copy),
        }
    );
}

#[test]
fn plan_resize() {
    let it = item("test.jpg", 100);
    let plan = plan_item(&it, &config(Some((600, 400))), &Snapshot::new());
    assert_eq!(
        plan,
        ItemPlan {
            create_thumb_dir: true,
            thumbnail: Some(Thumbnail {
                width: 300,
                height: 200
            }),
            full: Some(FullJob::Resize(600, 400)),
        }
    );
}

#[test]
fn fresh_outputs_need_no_work() {
    let it = item("test.jpg", 100);
    let snapshot = fresh_snapshot(std::slice::from_ref(&it));
    assert!(!it.needs_update(&snapshot));
    let plan = plan_item(&it, &config(None), &snapshot);
    assert_eq!(
        plan,
        ItemPlan {
            create_thumb_dir: false,
            thumbnail: None,
            full: None,
        }
    );
    let work = stale_items(&vec![it], &snapshot);
    assert_eq!(work.len(), 0);
}

#[test]
fn touched_source_regenerates_exactly_one_item() {
    let items = vec![item("a.jpg", 100), item("b.jpg", 100), item("c.jpg", 100)];
    let snapshot = fresh_snapshot(&items);
    // Touch b.jpg: its source becomes newer than both of its outputs.
    let mut touched = items.clone();
    touched[1].from_mtime = 500;

    let work = stale_items(&touched, &snapshot);
    assert_eq!(work.len(), 1);
    assert_eq!(work[0].from, RelPath::new().join("input").join("b.jpg"));

    let plan = plan_item(&work[0], &config(None), &snapshot);
    assert!(plan.thumbnail.is_some());
    assert!(plan.full.is_some());

    // After regenerating, nothing is scheduled any more.
    let regenerated = fresh_snapshot(&touched);
    let again = stale_items(&touched, &regenerated);
    assert_eq!(again.len(), 0);
}

#[test]
fn missing_thumbnail_alone_triggers_work() {
    let it = item("test.jpg", 100);
    let mut snapshot = Snapshot::new();
    snapshot.add_file(it.to.clone(), 200);
    assert!(it.needs_update(&snapshot));
    let plan = plan_item(&it, &config(None), &snapshot);
    assert!(plan.thumbnail.is_some());
    assert_eq!(plan.full, None);
}

#[test]
fn stale_thumbnail_alone_triggers_work() {
    let it = item("test.jpg", 100);
    let mut snapshot = Snapshot::new();
    // Fresh full-size output, thumbnail present but older than the source.
    snapshot.add_file(it.to.clone(), 200);
    snapshot.add_file(it.thumbnail.clone(), 50);
    snapshot.add_dir(it.thumbnail.parent().unwrap());
    assert!(it.needs_update(&snapshot));

    let work = stale_items(&vec![it.clone()], &snapshot);
    assert_eq!(work.len(), 1);

    let plan = plan_item(&it, &config(None), &snapshot);
    assert_eq!(
        plan,
        ItemPlan {
            create_thumb_dir: false,
            thumbnail: Some(Thumbnail {
                width: 300,
                height: 200
            }),
            full: None,
        }
    );
}

#[test]
fn thumbnail_outdated_reports_missing_file() {
    let it = item("test.jpg", 100);
    assert_eq!(
        it.thumbnail_outdated(&Snapshot::new()).unwrap_err(),
        Error::SourceRead
    );
    let mut snapshot = Snapshot::new();
    snapshot.add_file(it.thumbnail.clone(), 50);
    assert_eq!(it.thumbnail_outdated(&snapshot), Ok(true));
    snapshot.add_file(it.thumbnail.clone(), 500);
    // First recorded stamp wins: the snapshot is read-only during a build.
    assert_eq!(it.thumbnail_outdated(&snapshot), Ok(true));
}

#[test]
fn is_older_compares_recorded_times() {
    let a = RelPath::new().join("a");
    let b = RelPath::new().join("b");
    let mut snapshot = Snapshot::new();
    snapshot.add_file(a.clone(), 10);
    snapshot.add_file(b.clone(), 20);
    assert_eq!(is_older(&snapshot, &a, &b), Ok(true));
    assert_eq!(is_older(&snapshot, &b, &a), Ok(false));
    let missing = RelPath::new().join("missing");
    assert_eq!(is_older(&snapshot, &a, &missing).unwrap_err(), Error::SourceRead);
}

#[test]
fn progress_counts_every_outcome() {
    let mut progress = Progress::new(3);
    assert!(!progress.is_done());
    progress.record(&Ok(()));
    progress.record(&Err(Error::Decode));
    assert!(!progress.is_done());
    progress.record(&Ok(()));
    assert!(progress.is_done());
    assert_eq!(progress.succeeded, 2);
    assert_eq!(progress.failed, 1);
    assert_eq!(progress.expected, 3);
}

#[test]
fn error_messages_name_the_failure() {
    assert_eq!(Error::Decode.message(), "not a valid image");
    assert_eq!(Error::Write.message(), "destination is not writable");
    assert_eq!(Error::DirectoryCreate.message(), "could not create directory");
    assert_eq!(Error::SourceRead.message(), "source file is missing or unreadable");
}
