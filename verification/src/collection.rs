use vstd::prelude::*;
use crate::config::Config;
use crate::errors::Error;
use crate::fsmodel::{
    entries_have_content, has_content, is_image_name, DirNode, FileNode, FsEntry, Snapshot,
};
use crate::metadata::{metadata_ok, Metadata};
use crate::paths::RelPath;

verus! {

// ---------------------------------------------------------------------------
// One source image, with the two paths derived for it: the full-size output
// (the source re-rooted from the input root to the output root) and the
// thumbnail (a `thumbnails` directory beside the output, same file name).
// ---------------------------------------------------------------------------

#[derive(Debug)]
pub struct Item {
    /// Source image.
    pub from: RelPath,
    /// Full-size output.
    pub to: RelPath,
    /// Thumbnail generated from `from`.
    pub thumbnail: RelPath,
    /// Modification time of the source, captured at scan time.
    pub from_mtime: u64,
}

/// The mathematical value of an [`Item`].
#[verifier::ext_equal]
pub ghost struct ItemV {
    pub from: Seq<Seq<char>>,
    pub to: Seq<Seq<char>>,
    pub thumbnail: Seq<Seq<char>>,
    pub from_mtime: u64,
}

impl View for Item {
    type V = ItemV;

    open spec fn view(&self) -> ItemV {
        ItemV {
            from: self.from@,
            to: self.to@,
            thumbnail: self.thumbnail@,
            from_mtime: self.from_mtime,
        }
    }
}

impl Clone for Item {
    fn clone(&self) -> (res: Self)
        ensures
            res@ == self@,
    {
        let res = Item {
            from: self.from.clone(),
            to: self.to.clone(),
            thumbnail: self.thumbnail.clone(),
            from_mtime: self.from_mtime,
        };
        proof {
            assert(res@ =~= self@);
        }
        res
    }
}

impl Item {
    /// Derive an item from a source path: the output path re-roots the
    /// source under the output root, the thumbnail sits in a `thumbnails`
    /// directory beside the output.  Fails when the source does not lie
    /// under the input root, or when the derived paths would lack a parent
    /// or a file name.
    pub fn new(path: RelPath, from_mtime: u64, config: &Config) -> (r: Result<Item, Error>)
        ensures
            r is Ok <==> (config.input@.is_prefix_of(path@) && path@.len() > 0 && config.output@.len()
                + path@.len() - config.input@.len() > 0),
            r matches Ok(item) ==> ({
                let to = config.output@ + path@.skip(config.input@.len() as int);
                &&& item.from@ == path@
                &&& item.from_mtime == from_mtime
                &&& item.to@ == to
                &&& item.thumbnail@ == to.drop_last().push("thumbnails"@).push(path@.last())
            }),
            r matches Err(e) ==> e == Error::InvalidPath,
    {
        let rel = match path.strip_prefix(&config.input) {
            Ok(rel) => rel,
            Err(e) => {
                return Err(e);
            },
        };
        let to = config.output.concat(&rel);
        let parent = match to.parent() {
            Some(p) => p,
            None => {
                return Err(Error::InvalidPath);
            },
        };
        let name = match path.file_name() {
            Some(n) => n.clone(),
            None => {
                return Err(Error::InvalidPath);
            },
        };
        let thumbnail = parent.join("thumbnails").join(name.as_str());
        Ok(Item { thumbnail, to, from: path, from_mtime })
    }

    /// Whether this item needs any pipeline work: the full-size output is
    /// missing or older than the source, or the thumbnail is missing or
    /// older than the source.  The two outputs are judged independently:
    /// either going stale on its own schedules the item.
    pub open spec fn spec_needs_update(self, snapshot: Snapshot) -> bool {
        ||| snapshot.spec_mtime(self.to@) is None
        ||| snapshot.spec_mtime(self.to@).unwrap() < self.from_mtime
        ||| snapshot.spec_mtime(self.thumbnail@) is None
        ||| snapshot.spec_mtime(self.thumbnail@).unwrap() < self.from_mtime
    }

    pub fn needs_update(&self, snapshot: &Snapshot) -> (r: bool)
        ensures
            r == self.spec_needs_update(*snapshot),
    {
        let full_stale: bool = match snapshot.mtime_of(&self.to) {
            None => true,
            Some(m) => m < self.from_mtime,
        };
        let thumb_stale: bool = match snapshot.mtime_of(&self.thumbnail) {
            None => true,
            Some(m) => m < self.from_mtime,
        };
        full_stale || thumb_stale
    }

    /// Whether the thumbnail was generated before the source last changed;
    /// an error when the snapshot lacks the thumbnail.
    pub fn thumbnail_outdated(&self, snapshot: &Snapshot) -> (r: Result<bool, Error>)
        ensures
            r is Ok <==> snapshot.spec_mtime(self.thumbnail@) is Some,
            r matches Ok(b) ==> b == (snapshot.spec_mtime(self.thumbnail@).unwrap()
                < self.from_mtime),
            r matches Err(e) ==> e == Error::SourceRead,
    {
        match snapshot.mtime_of(&self.thumbnail) {
            None => Err(Error::SourceRead),
            Some(m) => Ok(m < self.from_mtime),
        }
    }
}

// ---------------------------------------------------------------------------
// A collection: a directory node of the gallery tree.  It exists iff it or a
// descendant holds at least one image; empty subtrees are pruned during the
// scan and never materialized.
// ---------------------------------------------------------------------------

#[derive(Debug)]
pub struct Collection {
    /// Source directory.
    pub path: RelPath,
    /// Child collections, in directory-enumeration order.
    pub collections: Vec<Collection>,
    /// Image items, in directory-enumeration order.
    pub items: Vec<Item>,
    /// Metadata resolved from the directory's description file.
    pub metadata: Metadata,
    /// The collection's representative thumbnail.
    pub thumbnail: RelPath,
}

/// The image files among `entries`, in order.
pub open spec fn image_files(entries: Seq<FsEntry>) -> Seq<FileNode>
    decreases entries,
{
    if entries.len() == 0 {
        Seq::empty()
    } else {
        let rest = image_files(entries.drop_first());
        match entries[0] {
            FsEntry::File(f) => if is_image_name(f.name@) {
                seq![f] + rest
            } else {
                rest
            },
            FsEntry::Dir(_) => rest,
        }
    }
}

/// How many of `entries` are directories with content.
pub open spec fn num_content_dirs(entries: Seq<FsEntry>) -> nat
    decreases entries,
{
    if entries.len() == 0 {
        0
    } else {
        (match entries[0] {
            FsEntry::Dir(d) => if has_content(d) {
                1nat
            } else {
                0nat
            },
            FsEntry::File(_) => 0nat,
        }) + num_content_dirs(entries.drop_first())
    }
}

/// What an item scanned from source file `f` in the directory at `dpath`
/// must hold.
pub open spec fn item_ok(item: Item, f: FileNode, dpath: Seq<Seq<char>>, cfg: Config) -> bool {
    let from = dpath.push(f.name@);
    let to = cfg.output@ + from.skip(cfg.input@.len() as int);
    &&& item.from@ == from
    &&& item.from_mtime == f.mtime
    &&& item.to@ == to
    &&& item.thumbnail@ == to.drop_last().push("thumbnails"@).push(f.name@)
}

/// The thumbnail-resolution policy, in strict priority order: the metadata
/// override where it names an existing file, else the first direct item's
/// source, else the first child collection's resolved thumbnail.
pub open spec fn thumb_ok(c: Collection) -> bool {
    if c.metadata.thumbnail is Some {
        c.thumbnail@ == c.metadata.thumbnail.unwrap()@
    } else if c.items@.len() > 0 {
        c.thumbnail@ == c.items@[0].from@
    } else if c.collections@.len() > 0 {
        c.thumbnail@ == c.collections@[0].thumbnail@
    } else {
        true
    }
}

/// What a collection built from the directory `dir` at `dpath` must hold.
pub open spec fn collection_ok(c: Collection, dir: DirNode, dpath: Seq<Seq<char>>, cfg: Config) -> bool
    decreases dir,
{
    &&& c.path@ == dpath
    &&& {
        let imgs = image_files(dir.entries@);
        c.items@.len() == imgs.len() && (forall|j: int|
            0 <= j < imgs.len() ==> #[trigger] item_ok(c.items@[j], imgs[j], dpath, cfg))
    }
    &&& children_ok_entries(c.collections@, dir.entries@, dpath, cfg)
    &&& metadata_ok(c.metadata, dir, dpath)
    &&& thumb_ok(c)
}

/// The child collections correspond, in order, to the content-bearing
/// directories among `entries`, each built from its directory.
pub open spec fn children_ok_entries(
    cs: Seq<Collection>,
    entries: Seq<FsEntry>,
    dpath: Seq<Seq<char>>,
    cfg: Config,
) -> bool
    decreases entries,
{
    if entries.len() == 0 {
        cs.len() == 0
    } else {
        match entries[0] {
            FsEntry::Dir(d) => if has_content(d) {
                cs.len() > 0 && collection_ok(cs[0], d, dpath.push(d.name@), cfg)
                    && children_ok_entries(cs.drop_first(), entries.drop_first(), dpath, cfg)
            } else {
                children_ok_entries(cs, entries.drop_first(), dpath, cfg)
            },
            FsEntry::File(_) => children_ok_entries(cs, entries.drop_first(), dpath, cfg),
        }
    }
}

proof fn lemma_image_files_push(s: Seq<FsEntry>, e: FsEntry)
    ensures
        image_files(s.push(e)) == (match e {
            FsEntry::File(f) => if is_image_name(f.name@) {
                image_files(s).push(f)
            } else {
                image_files(s)
            },
            FsEntry::Dir(_) => image_files(s),
        }),
    decreases s,
{
    if s.len() == 0 {
        assert(s.push(e).drop_first() =~= s);
        match e {
            FsEntry::File(f) => {
                if is_image_name(f.name@) {
                    assert(seq![f] + image_files(s) =~= image_files(s).push(f));
                }
            },
            FsEntry::Dir(_) => {},
        }
    } else {
        assert(s.push(e).drop_first() =~= s.drop_first().push(e));
        assert(s.push(e)[0] == s[0]);
        lemma_image_files_push(s.drop_first(), e);
        match s[0] {
            FsEntry::File(f0) => {
                if is_image_name(f0.name@) {
                    match e {
                        FsEntry::File(f) => {
                            if is_image_name(f.name@) {
                                assert(seq![f0] + image_files(s.drop_first()).push(f)
                                    =~= (seq![f0] + image_files(s.drop_first())).push(f));
                            }
                        },
                        FsEntry::Dir(_) => {},
                    }
                }
            },
            FsEntry::Dir(_) => {},
        }
    }
}

proof fn lemma_children_push_skip(
    cs: Seq<Collection>,
    s: Seq<FsEntry>,
    e: FsEntry,
    dpath: Seq<Seq<char>>,
    cfg: Config,
)
    requires
        children_ok_entries(cs, s, dpath, cfg),
        (e matches FsEntry::Dir(d) ==> !has_content(d)),
    ensures
        children_ok_entries(cs, s.push(e), dpath, cfg),
    decreases s,
{
    if s.len() == 0 {
        assert(s.push(e)[0] == e);
        assert(s.push(e).drop_first() =~= s);
    } else {
        assert(s.push(e)[0] == s[0]);
        assert(s.push(e).drop_first() =~= s.drop_first().push(e));
        match s[0] {
            FsEntry::Dir(d) => {
                if has_content(d) {
                    lemma_children_push_skip(cs.drop_first(), s.drop_first(), e, dpath, cfg);
                } else {
                    lemma_children_push_skip(cs, s.drop_first(), e, dpath, cfg);
                }
            },
            FsEntry::File(_) => {
                lemma_children_push_skip(cs, s.drop_first(), e, dpath, cfg);
            },
        }
    }
}

proof fn lemma_children_push_dir(
    cs: Seq<Collection>,
    s: Seq<FsEntry>,
    d: DirNode,
    c0: Collection,
    dpath: Seq<Seq<char>>,
    cfg: Config,
)
    requires
        children_ok_entries(cs, s, dpath, cfg),
        has_content(d),
        collection_ok(c0, d, dpath.push(d.name@), cfg),
    ensures
        children_ok_entries(cs.push(c0), s.push(FsEntry::Dir(d)), dpath, cfg),
    decreases s,
{
    let e = FsEntry::Dir(d);
    if s.len() == 0 {
        assert(cs.len() == 0);
        assert(s.push(e)[0] == e);
        assert(cs.push(c0)[0] == c0);
        assert(s.push(e).drop_first() =~= s);
        assert(cs.push(c0).drop_first() =~= cs);
    } else {
        assert(s.push(e)[0] == s[0]);
        assert(s.push(e).drop_first() =~= s.drop_first().push(e));
        match s[0] {
            FsEntry::Dir(d0) => {
                if has_content(d0) {
                    assert(cs.len() > 0);
                    assert(cs.push(c0)[0] == cs[0]);
                    assert(cs.push(c0).drop_first() =~= cs.drop_first().push(c0));
                    lemma_children_push_dir(cs.drop_first(), s.drop_first(), d, c0, dpath, cfg);
                } else {
                    lemma_children_push_dir(cs, s.drop_first(), d, c0, dpath, cfg);
                }
            },
            FsEntry::File(_) => {
                lemma_children_push_dir(cs, s.drop_first(), d, c0, dpath, cfg);
            },
        }
    }
}

pub(crate) proof fn lemma_children_len(cs: Seq<Collection>, s: Seq<FsEntry>, dpath: Seq<Seq<char>>, cfg: Config)
    requires
        children_ok_entries(cs, s, dpath, cfg),
    ensures
        cs.len() == num_content_dirs(s),
    decreases s,
{
    if s.len() > 0 {
        match s[0] {
            FsEntry::Dir(d) => {
                if has_content(d) {
                    lemma_children_len(cs.drop_first(), s.drop_first(), dpath, cfg);
                } else {
                    lemma_children_len(cs, s.drop_first(), dpath, cfg);
                }
            },
            FsEntry::File(_) => {
                lemma_children_len(cs, s.drop_first(), dpath, cfg);
            },
        }
    }
}

pub(crate) proof fn lemma_content_iff(s: Seq<FsEntry>)
    ensures
        entries_have_content(s) <==> (image_files(s).len() > 0 || num_content_dirs(s) > 0),
    decreases s,
{
    if s.len() > 0 {
        lemma_content_iff(s.drop_first());
        assert(entries_have_content(s) == (crate::fsmodel::entry_has_content(s[0])
            || entries_have_content(s.drop_first())));
        match s[0] {
            FsEntry::File(f) => {
                assert(crate::fsmodel::entry_has_content(s[0]) == is_image_name(f.name@));
                assert(num_content_dirs(s) == num_content_dirs(s.drop_first()));
                if is_image_name(f.name@) {
                    assert(image_files(s) == seq![f] + image_files(s.drop_first()));
                    assert(image_files(s).len() > 0);
                } else {
                    assert(image_files(s) == image_files(s.drop_first()));
                }
            },
            FsEntry::Dir(d) => {
                assert(crate::fsmodel::entry_has_content(s[0]) == has_content(d));
                assert(image_files(s) == image_files(s.drop_first()));
                if has_content(d) {
                    assert(num_content_dirs(s) == 1 + num_content_dirs(s.drop_first()));
                    assert(num_content_dirs(s) > 0);
                } else {
                    assert(num_content_dirs(s) == num_content_dirs(s.drop_first()));
                }
            },
        }
    }
}

proof fn lemma_items_view_push(s: Seq<Item>, x: Item)
    ensures
        items_view(s.push(x)) == items_view(s).push(x@),
{
    assert(items_view(s.push(x)) =~= items_view(s).push(x@));
}

/// Resolve a collection's representative thumbnail, in strict priority
/// order: the metadata override (already vetted for existence), the first
/// direct item's source, the first child collection's thumbnail.  The error
/// defends against a broken invariant: a pruned tree never reaches it.
pub fn resolve_thumbnail(
    metadata: &Metadata,
    items: &Vec<Item>,
    collections: &Vec<Collection>,
) -> (r: Result<RelPath, Error>)
    ensures
        r is Ok <==> (metadata.thumbnail is Some || items@.len() > 0 || collections@.len() > 0),
        r matches Ok(t) ==> (if metadata.thumbnail is Some {
            t@ == metadata.thumbnail.unwrap()@
        } else if items@.len() > 0 {
            t@ == items@[0].from@
        } else {
            t@ == collections@[0].thumbnail@
        }),
        r matches Err(e) ==> e == Error::NoThumbnail,
{
    match &metadata.thumbnail {
        Some(t) => Ok(t.clone()),
        None => {
            if items.len() > 0 {
                Ok(items[0].from.clone())
            } else if collections.len() > 0 {
                Ok(collections[0].thumbnail.clone())
            } else {
                Err(Error::NoThumbnail)
            }
        },
    }
}

impl Collection {
    /// Scan the directory `dir`, whose path from the process root is
    /// `dir_path`, into a collection tree.  Subdirectories recurse; files
    /// with an image extension become items; a subtree without any image is
    /// pruned (`None`).  The scan preserves directory-enumeration order and
    /// resolves each node's metadata and thumbnail.
    pub fn new(dir: &DirNode, dir_path: &RelPath, config: &Config) -> (r: Result<
        Option<Collection>,
        Error,
    >)
        requires
            config.input@.is_prefix_of(dir_path@),
        ensures
            r is Ok,
            r matches Ok(opt) ==> (opt is Some <==> has_content(*dir)),
            r matches Ok(opt) ==> (opt matches Some(c) ==> collection_ok(
                c,
                *dir,
                dir_path@,
                *config,
            )),
        decreases *dir,
    {
        let mut collections: Vec<Collection> = Vec::new();
        let mut items: Vec<Item> = Vec::new();
        let mut i: usize = 0;
        proof {
            assert(dir.entries@.take(0) =~= Seq::<FsEntry>::empty());
        }
        while i < dir.entries.len()
            invariant
                i <= dir.entries@.len(),
                config.input@.is_prefix_of(dir_path@),
                items@.len() == image_files(dir.entries@.take(i as int)).len(),
                forall|j: int|
                    0 <= j < items@.len() ==> #[trigger] item_ok(
                        items@[j],
                        image_files(dir.entries@.take(i as int))[j],
                        dir_path@,
                        *config,
                    ),
                children_ok_entries(collections@, dir.entries@.take(i as int), dir_path@, *config),
            decreases dir.entries@.len() - i,
        {
            let ghost pre = dir.entries@.take(i as int);
            let ghost imgs = image_files(pre);
            proof {
                assert(dir.entries@.take(i as int + 1) =~= pre.push(dir.entries@[i as int]));
                lemma_image_files_push(pre, dir.entries@[i as int]);
            }
            match &dir.entries[i] {
                FsEntry::Dir(d) => {
                    let child_path = dir_path.join(d.name.as_str());
                    proof {
                        assert(config.input@.is_prefix_of(child_path@)) by {
                            assert(child_path@.subrange(0, config.input@.len() as int)
                                =~= dir_path@.subrange(0, config.input@.len() as int));
                        }
                    }
                    let sub = match Collection::new(d, &child_path, config) {
                        Ok(sub) => sub,
                        Err(e) => {
                            return Err(e);
                        },
                    };
                    match sub {
                        Some(c) => {
                            let ghost cs = collections@;
                            proof {
                                lemma_children_push_dir(cs, pre, *d, c, dir_path@, *config);
                            }
                            collections.push(c);
                        },
                        None => {
                            proof {
                                lemma_children_push_skip(
                                    collections@,
                                    pre,
                                    dir.entries@[i as int],
                                    dir_path@,
                                    *config,
                                );
                            }
                        },
                    }
                },
                FsEntry::File(f) => {
                    proof {
                        lemma_children_push_skip(
                            collections@,
                            pre,
                            dir.entries@[i as int],
                            dir_path@,
                            *config,
                        );
                    }
                    if crate::fsmodel::is_image_file(f.name.as_str()) {
                        let path = dir_path.join(f.name.as_str());
                        proof {
                            assert(config.input@.is_prefix_of(path@)) by {
                                assert(path@.subrange(0, config.input@.len() as int)
                                    =~= dir_path@.subrange(0, config.input@.len() as int));
                            }
                        }
                        match Item::new(path, f.mtime, config) {
                            Ok(it) => {
                                proof {
                                    assert(imgs.push(*f)[imgs.len() as int] == *f);
                                    assert(forall|j: int|
                                        0 <= j < imgs.len() ==> imgs.push(*f)[j] == imgs[j]);
                                }
                                items.push(it);
                            },
                            Err(e) => {
                                proof {
                                    assert(false);
                                }
                                return Err(e);
                            },
                        }
                    }
                },
            }
            i = i + 1;
        }
        proof {
            assert(dir.entries@.take(dir.entries@.len() as int) =~= dir.entries@);
        }
        if items.len() == 0 && collections.len() == 0 {
            proof {
                lemma_children_len(collections@, dir.entries@, dir_path@, *config);
                lemma_content_iff(dir.entries@);
            }
            return Ok(None);
        }
        let metadata = Metadata::from_path(dir, dir_path);
        let thumbnail = match resolve_thumbnail(&metadata, &items, &collections) {
            Ok(t) => t,
            Err(e) => {
                proof {
                    assert(false);
                }
                return Err(e);
            },
        };
        let c = Collection { path: dir_path.clone(), collections, items, metadata, thumbnail };
        proof {
            lemma_children_len(c.collections@, dir.entries@, dir_path@, *config);
            lemma_content_iff(dir.entries@);
            assert(collection_ok(c, *dir, dir_path@, *config));
        }
        Ok(Some(c))
    }
}

/// The root of a build: scan the input tree, and fail with the fatal
/// `NoImages` error when it holds no image at all.
pub fn root_collection(dir: &DirNode, config: &Config) -> (r: Result<Collection, Error>)
    ensures
        r is Ok <==> has_content(*dir),
        r matches Ok(c) ==> collection_ok(c, *dir, config.input@, *config),
        r matches Err(e) ==> e == Error::NoImages,
{
    proof {
        assert(config.input@.is_prefix_of(config.input@)) by {
            assert(config.input@.subrange(0, config.input@.len() as int) =~= config.input@);
        }
    }
    let input = config.input.clone();
    match Collection::new(dir, &input, config) {
        Ok(Some(c)) => Ok(c),
        Ok(None) => Err(Error::NoImages),
        Err(e) => {
            proof {
                assert(false);
            }
            Err(Error::NoImages)
        },
    }
}

// ---------------------------------------------------------------------------
// The flattened item list: every item of a subtree, this collection's own
// items first, then each child's in depth-first order.  It is the pipeline's
// work list.
// ---------------------------------------------------------------------------

pub open spec fn items_view(items: Seq<Item>) -> Seq<ItemV> {
    Seq::new(items.len(), |i: int| items[i]@)
}

pub open spec fn flat_items(c: Collection) -> Seq<ItemV>
    decreases c,
{
    items_view(c.items@) + flat_children(c.collections@)
}

pub open spec fn flat_children(cs: Seq<Collection>) -> Seq<ItemV>
    decreases cs,
{
    if cs.len() == 0 {
        Seq::empty()
    } else {
        flat_items(cs[0]) + flat_children(cs.drop_first())
    }
}

proof fn lemma_flat_children_take(cs: Seq<Collection>, i: int)
    requires
        0 <= i < cs.len(),
    ensures
        flat_children(cs.take(i + 1)) == flat_children(cs.take(i)) + flat_items(cs[i]),
    decreases i,
{
    if i == 0 {
        let s1 = cs.take(1);
        assert(s1.len() == 1);
        assert(s1[0] == cs[0]);
        assert(s1.drop_first() =~= cs.take(0));
        assert(cs.take(0).len() == 0);
        assert(flat_children(cs.take(0)) == Seq::<ItemV>::empty());
        assert(flat_children(s1) == flat_items(s1[0]) + flat_children(s1.drop_first()));
        assert(flat_items(cs[0]) + Seq::<ItemV>::empty() =~= flat_items(cs[0]));
        assert(Seq::<ItemV>::empty() + flat_items(cs[0]) =~= flat_items(cs[0]));
    } else {
        lemma_flat_children_take(cs.drop_first(), i - 1);
        assert(cs.take(i + 1)[0] == cs[0]);
        assert(cs.take(i)[0] == cs[0]);
        assert(cs.take(i + 1).drop_first() =~= cs.drop_first().take(i));
        assert(cs.take(i).drop_first() =~= cs.drop_first().take(i - 1));
        assert(cs.drop_first()[i - 1] == cs[i as int]);
        assert(flat_items(cs[0]) + (flat_children(cs.drop_first().take(i - 1)) + flat_items(
            cs[i as int],
        )) =~= (flat_items(cs[0]) + flat_children(cs.drop_first().take(i - 1))) + flat_items(
            cs[i as int],
        ));
    }
}

impl Collection {
    /// Every item of this subtree, own items first, then each child's,
    /// depth-first.  A pure traversal, safe to call repeatedly.
    pub fn items(&self) -> (r: Vec<Item>)
        ensures
            items_view(r@) == flat_items(*self),
        decreases *self,
    {
        let mut r: Vec<Item> = Vec::new();
        let mut i: usize = 0;
        proof {
            assert(items_view(r@) =~= items_view(self.items@.take(0)));
        }
        while i < self.items.len()
            invariant
                i <= self.items@.len(),
                items_view(r@) == items_view(self.items@.take(i as int)),
            decreases self.items@.len() - i,
        {
            let ghost r0 = r@;
            let it = self.items[i].clone();
            let ghost itg = it;
            r.push(it);
            proof {
                lemma_items_view_push(r0, itg);
                assert(self.items@.take(i as int + 1) =~= self.items@.take(i as int).push(
                    self.items@[i as int],
                ));
                lemma_items_view_push(self.items@.take(i as int), self.items@[i as int]);
                assert(items_view(r@) == items_view(self.items@.take(i as int + 1)));
            }
            i = i + 1;
        }
        proof {
            assert(self.items@.take(self.items@.len() as int) =~= self.items@);
            assert(items_view(r@) =~= items_view(self.items@) + flat_children(
                self.collections@.take(0),
            ));
        }
        let mut k: usize = 0;
        while k < self.collections.len()
            invariant
                k <= self.collections@.len(),
                items_view(r@) == items_view(self.items@) + flat_children(
                    self.collections@.take(k as int),
                ),
            decreases self.collections@.len() - k,
        {
            let sub = self.collections[k].items();
            let ghost base = items_view(r@);
            let mut t: usize = 0;
            proof {
                assert(items_view(sub@.take(0)) =~= Seq::<ItemV>::empty());
                assert(base + items_view(sub@.take(0)) =~= base);
            }
            while t < sub.len()
                invariant
                    t <= sub@.len(),
                    items_view(r@) == base + items_view(sub@.take(t as int)),
                decreases sub@.len() - t,
            {
                let ghost r0 = r@;
                let it = sub[t].clone();
                let ghost itg = it;
                r.push(it);
                proof {
                    lemma_items_view_push(r0, itg);
                    assert(sub@.take(t as int + 1) =~= sub@.take(t as int).push(sub@[t as int]));
                    lemma_items_view_push(sub@.take(t as int), sub@[t as int]);
                    assert(base + items_view(sub@.take(t as int)).push(itg@) =~= (base + items_view(
                        sub@.take(t as int),
                    )).push(itg@));
                    assert(items_view(r@) == base + items_view(sub@.take(t as int + 1)));
                }
                t = t + 1;
            }
            proof {
                assert(sub@.take(sub@.len() as int) =~= sub@);
                lemma_flat_children_take(self.collections@, k as int);
                assert(items_view(r@) =~= items_view(self.items@) + flat_children(
                    self.collections@.take(k as int + 1),
                ));
            }
            k = k + 1;
        }
        proof {
            assert(self.collections@.take(self.collections@.len() as int) =~= self.collections@);
        }
        r
    }
}


} // verus!
