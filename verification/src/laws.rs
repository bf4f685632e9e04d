use vstd::prelude::*;
use crate::collection::{collection_ok, children_ok_entries, image_files, item_ok, Collection};
use crate::config::Config;
use crate::context::{child_shape_ok, item_shape_ok, wf_children, wf_collection};
use crate::fsmodel::{index_content, seg_exists, DirNode, FsEntry};
use crate::metadata::{header_len, last_value, spec_lines, split_slash};

verus! {

// ---------------------------------------------------------------------------
// Laws of the gallery tree.  Each proof function states one promise of the
// build as a whole, over the same predicates the functions' own contracts
// use.
// ---------------------------------------------------------------------------

/// A collection built from a directory with exactly one image and no
/// description file holds exactly that item, and its thumbnail is that
/// image's source path.
pub proof fn lemma_single_image_thumbnail(
    c: Collection,
    dir: DirNode,
    dpath: Seq<Seq<char>>,
    cfg: Config,
)
    requires
        collection_ok(c, dir, dpath, cfg),
        image_files(dir.entries@).len() == 1,
        index_content(dir.entries@) is None,
    ensures
        c.items@.len() == 1,
        c.thumbnail@ == dpath.push(image_files(dir.entries@)[0].name@),
{
    assert(item_ok(c.items@[0], image_files(dir.entries@)[0], dpath, cfg));
    assert(c.metadata.thumbnail is None);
}

/// A `Thumbnail` header that names an existing file wins over every other
/// thumbnail candidate: the collection's thumbnail is exactly the named
/// path, resolved relative to the collection's directory.
pub proof fn lemma_override_thumbnail(
    c: Collection,
    dir: DirNode,
    dpath: Seq<Seq<char>>,
    cfg: Config,
    content: Seq<char>,
    v: Seq<char>,
)
    requires
        collection_ok(c, dir, dpath, cfg),
        index_content(dir.entries@) == Some(content),
        last_value(spec_lines(content), header_len(spec_lines(content)), "Thumbnail"@) == Some(v),
        seg_exists(dir.entries@, split_slash(v)),
    ensures
        c.thumbnail@ == dpath + split_slash(v),
{
    assert(c.metadata.thumbnail matches Some(t) && t@ == dpath + split_slash(v));
}

/// A `Thumbnail` header that names a file the directory tree does not hold
/// is discarded: resolution falls back to the first item's source path.
pub proof fn lemma_override_missing_falls_back(
    c: Collection,
    dir: DirNode,
    dpath: Seq<Seq<char>>,
    cfg: Config,
    content: Seq<char>,
    v: Seq<char>,
)
    requires
        collection_ok(c, dir, dpath, cfg),
        index_content(dir.entries@) == Some(content),
        last_value(spec_lines(content), header_len(spec_lines(content)), "Thumbnail"@) == Some(v),
        !seg_exists(dir.entries@, split_slash(v)),
        c.items@.len() > 0,
    ensures
        c.thumbnail@ == c.items@[0].from@,
{
    assert(c.metadata.thumbnail is None);
}

/// A collection with no direct items and no thumbnail override inherits its
/// first child's resolved thumbnail exactly.
pub proof fn lemma_child_thumbnail(c: Collection)
    requires
        crate::collection::thumb_ok(c),
        c.metadata.thumbnail is None,
        c.items@.len() == 0,
        c.collections@.len() > 0,
    ensures
        c.thumbnail@ == c.collections@[0].thumbnail@,
{
}

// ---------------------------------------------------------------------------
// The scan's output always renders: a tree that satisfies `collection_ok`
// is well-formed in the sense the render walk checks, so `write_tree`
// succeeds on it and a page is emitted for every collection — also when
// some item's pipeline work failed and its dimensions are missing.
// ---------------------------------------------------------------------------

pub proof fn lemma_ok_implies_wf(c: Collection, dir: DirNode, dpath: Seq<Seq<char>>, cfg: Config)
    requires
        collection_ok(c, dir, dpath, cfg),
        crate::fsmodel::has_content(dir),
        cfg.input@.is_prefix_of(dpath),
    ensures
        wf_collection(c),
        dpath.is_prefix_of(c.thumbnail@),
    decreases dir, 1int,
{
    let imgs = image_files(dir.entries@);
    assert forall|i: int| 0 <= i < c.items@.len() implies item_shape_ok(#[trigger] c.items@[i]) by {
        assert(item_ok(c.items@[i], imgs[i], dpath, cfg));
        let from = dpath.push(imgs[i].name@);
        assert(from.skip(cfg.input@.len() as int).len() >= 1);
    }
    lemma_children_entries_wf(c.collections@, dir.entries@, dpath, cfg);
    // The resolved thumbnail lies below the collection's own directory.
    if c.metadata.thumbnail is Some {
        let t = c.metadata.thumbnail.unwrap();
        match index_content(dir.entries@) {
            Some(content) => {
                let lines = spec_lines(content);
                let hl = header_len(lines);
                match last_value(lines, hl, "Thumbnail"@) {
                    Some(v) => {
                        let segs = split_slash(v);
                        assert(t@ == dpath + segs);
                        assert((dpath + segs).subrange(0, dpath.len() as int) =~= dpath);
                    },
                    None => {
                        assert(false);
                    },
                }
            },
            None => {
                assert(false);
            },
        }
    } else if c.items@.len() > 0 {
        assert(item_ok(c.items@[0], imgs[0], dpath, cfg));
        assert(dpath.push(imgs[0].name@).subrange(0, dpath.len() as int) =~= dpath);
    } else {
        assert(c.collections@.len() > 0) by {
            crate::collection::lemma_content_iff(dir.entries@);
            crate::collection::lemma_children_len(c.collections@, dir.entries@, dpath, cfg);
        }
        // the first child's thumbnail starts with the child's path, which
        // starts with this collection's path
        assert(dpath.is_prefix_of(c.thumbnail@));
    }
}

proof fn lemma_children_entries_wf(
    cs: Seq<Collection>,
    entries: Seq<FsEntry>,
    dpath: Seq<Seq<char>>,
    cfg: Config,
)
    requires
        children_ok_entries(cs, entries, dpath, cfg),
        cfg.input@.is_prefix_of(dpath),
    ensures
        wf_children(cs),
        cs.len() > 0 ==> dpath.is_prefix_of(cs[0].thumbnail@) && cs[0].thumbnail@.len()
            > dpath.len(),
    decreases entries, 0int,
{
    if entries.len() > 0 {
        match entries[0] {
            FsEntry::Dir(d) => {
                if crate::fsmodel::has_content(d) {
                    let dpath1 = dpath.push(d.name@);
                    assert(collection_ok(cs[0], d, dpath1, cfg));
                    assert(cfg.input@.is_prefix_of(dpath1)) by {
                        assert(dpath1.subrange(0, cfg.input@.len() as int) =~= dpath.subrange(
                            0,
                            cfg.input@.len() as int,
                        ));
                    }
                    lemma_ok_implies_wf(cs[0], d, dpath1, cfg);
                    assert(cs[0].path@ == dpath1);
                    assert(cs[0].path@.drop_last() =~= dpath);
                    assert(dpath1.is_prefix_of(cs[0].thumbnail@));
                    assert(dpath.is_prefix_of(cs[0].thumbnail@)) by {
                        assert(cs[0].thumbnail@.subrange(0, dpath.len() as int) =~= dpath1.subrange(
                            0,
                            dpath.len() as int,
                        ));
                        assert(dpath1.subrange(0, dpath.len() as int) =~= dpath);
                    }
                    assert(cs[0].thumbnail@.len() >= dpath1.len());
                    assert(child_shape_ok(cs[0]));
                    lemma_children_entries_wf(cs.drop_first(), entries.drop_first(), dpath, cfg);
                    assert(wf_children(cs));
                } else {
                    lemma_children_entries_wf(cs, entries.drop_first(), dpath, cfg);
                }
            },
            FsEntry::File(_) => {
                lemma_children_entries_wf(cs, entries.drop_first(), dpath, cfg);
            },
        }
    }
}

/// What the scan returns always renders: a root collection built from a
/// tree with content is well-formed, so the render walk succeeds on it and
/// emits one page per collection.
pub proof fn lemma_scan_renders(c: Collection, dir: DirNode, cfg: Config)
    requires
        collection_ok(c, dir, cfg.input@, cfg),
        crate::fsmodel::has_content(dir),
    ensures
        wf_collection(c),
{
    assert(cfg.input@.is_prefix_of(cfg.input@)) by {
        assert(cfg.input@.subrange(0, cfg.input@.len() as int) =~= cfg.input@);
    }
    lemma_ok_implies_wf(c, dir, cfg.input@, cfg);
}

} // verus!
