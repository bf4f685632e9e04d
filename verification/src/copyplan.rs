use vstd::prelude::*;
use crate::errors::Error;
use crate::fsmodel::{DirNode, FsEntry, Snapshot};
use crate::paths::RelPath;

verus! {

// ---------------------------------------------------------------------------
// The static-asset copy: mirror a directory tree under the output root,
// copying only files that are missing there or older than their source.
// The library computes the exact list of steps; the shell performs them.
// ---------------------------------------------------------------------------

/// One step of the copy: create a directory, or copy one file.
#[derive(Debug)]
pub enum CopyAction {
    CreateDir(RelPath),
    CopyFile { from: RelPath, to: RelPath },
}

/// The mathematical value of a [`CopyAction`].
#[verifier::ext_equal]
pub ghost enum CopyActionV {
    CreateDir(Seq<Seq<char>>),
    CopyFile(Seq<Seq<char>>, Seq<Seq<char>>),
}

impl View for CopyAction {
    type V = CopyActionV;

    open spec fn view(&self) -> CopyActionV {
        match self {
            CopyAction::CreateDir(p) => CopyActionV::CreateDir(p@),
            CopyAction::CopyFile { from, to } => CopyActionV::CopyFile(from@, to@),
        }
    }
}

pub open spec fn actions_view(s: Seq<CopyAction>) -> Seq<CopyActionV> {
    Seq::new(s.len(), |i: int| s[i]@)
}

/// The steps one entry of the tree contributes: a directory is created and
/// recursed into; a file is copied when its destination is missing or older.
pub open spec fn entry_actions(
    e: FsEntry,
    dpath: Seq<Seq<char>>,
    prefix_len: int,
    out: Seq<Seq<char>>,
    snap: Snapshot,
) -> Seq<CopyActionV>
    decreases e,
{
    match e {
        FsEntry::Dir(d) => {
            let sub = dpath.push(d.name@);
            let dest = out + sub.skip(prefix_len);
            seq![CopyActionV::CreateDir(dest)] + copy_plan(d.entries@, sub, prefix_len, out, snap)
        },
        FsEntry::File(f) => {
            let src = dpath.push(f.name@);
            let dest = out + src.skip(prefix_len);
            if snap.spec_mtime(dest) is None || snap.spec_mtime(dest).unwrap() < f.mtime {
                seq![CopyActionV::CopyFile(src, dest)]
            } else {
                Seq::empty()
            }
        },
    }
}

/// The steps the whole listing contributes, in order.
pub open spec fn copy_plan(
    entries: Seq<FsEntry>,
    dpath: Seq<Seq<char>>,
    prefix_len: int,
    out: Seq<Seq<char>>,
    snap: Snapshot,
) -> Seq<CopyActionV>
    decreases entries,
{
    if entries.len() == 0 {
        Seq::empty()
    } else {
        entry_actions(entries[0], dpath, prefix_len, out, snap) + copy_plan(
            entries.drop_first(),
            dpath,
            prefix_len,
            out,
            snap,
        )
    }
}

proof fn lemma_copy_plan_push(
    entries: Seq<FsEntry>,
    e: FsEntry,
    dpath: Seq<Seq<char>>,
    prefix_len: int,
    out: Seq<Seq<char>>,
    snap: Snapshot,
)
    ensures
        copy_plan(entries.push(e), dpath, prefix_len, out, snap) == copy_plan(
            entries,
            dpath,
            prefix_len,
            out,
            snap,
        ) + entry_actions(e, dpath, prefix_len, out, snap),
    decreases entries,
{
    if entries.len() == 0 {
        assert(entries.push(e)[0] == e);
        assert(entries.push(e).drop_first() =~= entries);
        assert(entry_actions(e, dpath, prefix_len, out, snap) + Seq::<CopyActionV>::empty()
            =~= entry_actions(e, dpath, prefix_len, out, snap));
        assert(Seq::<CopyActionV>::empty() + entry_actions(e, dpath, prefix_len, out, snap)
            =~= entry_actions(e, dpath, prefix_len, out, snap));
    } else {
        assert(entries.push(e)[0] == entries[0]);
        assert(entries.push(e).drop_first() =~= entries.drop_first().push(e));
        lemma_copy_plan_push(entries.drop_first(), e, dpath, prefix_len, out, snap);
        assert(entry_actions(entries[0], dpath, prefix_len, out, snap) + (copy_plan(
            entries.drop_first(),
            dpath,
            prefix_len,
            out,
            snap,
        ) + entry_actions(e, dpath, prefix_len, out, snap)) =~= (entry_actions(
            entries[0],
            dpath,
            prefix_len,
            out,
            snap,
        ) + copy_plan(entries.drop_first(), dpath, prefix_len, out, snap)) + entry_actions(
            e,
            dpath,
            prefix_len,
            out,
            snap,
        ));
    }
}

/// The copy steps for the tree below `dir` (which sits at `dir_path`):
/// destinations re-root each path from `prefix` to `output`.
pub fn do_copy(
    dir: &DirNode,
    dir_path: &RelPath,
    prefix: &RelPath,
    output: &RelPath,
    snapshot: &Snapshot,
) -> (r: Vec<CopyAction>)
    requires
        prefix@.is_prefix_of(dir_path@),
    ensures
        actions_view(r@) == copy_plan(
            dir.entries@,
            dir_path@,
            prefix@.len() as int,
            output@,
            *snapshot,
        ),
    decreases *dir,
{
    let mut r: Vec<CopyAction> = Vec::new();
    let mut i: usize = 0;
    proof {
        assert(dir.entries@.take(0) =~= Seq::<FsEntry>::empty());
        assert(actions_view(r@) =~= copy_plan(
            dir.entries@.take(0),
            dir_path@,
            prefix@.len() as int,
            output@,
            *snapshot,
        ));
    }
    while i < dir.entries.len()
        invariant
            i <= dir.entries@.len(),
            prefix@.is_prefix_of(dir_path@),
            actions_view(r@) == copy_plan(
                dir.entries@.take(i as int),
                dir_path@,
                prefix@.len() as int,
                output@,
                *snapshot,
            ),
        decreases dir.entries@.len() - i,
    {
        let ghost pre = dir.entries@.take(i as int);
        let ghost base = actions_view(r@);
        proof {
            assert(dir.entries@.take(i as int + 1) =~= pre.push(dir.entries@[i as int]));
            lemma_copy_plan_push(
                pre,
                dir.entries@[i as int],
                dir_path@,
                prefix@.len() as int,
                output@,
                *snapshot,
            );
        }
        match &dir.entries[i] {
            FsEntry::Dir(d) => {
                let sub_path = dir_path.join(d.name.as_str());
                proof {
                    assert(prefix@.is_prefix_of(sub_path@)) by {
                        assert(sub_path@.subrange(0, prefix@.len() as int) =~= dir_path@.subrange(
                            0,
                            prefix@.len() as int,
                        ));
                    }
                }
                let rel = match sub_path.strip_prefix(prefix) {
                    Ok(rel) => rel,
                    Err(e) => {
                        proof {
                            assert(false);
                        }
                        return r;
                    },
                };
                let dest = output.concat(&rel);
                r.push(CopyAction::CreateDir(dest));
                let sub = do_copy(d, &sub_path, prefix, output, snapshot);
                let ghost ghost_sub = sub@;
                let ghost mid = actions_view(r@);
                proof {
                    assert(mid =~= base.push(CopyActionV::CreateDir(
                        output@ + sub_path@.skip(prefix@.len() as int),
                    )));
                }
                let mut t: usize = 0;
                proof {
                    assert(actions_view(ghost_sub.take(0)) =~= Seq::<CopyActionV>::empty());
                    assert(mid + actions_view(ghost_sub.take(0)) =~= mid);
                }
                while t < sub.len()
                    invariant
                        t <= sub@.len(),
                        sub@ == ghost_sub,
                        actions_view(r@) == mid + actions_view(ghost_sub.take(t as int)),
                    decreases sub@.len() - t,
                {
                    let ghost r0 = actions_view(r@);
                    let a = clone_action(&sub[t]);
                    let ghost ag = a;
                    r.push(a);
                    proof {
                        assert(ghost_sub.take(t as int + 1) =~= ghost_sub.take(t as int).push(
                            ghost_sub[t as int],
                        ));
                        assert(actions_view(ghost_sub.take(t as int + 1)) =~= actions_view(
                            ghost_sub.take(t as int),
                        ).push(ghost_sub[t as int]@));
                        assert(actions_view(r@) =~= r0.push(ag@));
                        assert(mid + actions_view(ghost_sub.take(t as int)).push(ghost_sub[t
                            as int]@) =~= (mid + actions_view(ghost_sub.take(t as int))).push(
                            ghost_sub[t as int]@,
                        ));
                    }
                    t = t + 1;
                }
                proof {
                    assert(ghost_sub.take(ghost_sub.len() as int) =~= ghost_sub);
                    assert(actions_view(r@) =~= base + entry_actions(
                        dir.entries@[i as int],
                        dir_path@,
                        prefix@.len() as int,
                        output@,
                        *snapshot,
                    ));
                }
            },
            FsEntry::File(f) => {
                let src = dir_path.join(f.name.as_str());
                proof {
                    assert(prefix@.is_prefix_of(src@)) by {
                        assert(src@.subrange(0, prefix@.len() as int) =~= dir_path@.subrange(
                            0,
                            prefix@.len() as int,
                        ));
                    }
                }
                let rel = match src.strip_prefix(prefix) {
                    Ok(rel) => rel,
                    Err(e) => {
                        proof {
                            assert(false);
                        }
                        return r;
                    },
                };
                let dest = output.concat(&rel);
                let wanted: bool = match snapshot.mtime_of(&dest) {
                    None => true,
                    Some(m) => m < f.mtime,
                };
                if wanted {
                    let ghost r0 = actions_view(r@);
                    r.push(CopyAction::CopyFile { from: src, to: dest });
                    proof {
                        assert(actions_view(r@) =~= r0.push(CopyActionV::CopyFile(
                            dir_path@.push(f.name@),
                            output@ + dir_path@.push(f.name@).skip(prefix@.len() as int),
                        )));
                    }
                }
                proof {
                    assert(actions_view(r@) =~= base + entry_actions(
                        dir.entries@[i as int],
                        dir_path@,
                        prefix@.len() as int,
                        output@,
                        *snapshot,
                    ));
                }
            },
        }
        i = i + 1;
    }
    proof {
        assert(dir.entries@.take(dir.entries@.len() as int) =~= dir.entries@);
    }
    r
}

fn clone_action(a: &CopyAction) -> (r: CopyAction)
    ensures
        r@ == a@,
{
    match a {
        CopyAction::CreateDir(p) => CopyAction::CreateDir(p.clone()),
        CopyAction::CopyFile { from, to } => CopyAction::CopyFile {
            from: from.clone(),
            to: to.clone(),
        },
    }
}

/// The copy steps that mirror the tree below `dir` under `output`: each path
/// loses the leading path of `dir`'s parent and gains the output root.  The
/// empty path has no parent and is refused.
pub fn copy_recursively(
    dir: &DirNode,
    dir_path: &RelPath,
    output: &RelPath,
    snapshot: &Snapshot,
) -> (r: Result<Vec<CopyAction>, Error>)
    ensures
        r is Ok <==> dir_path@.len() > 0,
        r matches Ok(acts) ==> actions_view(acts@) == copy_plan(
            dir.entries@,
            dir_path@,
            dir_path@.len() - 1,
            output@,
            *snapshot,
        ),
        r matches Err(e) ==> e == Error::InvalidPath,
{
    let prefix = match dir_path.parent() {
        Some(p) => p,
        None => {
            return Err(Error::InvalidPath);
        },
    };
    proof {
        assert(prefix@.is_prefix_of(dir_path@)) by {
            assert(prefix@ =~= dir_path@.subrange(0, dir_path@.len() - 1));
        }
    }
    Ok(do_copy(dir, dir_path, &prefix, output, snapshot))
}

} // verus!
