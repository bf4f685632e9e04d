use vstd::prelude::*;
use vstd::string::*;
use crate::errors::Error;
use crate::paths::RelPath;

verus! {

// ---------------------------------------------------------------------------
// The directory tree handed to discovery.
//
// Discovery never touches the disk itself: the shell around the library reads
// the input root once and hands it over as this tree, entries in directory-
// enumeration order.  `content` carries the text of description files; for
// other files the shell leaves it empty, and nothing in the library reads it.
// Modification times are plain integers (any monotone encoding of the real
// clock does), compared only among themselves.
// ---------------------------------------------------------------------------

#[derive(Debug)]
pub struct FileNode {
    pub name: String,
    pub mtime: u64,
    pub content: String,
}

#[derive(Debug)]
pub struct DirNode {
    pub name: String,
    pub entries: Vec<FsEntry>,
}

#[derive(Debug)]
pub enum FsEntry {
    File(FileNode),
    Dir(DirNode),
}

pub open spec fn entry_name(e: FsEntry) -> Seq<char> {
    match e {
        FsEntry::File(f) => f.name@,
        FsEntry::Dir(d) => d.name@,
    }
}

/// Whether a relative path (a chain of segment names) leads to an entry of
/// the tree, descending from `entries` and at each step taking the first
/// entry that bears the wanted name, as a directory listing holds each name
/// once.
pub open spec fn seg_exists(entries: Seq<FsEntry>, segs: Seq<Seq<char>>) -> bool
    decreases entries, segs.len(),
{
    if segs.len() == 0 {
        true
    } else if entries.len() == 0 {
        false
    } else if entry_name(entries[0]) == segs[0] {
        if segs.len() == 1 {
            true
        } else {
            match entries[0] {
                FsEntry::Dir(d) => seg_exists(d.entries@, segs.drop_first()),
                FsEntry::File(_) => false,
            }
        }
    } else {
        seg_exists(entries.drop_first(), segs)
    }
}

/// The text of the directory's description file: the content of the first
/// entry named `index.md`, provided that entry is a file.
pub open spec fn index_content(entries: Seq<FsEntry>) -> Option<Seq<char>>
    decreases entries,
{
    if entries.len() == 0 {
        None
    } else if entry_name(entries[0]) == "index.md"@ {
        match entries[0] {
            FsEntry::File(f) => Some(f.content@),
            FsEntry::Dir(_) => None,
        }
    } else {
        index_content(entries.drop_first())
    }
}

// ---------------------------------------------------------------------------
// Image-name classification (case-insensitive `jpg` / `jpeg` extensions).
// ---------------------------------------------------------------------------

/// The index of the last `.` in a name, if any.
pub open spec fn rfind_dot(name: Seq<char>) -> Option<int>
    decreases name,
{
    if name.len() == 0 {
        None
    } else if name.last() == '.' {
        Some(name.len() - 1)
    } else {
        rfind_dot(name.drop_last())
    }
}

/// The extension of a file name: what follows the last `.`, unless the only
/// `.` leads the name (a hidden file has no extension).
pub open spec fn ext_of(name: Seq<char>) -> Option<Seq<char>> {
    match rfind_dot(name) {
        Some(i) => if i >= 1 {
            Some(name.skip(i + 1))
        } else {
            None
        },
        None => None,
    }
}

pub open spec fn is_jpg_ext(e: Seq<char>) -> bool {
    ||| (e.len() == 3 && (e[0] == 'j' || e[0] == 'J') && (e[1] == 'p' || e[1] == 'P') && (e[2]
        == 'g' || e[2] == 'G'))
    ||| (e.len() == 4 && (e[0] == 'j' || e[0] == 'J') && (e[1] == 'p' || e[1] == 'P') && (e[2]
        == 'e' || e[2] == 'E') && (e[3] == 'g' || e[3] == 'G'))
}

/// Whether a file name names a source image.
pub open spec fn is_image_name(name: Seq<char>) -> bool {
    match ext_of(name) {
        Some(e) => is_jpg_ext(e),
        None => false,
    }
}

/// Whether `name` names a source image: its extension is `jpg` or `jpeg` in
/// any mix of upper and lower case.
pub fn is_image_file(name: &str) -> (r: bool)
    ensures
        r == is_image_name(name@),
{
    let n = name.unicode_len();
    let mut i: usize = n;
    let mut dot: Option<usize> = None;
    proof {
        assert(name@.take(n as int) =~= name@);
    }
    while i > 0 && dot.is_none()
        invariant
            i <= n,
            n == name@.len(),
            dot is None ==> rfind_dot(name@) == rfind_dot(name@.take(i as int)),
            dot matches Some(d) ==> rfind_dot(name@) == Some(d as int) && d < n,
        decreases i,
    {
        proof {
            assert(name@.take(i as int).last() == name@[i - 1]);
            assert(name@.take(i as int).drop_last() =~= name@.take(i as int - 1));
        }
        i = i - 1;
        if name.get_char(i) == '.' {
            dot = Some(i);
        }
    }
    proof {
        if dot is None {
            assert(name@.take(0).len() == 0);
        }
    }
    match dot {
        None => false,
        Some(d) => {
            if d == 0 {
                false
            } else {
                let ghost e = name@.skip(d as int + 1);
                let len = n - d - 1;
                proof {
                    assert(e.len() == len);
                    assert(forall|j: int| 0 <= j < e.len() ==> e[j] == name@[d + 1 + j]);
                }
                if len == 3 {
                    let c0 = name.get_char(d + 1);
                    let c1 = name.get_char(d + 2);
                    let c2 = name.get_char(d + 3);
                    (c0 == 'j' || c0 == 'J') && (c1 == 'p' || c1 == 'P') && (c2 == 'g' || c2
                        == 'G')
                } else if len == 4 {
                    let c0 = name.get_char(d + 1);
                    let c1 = name.get_char(d + 2);
                    let c2 = name.get_char(d + 3);
                    let c3 = name.get_char(d + 4);
                    (c0 == 'j' || c0 == 'J') && (c1 == 'p' || c1 == 'P') && (c2 == 'e' || c2
                        == 'E') && (c3 == 'g' || c3 == 'G')
                } else {
                    false
                }
            }
        },
    }
}

// ---------------------------------------------------------------------------
// Content: a directory belongs to the gallery tree iff it or a descendant
// holds at least one image.
// ---------------------------------------------------------------------------

pub open spec fn has_content(d: DirNode) -> bool
    decreases d,
{
    entries_have_content(d.entries@)
}

pub open spec fn entries_have_content(s: Seq<FsEntry>) -> bool
    decreases s,
{
    if s.len() == 0 {
        false
    } else {
        entry_has_content(s[0]) || entries_have_content(s.drop_first())
    }
}

pub open spec fn entry_has_content(e: FsEntry) -> bool
    decreases e,
{
    match e {
        FsEntry::File(f) => is_image_name(f.name@),
        FsEntry::Dir(d) => has_content(d),
    }
}

// ---------------------------------------------------------------------------
// The snapshot handed to staleness decisions: which output files exist, with
// their modification times, and which directories exist.  The shell stats
// exactly the paths it is about to ask the library about.
// ---------------------------------------------------------------------------

#[derive(Debug)]
pub struct Stamp {
    pub path: RelPath,
    pub mtime: u64,
}

#[derive(Debug)]
pub struct Snapshot {
    pub files: Vec<Stamp>,
    pub dirs: Vec<RelPath>,
}

/// First-match lookup of a file's modification time.
pub open spec fn stamp_of(files: Seq<Stamp>, p: Seq<Seq<char>>) -> Option<u64>
    decreases files,
{
    if files.len() == 0 {
        None
    } else if files[0].path@ == p {
        Some(files[0].mtime)
    } else {
        stamp_of(files.drop_first(), p)
    }
}

impl Snapshot {
    pub open spec fn spec_mtime(&self, p: Seq<Seq<char>>) -> Option<u64> {
        stamp_of(self.files@, p)
    }

    pub open spec fn spec_has_dir(&self, p: Seq<Seq<char>>) -> bool {
        exists|i: int| 0 <= i < self.dirs@.len() && (#[trigger] self.dirs@[i])@ == p
    }

    /// The snapshot that knows of no file and no directory.
    pub fn new() -> (r: Snapshot)
        ensures
            r.files@.len() == 0,
            r.dirs@.len() == 0,
    {
        Snapshot { files: Vec::new(), dirs: Vec::new() }
    }

    /// Record that `path` exists as a file last modified at `mtime`.
    pub fn add_file(&mut self, path: RelPath, mtime: u64)
        ensures
            final(self).files@ == old(self).files@.push(Stamp { path, mtime }),
            final(self).dirs@ == old(self).dirs@,
    {
        self.files.push(Stamp { path, mtime });
    }

    /// Record that `path` exists as a directory.
    pub fn add_dir(&mut self, path: RelPath)
        ensures
            final(self).dirs@ == old(self).dirs@.push(path),
            final(self).files@ == old(self).files@,
    {
        self.dirs.push(path);
    }

    /// The recorded modification time of `p`, or `None` where the snapshot
    /// holds no file under that path.
    pub fn mtime_of(&self, p: &RelPath) -> (r: Option<u64>)
        ensures
            r == self.spec_mtime(p@),
    {
        let mut i: usize = 0;
        proof {
            assert(self.files@.skip(0) =~= self.files@);
        }
        while i < self.files.len()
            invariant
                i <= self.files.len(),
                stamp_of(self.files@, p@) == stamp_of(self.files@.skip(i as int), p@),
            decreases self.files.len() - i,
        {
            proof {
                assert(self.files@.skip(i as int).drop_first() =~= self.files@.skip(i as int + 1));
            }
            if self.files[i].path == *p {
                proof {
                    assert(self.files@.skip(i as int)[0] == self.files@[i as int]);
                }
                return Some(self.files[i].mtime);
            }
            i = i + 1;
        }
        proof {
            assert(self.files@.skip(self.files@.len() as int).len() == 0);
        }
        None
    }

    /// Whether the snapshot holds a directory under `p`.
    pub fn has_dir(&self, p: &RelPath) -> (r: bool)
        ensures
            r == self.spec_has_dir(p@),
    {
        let mut i: usize = 0;
        while i < self.dirs.len()
            invariant
                i <= self.dirs.len(),
                forall|j: int| 0 <= j < i ==> (#[trigger] self.dirs@[j])@ != p@,
            decreases self.dirs.len() - i,
        {
            if self.dirs[i] == *p {
                return true;
            }
            i = i + 1;
        }
        false
    }
}

/// Whether `first` was modified strictly before `second`; an error when the
/// snapshot lacks either file.
pub fn is_older(snapshot: &Snapshot, first: &RelPath, second: &RelPath) -> (r: Result<bool, Error>)
    ensures
        r is Ok <==> (snapshot.spec_mtime(first@) is Some && snapshot.spec_mtime(second@) is Some),
        r matches Ok(b) ==> b == (snapshot.spec_mtime(first@).unwrap() < snapshot.spec_mtime(
            second@,
        ).unwrap()),
        r matches Err(e) ==> e == Error::SourceRead,
{
    let m1 = snapshot.mtime_of(first);
    let m2 = snapshot.mtime_of(second);
    match (m1, m2) {
        (Some(a), Some(b)) => Ok(a < b),
        _ => Err(Error::SourceRead),
    }
}

// ---------------------------------------------------------------------------
// Path resolution inside the tree, for thumbnail overrides.
// ---------------------------------------------------------------------------

fn seg_exists_from(entries: &Vec<FsEntry>, i: usize, segs: &Vec<String>, k: usize) -> (r: bool)
    requires
        i <= entries@.len(),
        k <= segs@.len(),
    ensures
        r == seg_exists(entries@.skip(i as int), crate::paths::strs_view(segs@).skip(k as int)),
    decreases entries@, entries@.len() - i,
{
    let ghost entail = entries@.skip(i as int);
    let ghost segtail = crate::paths::strs_view(segs@).skip(k as int);
    if k == segs.len() {
        proof {
            assert(segtail.len() == 0);
        }
        return true;
    }
    if i == entries.len() {
        proof {
            assert(entail.len() == 0);
            assert(segtail.len() > 0);
        }
        return false;
    }
    proof {
        assert(entail[0] == entries@[i as int]);
        assert(segtail[0] == segs@[k as int]@);
        assert(entail.drop_first() =~= entries@.skip(i as int + 1));
        assert(segtail.drop_first() =~= crate::paths::strs_view(segs@).skip(k as int + 1));
    }
    let name_matches: bool = match &entries[i] {
        FsEntry::File(f) => f.name == segs[k],
        FsEntry::Dir(d) => d.name == segs[k],
    };
    if name_matches {
        if k + 1 == segs.len() {
            proof {
                assert(segtail.len() == 1);
            }
            true
        } else {
            match &entries[i] {
                FsEntry::File(_) => false,
                FsEntry::Dir(d) => {
                    proof {
                        assert(d.entries@.skip(0) =~= d.entries@);
                    }
                    seg_exists_from(&d.entries, 0, segs, k + 1)
                },
            }
        }
    } else {
        seg_exists_from(entries, i + 1, segs, k)
    }
}

/// Whether the chain of names in `segs` leads to an entry below `dir`.
pub fn node_exists(dir: &DirNode, segs: &Vec<String>) -> (r: bool)
    ensures
        r == seg_exists(dir.entries@, crate::paths::strs_view(segs@)),
{
    let r = seg_exists_from(&dir.entries, 0, segs, 0);
    proof {
        assert(dir.entries@.skip(0) =~= dir.entries@);
        assert(crate::paths::strs_view(segs@).skip(0) =~= crate::paths::strs_view(segs@));
    }
    r
}

/// The description-file text of `dir`, if one is present.
pub fn find_index_content<'a>(dir: &'a DirNode) -> (r: Option<&'a String>)
    ensures
        match r {
            Some(s) => index_content(dir.entries@) == Some(s@),
            None => index_content(dir.entries@) is None,
        },
{
    let mut i: usize = 0;
    proof {
        assert(dir.entries@.skip(0) =~= dir.entries@);
    }
    while i < dir.entries.len()
        invariant
            i <= dir.entries@.len(),
            index_content(dir.entries@) == index_content(dir.entries@.skip(i as int)),
        decreases dir.entries@.len() - i,
    {
        proof {
            assert(dir.entries@.skip(i as int)[0] == dir.entries@[i as int]);
            assert(dir.entries@.skip(i as int).drop_first() =~= dir.entries@.skip(i as int + 1));
        }
        let index_name = String::from_str("index.md");
        let is_index: bool = match &dir.entries[i] {
            FsEntry::File(f) => f.name == index_name,
            FsEntry::Dir(d) => d.name == index_name,
        };
        if is_index {
            match &dir.entries[i] {
                FsEntry::File(f) => {
                    return Some(&f.content);
                },
                FsEntry::Dir(_) => {
                    return None;
                },
            }
        }
        i = i + 1;
    }
    proof {
        assert(dir.entries@.skip(dir.entries@.len() as int).len() == 0);
    }
    None
}

} // verus!
