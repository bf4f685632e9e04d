use vstd::prelude::*;
use vstd::string::*;
use crate::errors::Error;

verus! {

/// A filesystem path, held as its sequence of segments.  The gallery never
/// needs absolute-path syntax: every path the build touches is relative to
/// the process working directory or to one of the configured roots, and the
/// shell around the library converts between this form and the platform's.
#[derive(Debug)]
pub struct RelPath {
    pub segments: Vec<String>,
}

/// The views of a sequence of strings.
pub open spec fn strs_view(s: Seq<String>) -> Seq<Seq<char>> {
    Seq::new(s.len(), |i: int| s[i]@)
}

impl View for RelPath {
    type V = Seq<Seq<char>>;

    open spec fn view(&self) -> Seq<Seq<char>> {
        strs_view(self.segments@)
    }
}

impl Clone for RelPath {
    fn clone(&self) -> (res: Self)
        ensures
            res@ == self@,
    {
        let mut segments: Vec<String> = Vec::new();
        let mut i: usize = 0;
        while i < self.segments.len()
            invariant
                i <= self.segments.len(),
                segments@.len() == i,
                forall|j: int| 0 <= j < i ==> segments@[j]@ == self.segments@[j]@,
            decreases self.segments.len() - i,
        {
            segments.push(self.segments[i].clone());
            i = i + 1;
        }
        let res = RelPath { segments };
        proof {
            assert(res@ =~= self@);
        }
        res
    }
}

impl PartialEq for RelPath {
    fn eq(&self, other: &RelPath) -> (r: bool) {
        if self.segments.len() != other.segments.len() {
            proof {
                assert(self@.len() != other@.len());
            }
            return false;
        }
        let mut i: usize = 0;
        while i < self.segments.len()
            invariant
                i <= self.segments.len(),
                self.segments.len() == other.segments.len(),
                forall|j: int| 0 <= j < i ==> self@[j] == other@[j],
            decreases self.segments.len() - i,
        {
            if !(self.segments[i] == other.segments[i]) {
                proof {
                    assert(self@[i as int] != other@[i as int]);
                }
                return false;
            }
            i = i + 1;
        }
        proof {
            assert(self@ =~= other@);
        }
        true
    }
}

impl vstd::std_specs::cmp::PartialEqSpecImpl for RelPath {
    open spec fn obeys_eq_spec() -> bool {
        true
    }

    open spec fn eq_spec(&self, other: &RelPath) -> bool {
        self@ == other@
    }
}

impl RelPath {
    /// The empty path.
    pub fn new() -> (r: RelPath)
        ensures
            r@ == Seq::<Seq<char>>::empty(),
    {
        let r = RelPath { segments: Vec::new() };
        proof {
            assert(r@ =~= Seq::<Seq<char>>::empty());
        }
        r
    }

    /// The path extended by one more segment.
    pub fn join(&self, seg: &str) -> (r: RelPath)
        ensures
            r@ == self@.push(seg@),
    {
        let mut r = self.clone();
        r.segments.push(seg.to_owned());
        proof {
            assert(r@ =~= self@.push(seg@));
        }
        r
    }

    /// The path extended by all segments of `other`.
    pub fn concat(&self, other: &RelPath) -> (r: RelPath)
        ensures
            r@ == self@ + other@,
    {
        let mut r = self.clone();
        let mut i: usize = 0;
        while i < other.segments.len()
            invariant
                i <= other.segments.len(),
                r@ == self@ + other@.subrange(0, i as int),
            decreases other.segments.len() - i,
        {
            let ghost prev = r@;
            r.segments.push(other.segments[i].clone());
            proof {
                assert(r@ =~= prev.push(other@[i as int]));
                assert(r@ =~= self@ + other@.subrange(0, i as int + 1));
            }
            i = i + 1;
        }
        proof {
            assert(other@.subrange(0, other@.len() as int) =~= other@);
        }
        r
    }

    /// The path without its last segment; the empty path has no parent.
    pub fn parent(&self) -> (r: Option<RelPath>)
        ensures
            self@.len() == 0 <==> r is None,
            self@.len() > 0 ==> (r matches Some(p) && p@ == self@.drop_last()),
    {
        if self.segments.len() == 0 {
            None
        } else {
            let mut p = self.clone();
            let ghost whole = p@;
            p.segments.pop();
            proof {
                assert(p@ =~= self@.drop_last());
            }
            Some(p)
        }
    }

    /// The last segment; the empty path has none.
    pub fn file_name(&self) -> (r: Option<&String>)
        ensures
            self@.len() == 0 <==> r is None,
            self@.len() > 0 ==> (r matches Some(s) && s@ == self@.last()),
    {
        if self.segments.len() == 0 {
            None
        } else {
            Some(&self.segments[self.segments.len() - 1])
        }
    }

    /// The path with a leading `prefix` removed; an error when `prefix` does
    /// not lead this path.
    pub fn strip_prefix(&self, prefix: &RelPath) -> (r: Result<RelPath, Error>)
        ensures
            r is Ok <==> prefix@.is_prefix_of(self@),
            r matches Ok(rest) ==> rest@ == self@.skip(prefix@.len() as int),
            r matches Err(e) ==> e == Error::InvalidPath,
    {
        if prefix.segments.len() > self.segments.len() {
            proof {
                assert(!prefix@.is_prefix_of(self@));
            }
            return Err(Error::InvalidPath);
        }
        let mut i: usize = 0;
        while i < prefix.segments.len()
            invariant
                i <= prefix.segments.len(),
                prefix.segments.len() <= self.segments.len(),
                forall|j: int| 0 <= j < i ==> self@[j] == prefix@[j],
            decreases prefix.segments.len() - i,
        {
            if !(self.segments[i] == prefix.segments[i]) {
                proof {
                    assert(self@[i as int] != prefix@[i as int]);
                    assert(!prefix@.is_prefix_of(self@));
                }
                return Err(Error::InvalidPath);
            }
            i = i + 1;
        }
        let mut rest: Vec<String> = Vec::new();
        let mut k: usize = prefix.segments.len();
        let ghost base = prefix@.len() as int;
        while k < self.segments.len()
            invariant
                base == prefix@.len(),
                base <= k <= self.segments.len(),
                rest@.len() == k - base,
                forall|j: int| 0 <= j < k - base ==> rest@[j]@ == self@[base + j],
            decreases self.segments.len() - k,
        {
            rest.push(self.segments[k].clone());
            k = k + 1;
        }
        let r = RelPath { segments: rest };
        proof {
            assert(prefix@.is_prefix_of(self@)) by {
                assert(prefix@ =~= self@.subrange(0, prefix@.len() as int));
            }
            assert(r@ =~= self@.skip(prefix@.len() as int));
        }
        Ok(r)
    }
}

/// The last segment of a path as an owned string; empty for the empty path.
pub fn path_to_string(path: &RelPath) -> (r: String)
    ensures
        path@.len() > 0 ==> r@ == path@.last(),
        path@.len() == 0 ==> r@ == Seq::<char>::empty(),
{
    match path.file_name() {
        Some(name) => name.clone(),
        None => String::new(),
    }
}

/// One breadcrumb link: the displayed title and the relative path that leads
/// from the page being rendered up to that ancestor.
#[derive(Debug)]
pub struct Link {
    pub title: String,
    pub path: String,
}

/// The mathematical value of a [`Link`].
#[verifier::ext_equal]
pub ghost struct LinkV {
    pub title: Seq<char>,
    pub path: Seq<char>,
}

impl View for Link {
    type V = LinkV;

    open spec fn view(&self) -> LinkV {
        LinkV { title: self.title@, path: self.path@ }
    }
}

/// The relative path that climbs `d` directories: `.`, `./..`, `./../..`, ...
pub open spec fn rel_up(d: nat) -> Seq<char>
    decreases d,
{
    if d == 0 {
        "."@
    } else {
        rel_up((d - 1) as nat) + "/.."@
    }
}

fn rel_up_exec(d: usize) -> (r: String)
    ensures
        r@ == rel_up(d as nat),
{
    let mut r = String::from_str(".");
    let mut i: usize = 0;
    while i < d
        invariant
            i <= d,
            r@ == rel_up(i as nat),
        decreases d - i,
    {
        r.append("/..");
        i = i + 1;
    }
    r
}

/// Turn a breadcrumb trail (root first, current collection last) into links.
/// The element at reverse-distance `d` from the end links `d` directories up.
pub fn breadcrumbs_to_links(breadcrumbs: &Vec<String>) -> (r: Vec<Link>)
    ensures
        r@.len() == breadcrumbs@.len(),
        forall|i: int|
            0 <= i < r@.len() ==> (#[trigger] r@[i]).title@ == breadcrumbs@[i]@ && r@[i].path@
                == rel_up((breadcrumbs@.len() - 1 - i) as nat),
{
    let n = breadcrumbs.len();
    let mut links: Vec<Link> = Vec::new();
    let mut i: usize = 0;
    while i < n
        invariant
            n == breadcrumbs@.len(),
            i <= n,
            links@.len() == i,
            forall|j: int|
                0 <= j < i ==> (#[trigger] links@[j]).title@ == breadcrumbs@[j]@ && links@[j].path@
                    == rel_up((n - 1 - j) as nat),
        decreases n - i,
    {
        let path = rel_up_exec(n - 1 - i);
        links.push(Link { title: breadcrumbs[i].clone(), path });
        i = i + 1;
    }
    links
}

/// The relative path from a collection's output directory back to the output
/// root: one `..` for every directory level below the root.
pub fn output_path_to_root(output: &RelPath) -> (r: RelPath)
    ensures
        output@.len() == 0 ==> r@.len() == 0,
        output@.len() > 0 ==> r@.len() == output@.len() - 1,
        forall|i: int| 0 <= i < r@.len() ==> r@[i] == ".."@,
{
    let mut r = RelPath::new();
    if output.segments.len() == 0 {
        return r;
    }
    let mut i: usize = 1;
    while i < output.segments.len()
        invariant
            1 <= i <= output.segments.len() || (output.segments.len() == 0 && i == 1),
            r@.len() == i - 1,
            forall|j: int| 0 <= j < r@.len() ==> r@[j] == ".."@,
        decreases output.segments.len() - i,
    {
        r = r.join("..");
        i = i + 1;
    }
    r
}

} // verus!
