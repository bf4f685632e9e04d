use vstd::prelude::*;
use vstd::string::*;
use crate::collection::{Collection, Item};
use crate::errors::Error;
use crate::paths::{
    breadcrumbs_to_links, output_path_to_root, rel_up, strs_view, Link, LinkV, RelPath,
};

verus! {

// ---------------------------------------------------------------------------
// The rendering context: one per collection, handed to the external
// template renderer by the shell.
// ---------------------------------------------------------------------------

/// A full-size image as a page shows it: the output's file name, the
/// thumbnail relative to the page, and the pixel dimensions read from the
/// generated output.
#[derive(Debug)]
pub struct Image {
    pub path: String,
    pub thumbnail: RelPath,
    pub width: u32,
    pub height: u32,
}

#[verifier::ext_equal]
pub ghost struct ImageV {
    pub path: Seq<char>,
    pub thumbnail: Seq<Seq<char>>,
    pub width: u32,
    pub height: u32,
}

impl View for Image {
    type V = ImageV;

    open spec fn view(&self) -> ImageV {
        ImageV {
            path: self.path@,
            thumbnail: self.thumbnail@,
            width: self.width,
            height: self.height,
        }
    }
}

/// A subcollection as its parent's page shows it: the directory name, the
/// child's thumbnail relative to the parent's page, and the child's title.
#[derive(Debug)]
pub struct Child {
    pub path: String,
    pub thumbnail: RelPath,
    pub title: String,
}

#[verifier::ext_equal]
pub ghost struct ChildV {
    pub path: Seq<char>,
    pub thumbnail: Seq<Seq<char>>,
    pub title: Seq<char>,
}

impl View for Child {
    type V = ChildV;

    open spec fn view(&self) -> ChildV {
        ChildV { path: self.path@, thumbnail: self.thumbnail@, title: self.title@ }
    }
}

/// The context for one collection's page.
#[derive(Debug)]
pub struct Output {
    pub title: String,
    pub description: String,
    pub breadcrumbs: Vec<Link>,
    pub children: Vec<Child>,
    pub images: Vec<Image>,
}

#[verifier::ext_equal]
pub ghost struct OutputV {
    pub title: Seq<char>,
    pub description: Seq<char>,
    pub breadcrumbs: Seq<LinkV>,
    pub children: Seq<ChildV>,
    pub images: Seq<ImageV>,
}

impl View for Output {
    type V = OutputV;

    open spec fn view(&self) -> OutputV {
        OutputV {
            title: self.title@,
            description: self.description@,
            breadcrumbs: Seq::new(self.breadcrumbs@.len(), |i: int| self.breadcrumbs@[i]@),
            children: Seq::new(self.children@.len(), |i: int| self.children@[i]@),
            images: Seq::new(self.images@.len(), |i: int| self.images@[i]@),
        }
    }
}

/// One page of the rendered gallery: where it goes, its context, and the
/// relative path from the page to the shared static assets.
#[derive(Debug)]
pub struct Page {
    pub output_dir: RelPath,
    pub context: Output,
    pub theme_path: RelPath,
}

#[verifier::ext_equal]
pub ghost struct PageV {
    pub output_dir: Seq<Seq<char>>,
    pub context: OutputV,
    pub theme_path: Seq<Seq<char>>,
}

impl View for Page {
    type V = PageV;

    open spec fn view(&self) -> PageV {
        PageV { output_dir: self.output_dir@, context: self.context@, theme_path: self.theme_path@ }
    }
}

pub open spec fn images_view(s: Seq<Image>) -> Seq<ImageV> {
    Seq::new(s.len(), |i: int| s[i]@)
}

pub open spec fn children_view(s: Seq<Child>) -> Seq<ChildV> {
    Seq::new(s.len(), |i: int| s[i]@)
}

pub open spec fn pages_view(s: Seq<Page>) -> Seq<PageV> {
    Seq::new(s.len(), |i: int| s[i]@)
}

// ---------------------------------------------------------------------------
// Image dimensions.  The pipeline has already materialized the outputs; the
// shell reads each output's pixel size and hands the table over.  An item
// the table does not know (its output failed) is left off its page: the
// page itself is still emitted.
// ---------------------------------------------------------------------------

#[derive(Debug)]
pub struct Dim {
    pub path: RelPath,
    pub width: u32,
    pub height: u32,
}

/// First-match lookup of an output's pixel size.
pub open spec fn dim_of(dims: Seq<Dim>, p: Seq<Seq<char>>) -> Option<(u32, u32)>
    decreases dims,
{
    if dims.len() == 0 {
        None
    } else if dims[0].path@ == p {
        Some((dims[0].width, dims[0].height))
    } else {
        dim_of(dims.drop_first(), p)
    }
}

fn dim_of_exec(dims: &Vec<Dim>, p: &RelPath) -> (r: Option<(u32, u32)>)
    ensures
        r == dim_of(dims@, p@),
{
    let mut i: usize = 0;
    proof {
        assert(dims@.skip(0) =~= dims@);
    }
    while i < dims.len()
        invariant
            i <= dims@.len(),
            dim_of(dims@, p@) == dim_of(dims@.skip(i as int), p@),
        decreases dims@.len() - i,
    {
        proof {
            assert(dims@.skip(i as int)[0] == dims@[i as int]);
            assert(dims@.skip(i as int).drop_first() =~= dims@.skip(i as int + 1));
        }
        if dims[i].path == *p {
            return Some((dims[i].width, dims[i].height));
        }
        i = i + 1;
    }
    proof {
        assert(dims@.skip(dims@.len() as int).len() == 0);
    }
    None
}

// ---------------------------------------------------------------------------
// Ordering.  Pages sort images by thumbnail path and children by title, so
// the output does not depend on directory-enumeration order.  Strings
// compare by code point, paths segment by segment.
// ---------------------------------------------------------------------------

/// Three-way string comparison by code point: negative, zero or positive as
/// `a` comes before, equals, or comes after `b`.
pub open spec fn str_cmp(a: Seq<char>, b: Seq<char>) -> int
    decreases a.len(),
{
    if a.len() == 0 && b.len() == 0 {
        0
    } else if a.len() == 0 {
        -1
    } else if b.len() == 0 {
        1
    } else if (a[0] as u32) < (b[0] as u32) {
        -1
    } else if (a[0] as u32) > (b[0] as u32) {
        1
    } else {
        str_cmp(a.drop_first(), b.drop_first())
    }
}

/// Three-way path comparison: lexicographic over segments.
pub open spec fn path_cmp(a: Seq<Seq<char>>, b: Seq<Seq<char>>) -> int
    decreases a.len(),
{
    if a.len() == 0 && b.len() == 0 {
        0
    } else if a.len() == 0 {
        -1
    } else if b.len() == 0 {
        1
    } else {
        let c = str_cmp(a[0], b[0]);
        if c != 0 {
            c
        } else {
            path_cmp(a.drop_first(), b.drop_first())
        }
    }
}

fn str_cmp_exec(a: &str, b: &str) -> (r: i32)
    ensures
        r == str_cmp(a@, b@),
{
    let na = a.unicode_len();
    let nb = b.unicode_len();
    let mut i: usize = 0;
    proof {
        assert(a@.skip(0) =~= a@);
        assert(b@.skip(0) =~= b@);
    }
    while i < na && i < nb
        invariant
            i <= na,
            i <= nb,
            na == a@.len(),
            nb == b@.len(),
            str_cmp(a@, b@) == str_cmp(a@.skip(i as int), b@.skip(i as int)),
        decreases na - i,
    {
        proof {
            assert(a@.skip(i as int)[0] == a@[i as int]);
            assert(b@.skip(i as int)[0] == b@[i as int]);
            assert(a@.skip(i as int).drop_first() =~= a@.skip(i as int + 1));
            assert(b@.skip(i as int).drop_first() =~= b@.skip(i as int + 1));
        }
        let ca = a.get_char(i) as u32;
        let cb = b.get_char(i) as u32;
        if ca < cb {
            return -1;
        }
        if ca > cb {
            return 1;
        }
        i = i + 1;
    }
    if na == nb {
        0
    } else if na < nb {
        proof {
            assert(a@.skip(i as int).len() == 0);
            assert(b@.skip(i as int).len() > 0);
        }
        -1
    } else {
        proof {
            assert(b@.skip(i as int).len() == 0);
            assert(a@.skip(i as int).len() > 0);
        }
        1
    }
}

fn path_cmp_exec(a: &RelPath, b: &RelPath) -> (r: i32)
    ensures
        r == path_cmp(a@, b@),
{
    let na = a.segments.len();
    let nb = b.segments.len();
    let mut i: usize = 0;
    proof {
        assert(a@.skip(0) =~= a@);
        assert(b@.skip(0) =~= b@);
    }
    while i < na && i < nb
        invariant
            i <= na,
            i <= nb,
            na == a@.len(),
            nb == b@.len(),
            path_cmp(a@, b@) == path_cmp(a@.skip(i as int), b@.skip(i as int)),
        decreases na - i,
    {
        proof {
            assert(a@.skip(i as int)[0] == a@[i as int]);
            assert(b@.skip(i as int)[0] == b@[i as int]);
            assert(a@.skip(i as int).drop_first() =~= a@.skip(i as int + 1));
            assert(b@.skip(i as int).drop_first() =~= b@.skip(i as int + 1));
        }
        let c = str_cmp_exec(a.segments[i].as_str(), b.segments[i].as_str());
        if c != 0 {
            return c;
        }
        i = i + 1;
    }
    if na == nb {
        0
    } else if na < nb {
        proof {
            assert(a@.skip(i as int).len() == 0);
            assert(b@.skip(i as int).len() > 0);
        }
        -1
    } else {
        proof {
            assert(b@.skip(i as int).len() == 0);
            assert(a@.skip(i as int).len() > 0);
        }
        1
    }
}

// ---------------------------------------------------------------------------
// Stable insertion sorts: images ascending by thumbnail path, children
// descending by title.  Each sort is its own specification: the exec code
// computes exactly the sequence the spec names.
// ---------------------------------------------------------------------------

/// Insert an image before the first element it does not come strictly
/// after, keeping elements with equal keys in their original order.
pub open spec fn insert_image(x: ImageV, s: Seq<ImageV>) -> Seq<ImageV>
    decreases s.len(),
{
    if s.len() == 0 {
        seq![x]
    } else if path_cmp(x.thumbnail, s[0].thumbnail) <= 0 {
        seq![x] + s
    } else {
        seq![s[0]] + insert_image(x, s.drop_first())
    }
}

/// Stable sort of images, ascending by thumbnail path.
pub open spec fn sort_images(s: Seq<ImageV>) -> Seq<ImageV>
    decreases s.len(),
{
    if s.len() == 0 {
        Seq::empty()
    } else {
        insert_image(s[0], sort_images(s.drop_first()))
    }
}

/// Insert a child; order is descending by title.
pub open spec fn insert_child(x: ChildV, s: Seq<ChildV>) -> Seq<ChildV>
    decreases s.len(),
{
    if s.len() == 0 {
        seq![x]
    } else if str_cmp(s[0].title, x.title) <= 0 {
        seq![x] + s
    } else {
        seq![s[0]] + insert_child(x, s.drop_first())
    }
}

/// Stable sort of children, descending by title.
pub open spec fn sort_children(s: Seq<ChildV>) -> Seq<ChildV>
    decreases s.len(),
{
    if s.len() == 0 {
        Seq::empty()
    } else {
        insert_child(s[0], sort_children(s.drop_first()))
    }
}

proof fn lemma_insert_image_at(x: ImageV, s: Seq<ImageV>, pos: int)
    requires
        0 <= pos <= s.len(),
        forall|j: int| 0 <= j < pos ==> path_cmp(x.thumbnail, (#[trigger] s[j]).thumbnail) > 0,
        pos == s.len() || path_cmp(x.thumbnail, s[pos].thumbnail) <= 0,
    ensures
        insert_image(x, s) == s.insert(pos, x),
    decreases pos,
{
    if pos == 0 {
        if s.len() == 0 {
            assert(seq![x] =~= s.insert(0, x));
        } else {
            assert(seq![x] + s =~= s.insert(0, x));
        }
    } else {
        lemma_insert_image_at(x, s.drop_first(), pos - 1);
        assert(forall|j: int|
            0 <= j < pos - 1 ==> s.drop_first()[j] == s[j + 1]);
        assert(seq![s[0]] + s.drop_first().insert(pos - 1, x) =~= s.insert(pos, x));
    }
}

proof fn lemma_insert_child_at(x: ChildV, s: Seq<ChildV>, pos: int)
    requires
        0 <= pos <= s.len(),
        forall|j: int| 0 <= j < pos ==> str_cmp((#[trigger] s[j]).title, x.title) > 0,
        pos == s.len() || str_cmp(s[pos].title, x.title) <= 0,
    ensures
        insert_child(x, s) == s.insert(pos, x),
    decreases pos,
{
    if pos == 0 {
        if s.len() == 0 {
            assert(seq![x] =~= s.insert(0, x));
        } else {
            assert(seq![x] + s =~= s.insert(0, x));
        }
    } else {
        lemma_insert_child_at(x, s.drop_first(), pos - 1);
        assert(forall|j: int|
            0 <= j < pos - 1 ==> s.drop_first()[j] == s[j + 1]);
        assert(seq![s[0]] + s.drop_first().insert(pos - 1, x) =~= s.insert(pos, x));
    }
}

fn clone_image(x: &Image) -> (r: Image)
    ensures
        r@ == x@,
{
    let r = Image {
        path: x.path.clone(),
        thumbnail: x.thumbnail.clone(),
        width: x.width,
        height: x.height,
    };
    proof {
        assert(r@ =~= x@);
    }
    r
}

fn clone_child(x: &Child) -> (r: Child)
    ensures
        r@ == x@,
{
    let r = Child { path: x.path.clone(), thumbnail: x.thumbnail.clone(), title: x.title.clone() };
    proof {
        assert(r@ =~= x@);
    }
    r
}

fn insert_image_exec(x: Image, sorted: &mut Vec<Image>)
    ensures
        images_view(final(sorted)@) == insert_image(x@, images_view(old(sorted)@)),
{
    let ghost s = images_view(sorted@);
    let ghost xv = x@;
    let mut pos: usize = 0;
    while pos < sorted.len() && path_cmp_exec(&x.thumbnail, &sorted[pos].thumbnail) > 0
        invariant
            pos <= sorted@.len(),
            sorted@ == old(sorted)@,
            s == images_view(sorted@),
            xv == x@,
            forall|j: int| 0 <= j < pos ==> path_cmp(xv.thumbnail, (#[trigger] s[j]).thumbnail) > 0,
        decreases sorted@.len() - pos,
    {
        pos = pos + 1;
    }
    proof {
        lemma_insert_image_at(xv, s, pos as int);
    }
    sorted.insert(pos, x);
    proof {
        assert(images_view(sorted@) =~= s.insert(pos as int, xv));
    }
}

fn sort_images_from(v: &Vec<Image>, from: usize) -> (r: Vec<Image>)
    requires
        from <= v@.len(),
    ensures
        images_view(r@) == sort_images(images_view(v@).skip(from as int)),
    decreases v@.len() - from,
{
    let ghost whole = images_view(v@);
    if from == v.len() {
        let r: Vec<Image> = Vec::new();
        proof {
            assert(whole.skip(from as int).len() == 0);
            assert(images_view(r@) =~= Seq::<ImageV>::empty());
        }
        r
    } else {
        let mut rest = sort_images_from(v, from + 1);
        let x = clone_image(&v[from]);
        proof {
            assert(whole.skip(from as int)[0] == whole[from as int]);
            assert(whole.skip(from as int).drop_first() =~= whole.skip(from as int + 1));
        }
        insert_image_exec(x, &mut rest);
        rest
    }
}

/// Sort images ascending by thumbnail path; a stable order independent of
/// how the filesystem enumerated them.
pub fn sort_images_exec(v: &Vec<Image>) -> (r: Vec<Image>)
    ensures
        images_view(r@) == sort_images(images_view(v@)),
{
    let r = sort_images_from(v, 0);
    proof {
        assert(images_view(v@).skip(0) =~= images_view(v@));
    }
    r
}

fn insert_child_exec(x: Child, sorted: &mut Vec<Child>)
    ensures
        children_view(final(sorted)@) == insert_child(x@, children_view(old(sorted)@)),
{
    let ghost s = children_view(sorted@);
    let ghost xv = x@;
    let mut pos: usize = 0;
    while pos < sorted.len() && str_cmp_exec(sorted[pos].title.as_str(), x.title.as_str()) > 0
        invariant
            pos <= sorted@.len(),
            sorted@ == old(sorted)@,
            s == children_view(sorted@),
            xv == x@,
            forall|j: int| 0 <= j < pos ==> str_cmp((#[trigger] s[j]).title, xv.title) > 0,
        decreases sorted@.len() - pos,
    {
        pos = pos + 1;
    }
    proof {
        lemma_insert_child_at(xv, s, pos as int);
    }
    sorted.insert(pos, x);
    proof {
        assert(children_view(sorted@) =~= s.insert(pos as int, xv));
    }
}

fn sort_children_from(v: &Vec<Child>, from: usize) -> (r: Vec<Child>)
    requires
        from <= v@.len(),
    ensures
        children_view(r@) == sort_children(children_view(v@).skip(from as int)),
    decreases v@.len() - from,
{
    let ghost whole = children_view(v@);
    if from == v.len() {
        let r: Vec<Child> = Vec::new();
        proof {
            assert(whole.skip(from as int).len() == 0);
            assert(children_view(r@) =~= Seq::<ChildV>::empty());
        }
        r
    } else {
        let mut rest = sort_children_from(v, from + 1);
        let x = clone_child(&v[from]);
        proof {
            assert(whole.skip(from as int)[0] == whole[from as int]);
            assert(whole.skip(from as int).drop_first() =~= whole.skip(from as int + 1));
        }
        insert_child_exec(x, &mut rest);
        rest
    }
}

/// Sort children descending by title.
pub fn sort_children_exec(v: &Vec<Child>) -> (r: Vec<Child>)
    ensures
        children_view(r@) == sort_children(children_view(v@)),
{
    let r = sort_children_from(v, 0);
    proof {
        assert(children_view(v@).skip(0) =~= children_view(v@));
    }
    r
}

// ---------------------------------------------------------------------------
// Shape of a renderable tree.  Trees built by the scan always have it; the
// render walk re-checks it defensively and fails cleanly instead of
// panicking when handed a malformed tree.
// ---------------------------------------------------------------------------

/// The item's derived paths have file names.
pub open spec fn item_shape_ok(item: Item) -> bool {
    item.to@.len() > 0 && item.thumbnail@.len() > 0
}

/// What showing a child on its parent's page needs: the child has a
/// directory name, and its thumbnail lies below the parent's directory.
pub open spec fn child_shape_ok(c: Collection) -> bool {
    &&& c.path@.len() > 0
    &&& c.path@.drop_last().is_prefix_of(c.thumbnail@)
    &&& c.thumbnail@.len() >= c.path@.len()
}

/// A tree the render walk can emit pages for.
pub open spec fn wf_collection(c: Collection) -> bool
    decreases c,
{
    &&& (forall|i: int| 0 <= i < c.items@.len() ==> item_shape_ok(#[trigger] c.items@[i]))
    &&& wf_children(c.collections@)
}

pub open spec fn wf_children(cs: Seq<Collection>) -> bool
    decreases cs,
{
    if cs.len() == 0 {
        true
    } else {
        child_shape_ok(cs[0]) && wf_collection(cs[0]) && wf_children(cs.drop_first())
    }
}

proof fn lemma_wf_children_index(cs: Seq<Collection>, i: int)
    requires
        wf_children(cs),
        0 <= i < cs.len(),
    ensures
        child_shape_ok(cs[i]),
        wf_collection(cs[i]),
    decreases i,
{
    if i > 0 {
        lemma_wf_children_index(cs.drop_first(), i - 1);
        assert(cs.drop_first()[i - 1] == cs[i]);
    }
}

proof fn lemma_wf_children_build(cs: Seq<Collection>)
    requires
        forall|i: int|
            0 <= i < cs.len() ==> child_shape_ok(#[trigger] cs[i]) && wf_collection(cs[i]),
    ensures
        wf_children(cs),
    decreases cs,
{
    if cs.len() > 0 {
        assert(forall|i: int|
            0 <= i < cs.drop_first().len() ==> cs.drop_first()[i] == cs[i + 1]);
        lemma_wf_children_build(cs.drop_first());
    }
}

// ---------------------------------------------------------------------------
// The images of a page: each item whose output dimensions are known, shown
// under its file name with its thumbnail in the page's `thumbnails`
// directory.  An item the dimension table does not know — its pipeline work
// failed — is left off the page; the page is still emitted.
// ---------------------------------------------------------------------------

pub open spec fn spec_image(item: Item, w: u32, h: u32) -> ImageV {
    ImageV {
        path: item.to@.last(),
        thumbnail: seq!["thumbnails"@, item.thumbnail@.last()],
        width: w,
        height: h,
    }
}

pub open spec fn images_of(items: Seq<Item>, dims: Seq<Dim>) -> Seq<ImageV>
    decreases items,
{
    if items.len() == 0 {
        Seq::empty()
    } else {
        let rest = images_of(items.drop_first(), dims);
        match dim_of(dims, items[0].to@) {
            Some(wh) => seq![spec_image(items[0], wh.0, wh.1)] + rest,
            None => rest,
        }
    }
}

proof fn lemma_images_of_push(items: Seq<Item>, x: Item, dims: Seq<Dim>)
    ensures
        images_of(items.push(x), dims) == (match dim_of(dims, x.to@) {
            Some(wh) => images_of(items, dims).push(spec_image(x, wh.0, wh.1)),
            None => images_of(items, dims),
        }),
    decreases items,
{
    if items.len() == 0 {
        assert(items.push(x)[0] == x);
        assert(items.push(x).drop_first() =~= items);
        match dim_of(dims, x.to@) {
            Some(wh) => {
                assert(seq![spec_image(x, wh.0, wh.1)] + Seq::<ImageV>::empty()
                    =~= images_of(items, dims).push(spec_image(x, wh.0, wh.1)));
            },
            None => {},
        }
    } else {
        assert(items.push(x)[0] == items[0]);
        assert(items.push(x).drop_first() =~= items.drop_first().push(x));
        lemma_images_of_push(items.drop_first(), x, dims);
        match (dim_of(dims, items[0].to@), dim_of(dims, x.to@)) {
            (Some(wh0), Some(wh)) => {
                assert(seq![spec_image(items[0], wh0.0, wh0.1)] + images_of(
                    items.drop_first(),
                    dims,
                ).push(spec_image(x, wh.0, wh.1)) =~= (seq![spec_image(items[0], wh0.0, wh0.1)]
                    + images_of(items.drop_first(), dims)).push(spec_image(x, wh.0, wh.1)));
            },
            _ => {},
        }
    }
}

/// The images for one page, before sorting.  Fails only on an item whose
/// derived paths miss a file name.
fn build_images(items: &Vec<Item>, dims: &Vec<Dim>) -> (r: Result<Vec<Image>, Error>)
    ensures
        r is Ok <==> (forall|i: int|
            0 <= i < items@.len() ==> item_shape_ok(#[trigger] items@[i])),
        r matches Ok(v) ==> images_view(v@) == images_of(items@, dims@),
        r matches Err(e) ==> e == Error::InvalidPath,
{
    let mut v: Vec<Image> = Vec::new();
    let mut i: usize = 0;
    proof {
        assert(items@.take(0) =~= Seq::<Item>::empty());
        assert(images_view(v@) =~= images_of(items@.take(0), dims@));
    }
    while i < items.len()
        invariant
            i <= items@.len(),
            forall|j: int| 0 <= j < i ==> item_shape_ok(#[trigger] items@[j]),
            images_view(v@) == images_of(items@.take(i as int), dims@),
        decreases items@.len() - i,
    {
        let item = &items[i];
        proof {
            assert(items@.take(i as int + 1) =~= items@.take(i as int).push(items@[i as int]));
            lemma_images_of_push(items@.take(i as int), items@[i as int], dims@);
        }
        let name = match item.to.file_name() {
            Some(n) => n.clone(),
            None => {
                return Err(Error::InvalidPath);
            },
        };
        let thumb_name = match item.thumbnail.file_name() {
            Some(n) => n.clone(),
            None => {
                return Err(Error::InvalidPath);
            },
        };
        match dim_of_exec(dims, &item.to) {
            Some(wh) => {
                let thumbnail = RelPath::new().join("thumbnails").join(thumb_name.as_str());
                let ghost v0 = images_view(v@);
                let img = Image { path: name, thumbnail, width: wh.0, height: wh.1 };
                let ghost imgv = img@;
                proof {
                    assert(imgv.thumbnail =~= seq!["thumbnails"@, items@[i as int].thumbnail@.last()]);
                    assert(imgv =~~= spec_image(items@[i as int], wh.0, wh.1));
                }
                v.push(img);
                proof {
                    assert(images_view(v@) =~= v0.push(imgv));
                }
            },
            None => {},
        }
        i = i + 1;
    }
    proof {
        assert(items@.take(items@.len() as int) =~= items@);
    }
    Ok(v)
}

// ---------------------------------------------------------------------------
// The children of a page.
// ---------------------------------------------------------------------------

/// How a child collection appears on its parent's page: under its directory
/// name, with its thumbnail re-rooted from the parent's directory into the
/// child's `thumbnails` directory.
pub open spec fn spec_child(c: Collection) -> ChildV {
    ChildV {
        path: c.path@.last(),
        thumbnail: c.thumbnail@.skip(c.path@.len() - 1).drop_last().push("thumbnails"@).push(
            c.thumbnail@.last(),
        ),
        title: c.metadata.title@,
    }
}

pub open spec fn children_of(cs: Seq<Collection>) -> Seq<ChildV> {
    Seq::new(cs.len(), |i: int| spec_child(cs[i]))
}

/// The children for one page, before sorting.  Fails only where a child's
/// paths do not relate as the scan guarantees.
fn build_children(cs: &Vec<Collection>) -> (r: Result<Vec<Child>, Error>)
    ensures
        r is Ok <==> (forall|i: int| 0 <= i < cs@.len() ==> child_shape_ok(#[trigger] cs@[i])),
        r matches Ok(v) ==> children_view(v@) == children_of(cs@),
        r matches Err(e) ==> e == Error::InvalidPath,
{
    let mut v: Vec<Child> = Vec::new();
    let mut i: usize = 0;
    while i < cs.len()
        invariant
            i <= cs@.len(),
            forall|j: int| 0 <= j < i ==> child_shape_ok(#[trigger] cs@[j]),
            v@.len() == i,
            forall|j: int| 0 <= j < i ==> (#[trigger] v@[j])@ == spec_child(cs@[j]),
        decreases cs@.len() - i,
    {
        let c = &cs[i];
        let parent = match c.path.parent() {
            Some(p) => p,
            None => {
                return Err(Error::InvalidPath);
            },
        };
        let filename = match c.thumbnail.file_name() {
            Some(n) => n.clone(),
            None => {
                proof {
                    assert(!child_shape_ok(cs@[i as int]));
                }
                return Err(Error::InvalidPath);
            },
        };
        let stripped = match c.thumbnail.strip_prefix(&parent) {
            Ok(s) => s,
            Err(_) => {
                return Err(Error::InvalidPath);
            },
        };
        let spar = match stripped.parent() {
            Some(p) => p,
            None => {
                proof {
                    assert(c.thumbnail@.len() == parent@.len());
                    assert(!child_shape_ok(cs@[i as int]));
                }
                return Err(Error::InvalidPath);
            },
        };
        let thumbnail = spar.join("thumbnails").join(filename.as_str());
        let subdir = match c.path.file_name() {
            Some(n) => n.clone(),
            None => {
                proof {
                    assert(false);
                }
                return Err(Error::InvalidPath);
            },
        };
        let child = Child { thumbnail, path: subdir, title: c.metadata.title.clone() };
        proof {
            assert(child@ =~~= spec_child(cs@[i as int]));
        }
        v.push(child);
        i = i + 1;
    }
    proof {
        assert(children_view(v@) =~= children_of(cs@));
    }
    Ok(v)
}

// ---------------------------------------------------------------------------
// The render walk.
// ---------------------------------------------------------------------------

/// The breadcrumb links of a trail: forward order kept, and the element at
/// reverse-distance `d` from the end climbing `d` directories.
pub open spec fn links_of(trail: Seq<Seq<char>>) -> Seq<LinkV> {
    Seq::new(
        trail.len(),
        |i: int| LinkV { title: trail[i], path: rel_up((trail.len() - 1 - i) as nat) },
    )
}

/// The relative path from a page to the shared static assets: up to the
/// output root, then into `static`.
pub open spec fn theme_of(outdir: Seq<Seq<char>>) -> Seq<Seq<char>> {
    Seq::new(
        if outdir.len() == 0 {
            0
        } else {
            (outdir.len() - 1) as nat
        },
        |i: int| ".."@,
    ).push("static"@)
}

/// The page one collection gets.
pub open spec fn spec_page(
    c: Collection,
    trail: Seq<Seq<char>>,
    outdir: Seq<Seq<char>>,
    dims: Seq<Dim>,
) -> PageV {
    PageV {
        output_dir: outdir,
        context: OutputV {
            title: c.metadata.title@,
            description: c.metadata.description@,
            breadcrumbs: links_of(trail),
            children: sort_children(children_of(c.collections@)),
            images: sort_images(images_of(c.items@, dims)),
        },
        theme_path: theme_of(outdir),
    }
}

/// Every page of a subtree: the children's pages first (in order, each
/// child rendered one directory deeper with its name on the trail), then
/// the collection's own page.
pub open spec fn spec_pages(
    c: Collection,
    trail: Seq<Seq<char>>,
    outdir: Seq<Seq<char>>,
    dims: Seq<Dim>,
) -> Seq<PageV>
    decreases c,
{
    child_pages(c.collections@, trail, outdir, dims) + seq![spec_page(c, trail, outdir, dims)]
}

pub open spec fn child_pages(
    cs: Seq<Collection>,
    trail: Seq<Seq<char>>,
    outdir: Seq<Seq<char>>,
    dims: Seq<Dim>,
) -> Seq<PageV>
    decreases cs,
{
    if cs.len() == 0 {
        Seq::empty()
    } else {
        let name = cs[0].path@.last();
        spec_pages(cs[0], trail.push(name), outdir.push(name), dims) + child_pages(
            cs.drop_first(),
            trail,
            outdir,
            dims,
        )
    }
}

proof fn lemma_child_pages_take(
    cs: Seq<Collection>,
    i: int,
    trail: Seq<Seq<char>>,
    outdir: Seq<Seq<char>>,
    dims: Seq<Dim>,
)
    requires
        0 <= i < cs.len(),
    ensures
        child_pages(cs.take(i + 1), trail, outdir, dims) == child_pages(cs.take(i), trail, outdir, dims)
            + spec_pages(
            cs[i],
            trail.push(cs[i].path@.last()),
            outdir.push(cs[i].path@.last()),
            dims,
        ),
    decreases i,
{
    let name = cs[i].path@.last();
    if i == 0 {
        let s1 = cs.take(1);
        assert(s1.len() == 1);
        assert(s1[0] == cs[0]);
        assert(s1.drop_first() =~= cs.take(0));
        assert(cs.take(0).len() == 0);
        assert(child_pages(cs.take(0), trail, outdir, dims) == Seq::<PageV>::empty());
        assert(child_pages(s1, trail, outdir, dims) == spec_pages(
            cs[0],
            trail.push(name),
            outdir.push(name),
            dims,
        ) + child_pages(s1.drop_first(), trail, outdir, dims));
        assert(spec_pages(cs[0], trail.push(name), outdir.push(name), dims)
            + Seq::<PageV>::empty() =~= spec_pages(cs[0], trail.push(name), outdir.push(name), dims));
        assert(Seq::<PageV>::empty() + spec_pages(cs[0], trail.push(name), outdir.push(name), dims)
            =~= spec_pages(cs[0], trail.push(name), outdir.push(name), dims));
    } else {
        lemma_child_pages_take(cs.drop_first(), i - 1, trail, outdir, dims);
        let name0 = cs[0].path@.last();
        assert(cs.take(i + 1)[0] == cs[0]);
        assert(cs.take(i)[0] == cs[0]);
        assert(cs.take(i + 1).drop_first() =~= cs.drop_first().take(i));
        assert(cs.take(i).drop_first() =~= cs.drop_first().take(i - 1));
        assert(cs.drop_first()[i - 1] == cs[i]);
        let head = spec_pages(cs[0], trail.push(name0), outdir.push(name0), dims);
        let mid = child_pages(cs.drop_first().take(i - 1), trail, outdir, dims);
        let tail = spec_pages(cs[i], trail.push(name), outdir.push(name), dims);
        assert(head + (mid + tail) =~= (head + mid) + tail);
    }
}

/// Walk the tree, post-order on children, and emit one page per collection:
/// children first, each one directory deeper with its name pushed onto the
/// breadcrumb trail and popped on return, then the collection's own page,
/// its images sorted by thumbnail path and its children sorted by title
/// descending.  Fails only on a malformed tree; an item whose dimensions
/// are unknown is left off its page without failing.
pub fn write_tree(
    c: &Collection,
    breadcrumbs: &mut Vec<String>,
    output_dir: &RelPath,
    dims: &Vec<Dim>,
) -> (r: Result<Vec<Page>, Error>)
    ensures
        r is Ok <==> wf_collection(*c),
        r matches Ok(pages) ==> pages_view(pages@) == spec_pages(
            *c,
            strs_view(old(breadcrumbs)@),
            output_dir@,
            dims@,
        ),
        r is Ok ==> strs_view(final(breadcrumbs)@) == strs_view(old(breadcrumbs)@),
        r matches Err(e) ==> e == Error::InvalidPath,
    decreases *c,
{
    let ghost trail = strs_view(breadcrumbs@);
    let mut pages: Vec<Page> = Vec::new();
    let mut k: usize = 0;
    proof {
        assert(c.collections@.take(0) =~= Seq::<Collection>::empty());
        assert(pages_view(pages@) =~= child_pages(c.collections@.take(0), trail, output_dir@, dims@));
    }
    while k < c.collections.len()
        invariant
            k <= c.collections@.len(),
            trail == strs_view(breadcrumbs@),
            pages_view(pages@) == child_pages(c.collections@.take(k as int), trail, output_dir@, dims@),
            forall|j: int| 0 <= j < k ==> wf_collection(#[trigger] c.collections@[j]),
        decreases c.collections@.len() - k,
    {
        let child = &c.collections[k];
        let name = match child.path.file_name() {
            Some(n) => n.clone(),
            None => {
                proof {
                    assert(!child_shape_ok(c.collections@[k as int]));
                    if wf_children(c.collections@) {
                        lemma_wf_children_index(c.collections@, k as int);
                    }
                }
                return Err(Error::InvalidPath);
            },
        };
        let child_out = output_dir.join(name.as_str());
        let ghost namev = name@;
        let ghost btrail = breadcrumbs@;
        breadcrumbs.push(name);
        proof {
            assert(strs_view(breadcrumbs@) =~= trail.push(namev));
        }
        let sub = match write_tree(child, breadcrumbs, &child_out, dims) {
            Ok(s) => s,
            Err(e) => {
                proof {
                    if wf_children(c.collections@) {
                        lemma_wf_children_index(c.collections@, k as int);
                    }
                }
                return Err(e);
            },
        };
        let ghost after = breadcrumbs@;
        breadcrumbs.pop();
        proof {
            assert(strs_view(after) == trail.push(namev));
            assert(after.len() == strs_view(after).len());
            assert(forall|j: int|
                0 <= j < after.len() ==> strs_view(after)[j] == (#[trigger] after[j])@);
            assert(breadcrumbs@ =~= after.drop_last());
            assert(strs_view(breadcrumbs@) =~= trail);
        }
        let ghost base = pages_view(pages@);
        let ghost subv = pages_view(sub@);
        let mut sub = sub;
        pages.append(&mut sub);
        proof {
            assert(pages_view(pages@) =~= base + subv);
            assert(c.collections@.take(k as int + 1) =~= c.collections@.take(k as int).push(
                c.collections@[k as int],
            ));
            lemma_child_pages_take(c.collections@, k as int, trail, output_dir@, dims@);
            assert(namev == c.collections@[k as int].path@.last());
            assert(pages_view(pages@) =~= child_pages(
                c.collections@.take(k as int + 1),
                trail,
                output_dir@,
                dims@,
            ));
        }
        k = k + 1;
    }
    proof {
        assert(c.collections@.take(c.collections@.len() as int) =~= c.collections@);
    }
    let images_raw = match build_images(&c.items, dims) {
        Ok(v) => v,
        Err(e) => {
            return Err(e);
        },
    };
    let images = sort_images_exec(&images_raw);
    let children_raw = match build_children(&c.collections) {
        Ok(v) => v,
        Err(e) => {
            proof {
                if wf_collection(*c) {
                    assert forall|i: int|
                        0 <= i < c.collections@.len() implies child_shape_ok(
                        #[trigger] c.collections@[i],
                    ) by {
                        lemma_wf_children_index(c.collections@, i);
                    }
                    assert(false);
                }
            }
            return Err(e);
        },
    };
    let children = sort_children_exec(&children_raw);
    let links = breadcrumbs_to_links(breadcrumbs);
    let theme_path = output_path_to_root(output_dir).join("static");
    let context = Output {
        title: c.metadata.title.clone(),
        description: c.metadata.description.clone(),
        breadcrumbs: links,
        children,
        images,
    };
    let page = Page { output_dir: output_dir.clone(), context, theme_path };
    proof {
        assert(page@.context.breadcrumbs =~= links_of(trail));
        assert(page@.theme_path =~= theme_of(output_dir@));
        assert(page@ =~~= spec_page(*c, trail, output_dir@, dims@));
        assert(forall|j: int|
            0 <= j < c.collections@.len() ==> child_shape_ok(#[trigger] c.collections@[j])
                && wf_collection(c.collections@[j]));
        lemma_wf_children_build(c.collections@);
    }
    let ghost base = pages_view(pages@);
    pages.push(page);
    proof {
        assert(pages_view(pages@) =~= base.push(spec_page(*c, trail, output_dir@, dims@)));
        assert(base.push(spec_page(*c, trail, output_dir@, dims@)) =~= child_pages(
            c.collections@,
            trail,
            output_dir@,
            dims@,
        ) + seq![spec_page(*c, trail, output_dir@, dims@)]);
    }
    Ok(pages)
}

// ---------------------------------------------------------------------------
// Order laws: the three-way comparisons are transitive and antisymmetric,
// and each sort returns a sorted permutation of its input.
// ---------------------------------------------------------------------------

proof fn lemma_str_cmp_trans(a: Seq<char>, b: Seq<char>, c: Seq<char>)
    requires
        str_cmp(a, b) <= 0,
        str_cmp(b, c) <= 0,
    ensures
        str_cmp(a, c) <= 0,
        (str_cmp(a, b) < 0 || str_cmp(b, c) < 0) ==> str_cmp(a, c) < 0,
    decreases a.len(),
{
    if a.len() == 0 {
        if c.len() == 0 {
            assert(b.len() == 0);
        }
    } else {
        assert(b.len() > 0);
        assert(c.len() > 0);
        if (a[0] as u32) == (c[0] as u32) {
            assert((a[0] as u32) == (b[0] as u32));
            assert((b[0] as u32) == (c[0] as u32));
            lemma_str_cmp_trans(a.drop_first(), b.drop_first(), c.drop_first());
        }
    }
}

proof fn lemma_str_cmp_antisym(a: Seq<char>, b: Seq<char>)
    ensures
        str_cmp(a, b) == -str_cmp(b, a),
    decreases a.len(),
{
    if a.len() > 0 && b.len() > 0 && (a[0] as u32) == (b[0] as u32) {
        lemma_str_cmp_antisym(a.drop_first(), b.drop_first());
    }
}

proof fn lemma_path_cmp_trans(a: Seq<Seq<char>>, b: Seq<Seq<char>>, c: Seq<Seq<char>>)
    requires
        path_cmp(a, b) <= 0,
        path_cmp(b, c) <= 0,
    ensures
        path_cmp(a, c) <= 0,
    decreases a.len(),
{
    if a.len() == 0 {
    } else {
        assert(b.len() > 0);
        assert(c.len() > 0);
        assert(str_cmp(a[0], b[0]) <= 0);
        assert(str_cmp(b[0], c[0]) <= 0);
        lemma_str_cmp_trans(a[0], b[0], c[0]);
        if str_cmp(a[0], c[0]) == 0 {
            assert(str_cmp(a[0], b[0]) == 0);
            assert(str_cmp(b[0], c[0]) == 0);
            lemma_path_cmp_trans(a.drop_first(), b.drop_first(), c.drop_first());
        }
    }
}

proof fn lemma_path_cmp_antisym(a: Seq<Seq<char>>, b: Seq<Seq<char>>)
    ensures
        path_cmp(a, b) == -path_cmp(b, a),
    decreases a.len(),
{
    if a.len() > 0 && b.len() > 0 {
        lemma_str_cmp_antisym(a[0], b[0]);
        if str_cmp(a[0], b[0]) == 0 {
            lemma_path_cmp_antisym(a.drop_first(), b.drop_first());
        }
    }
}

/// Ascending by thumbnail path, every pair in order.
pub open spec fn images_sorted(s: Seq<ImageV>) -> bool {
    forall|i: int, j: int|
        0 <= i < j < s.len() ==> path_cmp((#[trigger] s[i]).thumbnail, (#[trigger] s[j]).thumbnail)
            <= 0
}

/// Descending by title, every pair in order.
pub open spec fn children_sorted(s: Seq<ChildV>) -> bool {
    forall|i: int, j: int|
        0 <= i < j < s.len() ==> str_cmp((#[trigger] s[j]).title, (#[trigger] s[i]).title) <= 0
}

proof fn lemma_insert_image_low(b: ImageV, x: ImageV, s: Seq<ImageV>)
    requires
        path_cmp(b.thumbnail, x.thumbnail) <= 0,
        forall|i: int|
            0 <= i < s.len() ==> path_cmp(b.thumbnail, (#[trigger] s[i]).thumbnail) <= 0,
    ensures
        forall|i: int|
            0 <= i < insert_image(x, s).len() ==> path_cmp(
                b.thumbnail,
                (#[trigger] insert_image(x, s)[i]).thumbnail,
            ) <= 0,
    decreases s.len(),
{
    if s.len() == 0 {
    } else if path_cmp(x.thumbnail, s[0].thumbnail) <= 0 {
    } else {
        lemma_insert_image_low(b, x, s.drop_first());
        assert(forall|i: int|
            0 <= i < s.drop_first().len() ==> s.drop_first()[i] == s[i + 1]);
        let r = seq![s[0]] + insert_image(x, s.drop_first());
        assert(insert_image(x, s) == r);
        assert forall|i: int| 0 <= i < r.len() implies path_cmp(
            b.thumbnail,
            (#[trigger] r[i]).thumbnail,
        ) <= 0 by {
            if i > 0 {
                assert(r[i] == insert_image(x, s.drop_first())[i - 1]);
            }
        }
    }
}

proof fn lemma_insert_image_sorted(x: ImageV, s: Seq<ImageV>)
    requires
        images_sorted(s),
    ensures
        images_sorted(insert_image(x, s)),
    decreases s.len(),
{
    if s.len() == 0 {
    } else if path_cmp(x.thumbnail, s[0].thumbnail) <= 0 {
        let r = seq![x] + s;
        assert forall|i: int, j: int| 0 <= i < j < r.len() implies path_cmp(
            (#[trigger] r[i]).thumbnail,
            (#[trigger] r[j]).thumbnail,
        ) <= 0 by {
            if i == 0 {
                if j > 1 {
                    lemma_path_cmp_trans(x.thumbnail, s[0].thumbnail, s[j - 1].thumbnail);
                }
            }
        }
    } else {
        let tail = s.drop_first();
        assert(forall|i: int| 0 <= i < tail.len() ==> tail[i] == s[i + 1]);
        lemma_insert_image_sorted(x, tail);
        lemma_path_cmp_antisym(x.thumbnail, s[0].thumbnail);
        lemma_insert_image_low(s[0], x, tail);
        let r = seq![s[0]] + insert_image(x, tail);
        assert forall|i: int, j: int| 0 <= i < j < r.len() implies path_cmp(
            (#[trigger] r[i]).thumbnail,
            (#[trigger] r[j]).thumbnail,
        ) <= 0 by {
            if i > 0 {
                assert(r[i] == insert_image(x, tail)[i - 1]);
                assert(r[j] == insert_image(x, tail)[j - 1]);
            }
        }
    }
}

proof fn lemma_insert_image_multiset(x: ImageV, s: Seq<ImageV>)
    ensures
        insert_image(x, s).to_multiset() == s.to_multiset().insert(x),
    decreases s.len(),
{
    broadcast use vstd::seq_lib::group_to_multiset_ensures;

    if s.len() == 0 {
        assert(seq![x] =~= Seq::<ImageV>::empty().push(x));
        assert(insert_image(x, s).to_multiset() =~= s.to_multiset().insert(x));
    } else if path_cmp(x.thumbnail, s[0].thumbnail) <= 0 {
        vstd::seq_lib::lemma_multiset_commutative(seq![x], s);
        assert(seq![x] =~= Seq::<ImageV>::empty().push(x));
        assert(insert_image(x, s).to_multiset() =~= s.to_multiset().insert(x));
    } else {
        let tail = s.drop_first();
        lemma_insert_image_multiset(x, tail);
        vstd::seq_lib::lemma_multiset_commutative(seq![s[0]], insert_image(x, tail));
        vstd::seq_lib::lemma_multiset_commutative(seq![s[0]], tail);
        assert(seq![s[0]] =~= Seq::<ImageV>::empty().push(s[0]));
        assert(s =~= seq![s[0]] + tail);
        assert(insert_image(x, s).to_multiset() =~= s.to_multiset().insert(x));
    }
}

/// The image sort really sorts: its result is ascending by thumbnail path
/// and holds exactly the input's images.
pub proof fn lemma_sort_images_sorted(s: Seq<ImageV>)
    ensures
        images_sorted(sort_images(s)),
        sort_images(s).to_multiset() == s.to_multiset(),
    decreases s.len(),
{
    broadcast use vstd::seq_lib::group_to_multiset_ensures;

    if s.len() == 0 {
        assert(sort_images(s) =~= s);
    } else {
        let tail = s.drop_first();
        lemma_sort_images_sorted(tail);
        lemma_insert_image_sorted(s[0], sort_images(tail));
        lemma_insert_image_multiset(s[0], sort_images(tail));
        vstd::seq_lib::lemma_multiset_commutative(seq![s[0]], tail);
        assert(seq![s[0]] =~= Seq::<ImageV>::empty().push(s[0]));
        assert(s =~= seq![s[0]] + tail);
        assert(sort_images(s).to_multiset() =~= s.to_multiset());
    }
}

proof fn lemma_insert_child_low(b: ChildV, x: ChildV, s: Seq<ChildV>)
    requires
        str_cmp(x.title, b.title) <= 0,
        forall|i: int| 0 <= i < s.len() ==> str_cmp((#[trigger] s[i]).title, b.title) <= 0,
    ensures
        forall|i: int|
            0 <= i < insert_child(x, s).len() ==> str_cmp(
                (#[trigger] insert_child(x, s)[i]).title,
                b.title,
            ) <= 0,
    decreases s.len(),
{
    if s.len() == 0 {
    } else if str_cmp(s[0].title, x.title) <= 0 {
    } else {
        lemma_insert_child_low(b, x, s.drop_first());
        assert(forall|i: int|
            0 <= i < s.drop_first().len() ==> s.drop_first()[i] == s[i + 1]);
        let r = seq![s[0]] + insert_child(x, s.drop_first());
        assert(insert_child(x, s) == r);
        assert forall|i: int| 0 <= i < r.len() implies str_cmp(
            (#[trigger] r[i]).title,
            b.title,
        ) <= 0 by {
            if i > 0 {
                assert(r[i] == insert_child(x, s.drop_first())[i - 1]);
            }
        }
    }
}

proof fn lemma_insert_child_sorted(x: ChildV, s: Seq<ChildV>)
    requires
        children_sorted(s),
    ensures
        children_sorted(insert_child(x, s)),
    decreases s.len(),
{
    if s.len() == 0 {
    } else if str_cmp(s[0].title, x.title) <= 0 {
        let r = seq![x] + s;
        assert forall|i: int, j: int| 0 <= i < j < r.len() implies str_cmp(
            (#[trigger] r[j]).title,
            (#[trigger] r[i]).title,
        ) <= 0 by {
            if i == 0 {
                if j > 1 {
                    lemma_str_cmp_trans(s[j - 1].title, s[0].title, x.title);
                }
            }
        }
    } else {
        let tail = s.drop_first();
        assert(forall|i: int| 0 <= i < tail.len() ==> tail[i] == s[i + 1]);
        lemma_insert_child_sorted(x, tail);
        lemma_str_cmp_antisym(s[0].title, x.title);
        lemma_insert_child_low(s[0], x, tail);
        let r = seq![s[0]] + insert_child(x, tail);
        assert forall|i: int, j: int| 0 <= i < j < r.len() implies str_cmp(
            (#[trigger] r[j]).title,
            (#[trigger] r[i]).title,
        ) <= 0 by {
            if i > 0 {
                assert(r[i] == insert_child(x, tail)[i - 1]);
                assert(r[j] == insert_child(x, tail)[j - 1]);
            }
        }
    }
}

proof fn lemma_insert_child_multiset(x: ChildV, s: Seq<ChildV>)
    ensures
        insert_child(x, s).to_multiset() == s.to_multiset().insert(x),
    decreases s.len(),
{
    broadcast use vstd::seq_lib::group_to_multiset_ensures;

    if s.len() == 0 {
        assert(seq![x] =~= Seq::<ChildV>::empty().push(x));
        assert(insert_child(x, s).to_multiset() =~= s.to_multiset().insert(x));
    } else if str_cmp(s[0].title, x.title) <= 0 {
        vstd::seq_lib::lemma_multiset_commutative(seq![x], s);
        assert(seq![x] =~= Seq::<ChildV>::empty().push(x));
        assert(insert_child(x, s).to_multiset() =~= s.to_multiset().insert(x));
    } else {
        let tail = s.drop_first();
        lemma_insert_child_multiset(x, tail);
        vstd::seq_lib::lemma_multiset_commutative(seq![s[0]], insert_child(x, tail));
        vstd::seq_lib::lemma_multiset_commutative(seq![s[0]], tail);
        assert(seq![s[0]] =~= Seq::<ChildV>::empty().push(s[0]));
        assert(s =~= seq![s[0]] + tail);
        assert(insert_child(x, s).to_multiset() =~= s.to_multiset().insert(x));
    }
}

/// The child sort really sorts: its result is descending by title and holds
/// exactly the input's children.
pub proof fn lemma_sort_children_sorted(s: Seq<ChildV>)
    ensures
        children_sorted(sort_children(s)),
        sort_children(s).to_multiset() == s.to_multiset(),
    decreases s.len(),
{
    broadcast use vstd::seq_lib::group_to_multiset_ensures;

    if s.len() == 0 {
        assert(sort_children(s) =~= s);
    } else {
        let tail = s.drop_first();
        lemma_sort_children_sorted(tail);
        lemma_insert_child_sorted(s[0], sort_children(tail));
        lemma_insert_child_multiset(s[0], sort_children(tail));
        vstd::seq_lib::lemma_multiset_commutative(seq![s[0]], tail);
        assert(seq![s[0]] =~= Seq::<ChildV>::empty().push(s[0]));
        assert(s =~= seq![s[0]] + tail);
        assert(sort_children(s).to_multiset() =~= s.to_multiset());
    }
}

} // verus!
