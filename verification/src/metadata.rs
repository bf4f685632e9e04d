use vstd::prelude::*;
use vstd::string::*;
use crate::fsmodel::{index_content, seg_exists, DirNode, FsEntry};
use crate::paths::{path_to_string, strs_view, RelPath};

verus! {

// ---------------------------------------------------------------------------
// A collection's metadata, read from the description file at the root of its
// directory.  The file is a leading run of `Key: value` header lines followed
// by a free-text body; the body is rendered to HTML by the markdown
// converter.
// ---------------------------------------------------------------------------

#[derive(Debug)]
pub struct Metadata {
    /// Free-text description, already rendered to HTML.
    pub description: String,
    /// Title; the directory name unless a `Title` header overrides it.
    pub title: String,
    /// Thumbnail override from a `Thumbnail` header, kept only when the named
    /// file exists in the collection's directory tree.
    pub thumbnail: Option<RelPath>,
}

// ---------------------------------------------------------------------------
// What the markdown converter returns.
// ---------------------------------------------------------------------------

/// The HTML rendering of a markdown text.  Stated, not defined: the library
/// relies on the converter for its value and never re-derives it.
pub uninterp spec fn html_of(text: Seq<char>) -> Seq<char>;

/// Relies on `pulldown_cmark::Parser::new` and `pulldown_cmark::html::push_html`:
/// CommonMark conversion to HTML, a function of the input text alone.
#[verifier::external_body]
fn markdown_to_html(text: &str) -> (r: String)
    ensures
        r@ == html_of(text@),
{
    let mut out = String::new();
    pulldown_cmark::html::push_html(&mut out, pulldown_cmark::Parser::new(text));
    out
}

// ---------------------------------------------------------------------------
// Splitting text into lines, as the build reads description files: lines end
// at `\n`, a `\r` directly before the `\n` is dropped, and a final line
// without `\n` still counts.
// ---------------------------------------------------------------------------

/// The first position at or after `from` holding `c`.
pub open spec fn first_at(s: Seq<char>, from: int, c: char) -> Option<int>
    decreases s.len() - from,
{
    if from < 0 || from >= s.len() {
        None
    } else if s[from] == c {
        Some(from)
    } else {
        first_at(s, from + 1, c)
    }
}

pub open spec fn strip_cr(line: Seq<char>) -> Seq<char> {
    if line.len() > 0 && line.last() == '\r' {
        line.drop_last()
    } else {
        line
    }
}

pub open spec fn spec_lines(s: Seq<char>) -> Seq<Seq<char>>
    decreases s.len(),
{
    if s.len() == 0 {
        Seq::empty()
    } else {
        match first_at(s, 0, '\n') {
            None => seq![s],
            Some(i) => if 0 <= i < s.len() {
                seq![strip_cr(s.take(i))] + spec_lines(s.skip(i + 1))
            } else {
                seq![s]
            },
        }
    }
}

/// The pieces of `v` between `/` separators, empty pieces dropped.
pub open spec fn split_slash(v: Seq<char>) -> Seq<Seq<char>>
    decreases v.len(),
{
    if v.len() == 0 {
        Seq::empty()
    } else {
        match first_at(v, 0, '/') {
            None => seq![v],
            Some(i) => if 0 <= i < v.len() {
                let rest = split_slash(v.skip(i + 1));
                if i == 0 {
                    rest
                } else {
                    seq![v.take(i)] + rest
                }
            } else {
                seq![v]
            },
        }
    }
}

pub(crate) proof fn lemma_first_at_some(s: Seq<char>, c: char, a: int, p: int)
    requires
        0 <= a <= p < s.len(),
        s[p] == c,
        forall|q: int| a <= q < p ==> s[q] != c,
    ensures
        first_at(s, a, c) == Some(p),
    decreases p - a,
{
    if a < p {
        lemma_first_at_some(s, c, a + 1, p);
    }
}

pub(crate) proof fn lemma_first_at_none(s: Seq<char>, c: char, a: int)
    requires
        0 <= a,
        forall|q: int| a <= q < s.len() ==> s[q] != c,
    ensures
        first_at(s, a, c) == None::<int>,
    decreases s.len() - a,
{
    if a < s.len() {
        lemma_first_at_none(s, c, a + 1);
    }
}

/// The first position at or after `from` holding `c`, by scanning.
pub(crate) fn find_char(s: &str, from: usize, c: char) -> (r: Option<usize>)
    requires
        from <= s@.len(),
    ensures
        match r {
            Some(i) => from <= i < s@.len() && s@[i as int] == c && (forall|q: int|
                from <= q < i ==> s@[q] != c),
            None => forall|q: int| from <= q < s@.len() ==> s@[q] != c,
        },
{
    let n = s.unicode_len();
    let mut k: usize = from;
    while k < n
        invariant
            from <= k <= n,
            n == s@.len(),
            forall|q: int| from <= q < k ==> s@[q] != c,
        decreases n - k,
    {
        if s.get_char(k) == c {
            return Some(k);
        }
        k = k + 1;
    }
    None
}

/// Split a text into its lines.
pub fn split_lines(content: &str) -> (r: Vec<String>)
    ensures
        strs_view(r@) == spec_lines(content@),
{
    let n = content.unicode_len();
    let mut r: Vec<String> = Vec::new();
    let mut start: usize = 0;
    proof {
        assert(content@.skip(0) =~= content@);
        assert(strs_view(r@) + spec_lines(content@) =~= spec_lines(content@));
    }
    while start < n
        invariant
            start <= n,
            n == content@.len(),
            spec_lines(content@) == strs_view(r@) + spec_lines(content@.skip(start as int)),
        decreases n - start,
    {
        let ghost s0 = start as int;
        let ghost tail = content@.skip(s0);
        let ghost before = r@;
        match find_char(content, start, '\n') {
            Some(i) => {
                proof {
                    assert(tail[i - s0] == content@[i as int]);
                    assert(forall|q: int| 0 <= q < i - s0 ==> tail[q] == content@[s0 + q]);
                    lemma_first_at_some(tail, '\n', 0, i - s0);
                }
                let line_end: usize = if i > start && content.get_char(i - 1) == '\r' {
                    i - 1
                } else {
                    i
                };
                let piece = content.substring_char(start, line_end).to_owned();
                proof {
                    assert(tail.take(i - s0) =~= content@.subrange(s0, i as int));
                    if i > start && content@[i - 1] == '\r' {
                        assert(tail.take(i - s0).drop_last() =~= content@.subrange(s0, i - 1));
                    }
                    assert(piece@ == strip_cr(tail.take(i - s0)));
                    assert(tail.skip(i - s0 + 1) =~= content@.skip(i + 1));
                }
                r.push(piece);
                start = i + 1;
                proof {
                    assert(strs_view(r@) =~= strs_view(before).push(strip_cr(tail.take(i - s0))));
                    assert(spec_lines(tail) == seq![strip_cr(tail.take(i - s0))] + spec_lines(
                        tail.skip(i - s0 + 1),
                    ));
                    assert(spec_lines(content@) =~= strs_view(r@) + spec_lines(content@.skip(
                        start as int,
                    )));
                }
            },
            None => {
                proof {
                    lemma_first_at_none(tail, '\n', 0);
                }
                let piece = content.substring_char(start, n).to_owned();
                proof {
                    assert(piece@ =~= tail);
                }
                r.push(piece);
                start = n;
                proof {
                    assert(strs_view(r@) =~= strs_view(before).push(tail));
                    assert(spec_lines(content@) =~= strs_view(r@) + spec_lines(content@.skip(
                        n as int,
                    )));
                }
            },
        }
    }
    proof {
        assert(spec_lines(content@.skip(n as int)).len() == 0);
        assert(spec_lines(content@) =~= strs_view(r@));
    }
    r
}

/// Split a `/`-separated path string into its nonempty pieces.
pub fn split_slash_exec(v: &str) -> (r: Vec<String>)
    ensures
        strs_view(r@) == split_slash(v@),
{
    let n = v.unicode_len();
    let mut r: Vec<String> = Vec::new();
    let mut start: usize = 0;
    proof {
        assert(v@.skip(0) =~= v@);
        assert(strs_view(r@) + split_slash(v@) =~= split_slash(v@));
    }
    while start < n
        invariant
            start <= n,
            n == v@.len(),
            split_slash(v@) == strs_view(r@) + split_slash(v@.skip(start as int)),
        decreases n - start,
    {
        let ghost s0 = start as int;
        let ghost tail = v@.skip(s0);
        let ghost before = r@;
        match find_char(v, start, '/') {
            Some(i) => {
                proof {
                    assert(tail[i - s0] == v@[i as int]);
                    assert(forall|q: int| 0 <= q < i - s0 ==> tail[q] == v@[s0 + q]);
                    lemma_first_at_some(tail, '/', 0, i - s0);
                    assert(tail.take(i - s0) =~= v@.subrange(s0, i as int));
                    assert(tail.skip(i - s0 + 1) =~= v@.skip(i + 1));
                }
                if i > start {
                    let piece = v.substring_char(start, i).to_owned();
                    r.push(piece);
                    proof {
                        assert(strs_view(r@) =~= strs_view(before).push(tail.take(i - s0)));
                    }
                }
                start = i + 1;
                proof {
                    assert(split_slash(tail) == (if i - s0 == 0 {
                        split_slash(tail.skip(i - s0 + 1))
                    } else {
                        seq![tail.take(i - s0)] + split_slash(tail.skip(i - s0 + 1))
                    }));
                    assert(split_slash(v@) =~= strs_view(r@) + split_slash(v@.skip(start as int)));
                }
            },
            None => {
                proof {
                    lemma_first_at_none(tail, '/', 0);
                }
                let piece = v.substring_char(start, n).to_owned();
                proof {
                    assert(piece@ =~= tail);
                }
                r.push(piece);
                start = n;
                proof {
                    assert(strs_view(r@) =~= strs_view(before).push(tail));
                    assert(split_slash(v@) =~= strs_view(r@) + split_slash(v@.skip(n as int)));
                }
            },
        }
    }
    proof {
        assert(split_slash(v@.skip(n as int)).len() == 0);
        assert(split_slash(v@) =~= strs_view(r@));
    }
    r
}

// ---------------------------------------------------------------------------
// Header lines.  A line carries a `Key: value` header when somewhere in it a
// run of letters is directly followed by `: ` and at least one more
// character; the earliest such run wins, the key is the run and the value is
// everything after the `: `.
// ---------------------------------------------------------------------------

pub open spec fn is_alpha(c: char) -> bool {
    ('a' <= c && c <= 'z') || ('A' <= c && c <= 'Z')
}

/// The end of the run of letters that starts at `p`.
pub open spec fn run_end(s: Seq<char>, p: int) -> int
    decreases s.len() - p,
{
    if 0 <= p < s.len() && is_alpha(s[p]) {
        run_end(s, p + 1)
    } else {
        p
    }
}

/// Whether a header match starts at position `p`.
pub open spec fn match_at(s: Seq<char>, p: int) -> bool {
    &&& 0 <= p < s.len()
    &&& is_alpha(s[p])
    &&& {
        let r = run_end(s, p);
        r + 2 < s.len() && s[r] == ':' && s[r + 1] == ' '
    }
}

pub open spec fn first_match_from(s: Seq<char>, p: int) -> Option<int>
    decreases s.len() - p,
{
    if p < 0 || p >= s.len() {
        None
    } else if match_at(s, p) {
        Some(p)
    } else {
        first_match_from(s, p + 1)
    }
}

/// The key and value of the line's header, if the line carries one.
pub open spec fn spec_header(s: Seq<char>) -> Option<(Seq<char>, Seq<char>)> {
    match first_match_from(s, 0) {
        Some(p) => {
            let r = run_end(s, p);
            Some((s.subrange(p, r), s.skip(r + 2)))
        },
        None => None,
    }
}

proof fn lemma_first_match_some(s: Seq<char>, a: int, p: int)
    requires
        0 <= a <= p,
        match_at(s, p),
        forall|q: int| a <= q < p ==> !match_at(s, q),
    ensures
        first_match_from(s, a) == Some(p),
    decreases p - a,
{
    if a < p {
        lemma_first_match_some(s, a + 1, p);
    }
}

proof fn lemma_first_match_none(s: Seq<char>, a: int)
    requires
        0 <= a,
        forall|q: int| a <= q < s.len() ==> !match_at(s, q),
    ensures
        first_match_from(s, a) == None::<int>,
    decreases s.len() - a,
{
    if a < s.len() {
        lemma_first_match_none(s, a + 1);
    }
}

fn is_alpha_char(c: char) -> (r: bool)
    ensures
        r == is_alpha(c),
{
    ('a' <= c && c <= 'z') || ('A' <= c && c <= 'Z')
}

fn run_end_exec(line: &str, p: usize) -> (r: usize)
    requires
        p <= line@.len(),
    ensures
        r == run_end(line@, p as int),
        p <= r <= line@.len(),
{
    let n = line.unicode_len();
    let mut k: usize = p;
    while k < n && is_alpha_char(line.get_char(k))
        invariant
            p <= k <= n,
            n == line@.len(),
            run_end(line@, p as int) == run_end(line@, k as int),
        decreases n - k,
    {
        k = k + 1;
    }
    k
}

/// The `Key: value` header of a line, if the line carries one.
pub fn header_match(line: &str) -> (r: Option<(String, String)>)
    ensures
        match r {
            Some(kv) => spec_header(line@) == Some((kv.0@, kv.1@)),
            None => spec_header(line@) is None,
        },
{
    let n = line.unicode_len();
    let mut p: usize = 0;
    while p < n
        invariant
            p <= n,
            n == line@.len(),
            forall|q: int| 0 <= q < p ==> !match_at(line@, q),
        decreases n - p,
    {
        if is_alpha_char(line.get_char(p)) {
            let r_end = run_end_exec(line, p);
            if n - r_end > 2 {
                if line.get_char(r_end) == ':' && line.get_char(r_end + 1) == ' ' {
                    proof {
                        lemma_first_match_some(line@, 0, p as int);
                    }
                    let key = line.substring_char(p, r_end).to_owned();
                    let value = line.substring_char(r_end + 2, n).to_owned();
                    proof {
                        assert(key@ =~= line@.subrange(p as int, r_end as int));
                        assert(value@ =~= line@.skip(r_end + 2));
                    }
                    return Some((key, value));
                }
            }
        }
        p = p + 1;
    }
    proof {
        lemma_first_match_none(line@, 0);
    }
    None
}

// ---------------------------------------------------------------------------
// Parsing a whole description file.
// ---------------------------------------------------------------------------

/// How many leading lines carry headers.
pub open spec fn header_len(lines: Seq<Seq<char>>) -> int
    decreases lines.len(),
{
    if lines.len() == 0 {
        0
    } else if spec_header(lines[0]) is Some {
        1 + header_len(lines.drop_first())
    } else {
        0
    }
}

/// The value of the last header among `lines[0..k]` whose key is `key`.
pub open spec fn last_value(lines: Seq<Seq<char>>, k: int, key: Seq<char>) -> Option<Seq<char>>
    decreases k,
{
    if k <= 0 || k > lines.len() {
        None
    } else {
        let h = spec_header(lines[k - 1]);
        if h is Some && h.unwrap().0 == key {
            Some(h.unwrap().1)
        } else {
            last_value(lines, k - 1, key)
        }
    }
}

/// The free-text body: every line from `k` on, each closed by `\n`.
pub open spec fn body_of(lines: Seq<Seq<char>>, k: int) -> Seq<char>
    decreases lines.len() - k,
{
    if k < 0 || k >= lines.len() {
        Seq::empty()
    } else {
        lines[k] + seq!['\n'] + body_of(lines, k + 1)
    }
}

pub open spec fn default_title(dpath: Seq<Seq<char>>) -> Seq<char> {
    if dpath.len() > 0 {
        dpath.last()
    } else {
        Seq::empty()
    }
}

/// What parsing a description file yields, for the directory at `dpath`
/// whose tree entries are `entries`.
pub open spec fn parsed_ok(
    m: Metadata,
    dpath: Seq<Seq<char>>,
    entries: Seq<FsEntry>,
    content: Seq<char>,
) -> bool {
    let lines = spec_lines(content);
    let hl = header_len(lines);
    &&& m.description@ == html_of(body_of(lines, hl))
    &&& (match last_value(lines, hl, "Title"@) {
        Some(t) => m.title@ == t,
        None => m.title@ == default_title(dpath),
    })
    &&& (match last_value(lines, hl, "Thumbnail"@) {
        Some(v) => {
            let segs = split_slash(v);
            if seg_exists(entries, segs) {
                m.thumbnail matches Some(t) && t@ == dpath + segs
            } else {
                m.thumbnail is None
            }
        },
        None => m.thumbnail is None,
    })
}

/// What resolving a directory's metadata yields: the parsed description file
/// if one is present, the defaults otherwise.
pub open spec fn metadata_ok(m: Metadata, dir: DirNode, dpath: Seq<Seq<char>>) -> bool {
    match index_content(dir.entries@) {
        Some(content) => parsed_ok(m, dpath, dir.entries@, content),
        None => {
            &&& m.description@ == Seq::<char>::empty()
            &&& m.title@ == default_title(dpath)
            &&& m.thumbnail is None
        },
    }
}

proof fn lemma_header_len(lines: Seq<Seq<char>>, k: int)
    requires
        0 <= k <= lines.len(),
        forall|j: int| 0 <= j < k ==> spec_header(#[trigger] lines[j]) is Some,
        k == lines.len() || spec_header(lines[k]) is None,
    ensures
        header_len(lines) == k,
    decreases k,
{
    if k == 0 {
        if lines.len() > 0 {
            assert(spec_header(lines[0]) is None);
        }
    } else {
        assert(spec_header(lines[0]) is Some);
        let rest = lines.drop_first();
        assert(forall|j: int| 0 <= j < k - 1 ==> spec_header(#[trigger] rest[j]) is Some) by {
            assert(forall|j: int| 0 <= j < k - 1 ==> rest[j] == lines[j + 1]);
        }
        if k < lines.len() {
            assert(rest[k - 1] == lines[k as int]);
        }
        lemma_header_len(rest, k - 1);
    }
}

/// A lemma shape shared by the `Title` and `Thumbnail` trackers: stepping the
/// scan over one more header line updates the last seen value.
proof fn lemma_last_value_step(lines: Seq<Seq<char>>, k: int, key: Seq<char>)
    requires
        0 <= k < lines.len(),
    ensures
        (spec_header(lines[k]) matches Some(kv) && kv.0 == key) ==> last_value(lines, k + 1, key)
            == Some(spec_header(lines[k]).unwrap().1),
        (spec_header(lines[k]) is None || spec_header(lines[k]).unwrap().0 != key) ==> last_value(
            lines,
            k + 1,
            key,
        ) == last_value(lines, k, key),
{
}

/// Parse a description file's text, for the collection directory at `path`
/// whose tree is `dir`.  Header lines are read first (`Title` and
/// `Thumbnail` recognized, later values winning); all remaining lines form
/// the body, handed to the markdown converter.  A thumbnail override is kept
/// only when the named file exists below `dir`.
pub fn from_str(path: &RelPath, dir: &DirNode, content: &str) -> (m: Metadata)
    ensures
        parsed_ok(m, path@, dir.entries@, content@),
{
    let lines = split_lines(content);
    let ghost lv = strs_view(lines@);
    let mut title: Option<String> = None;
    let mut thumb: Option<String> = None;
    let mut matching = true;
    let mut k: usize = 0;
    while matching && k < lines.len()
        invariant
            k <= lines.len(),
            lv == strs_view(lines@),
            forall|j: int| 0 <= j < k ==> spec_header(#[trigger] lv[j]) is Some,
            !matching ==> k < lines.len() && spec_header(lv[k as int]) is None,
            (match title {
                Some(t) => last_value(lv, k as int, "Title"@) == Some(t@),
                None => last_value(lv, k as int, "Title"@) is None,
            }),
            (match thumb {
                Some(t) => last_value(lv, k as int, "Thumbnail"@) == Some(t@),
                None => last_value(lv, k as int, "Thumbnail"@) is None,
            }),
        decreases lines.len() - k + (if matching {
            1int
        } else {
            0int
        }),
    {
        proof {
            reveal_strlit("Title");
            reveal_strlit("Thumbnail");
            assert("Title"@.len() == 5);
            assert("Thumbnail"@.len() == 9);
            assert("Title"@ != "Thumbnail"@);
            assert(lv[k as int] == lines@[k as int]@);
            lemma_last_value_step(lv, k as int, "Title"@);
            lemma_last_value_step(lv, k as int, "Thumbnail"@);
        }
        match header_match(lines[k].as_str()) {
            Some(kv) => {
                let (key, value) = kv;
                if key == String::from_str("Title") {
                    title = Some(value);
                } else if key == String::from_str("Thumbnail") {
                    thumb = Some(value);
                }
                k = k + 1;
            },
            None => {
                matching = false;
            },
        }
    }
    proof {
        lemma_header_len(lv, k as int);
    }
    let ghost hl = k as int;
    let mut description = String::new();
    let mut j: usize = k;
    while j < lines.len()
        invariant
            hl <= j <= lines.len(),
            lv == strs_view(lines@),
            body_of(lv, hl) == description@ + body_of(lv, j as int),
        decreases lines.len() - j,
    {
        let ghost before = description@;
        description.append(lines[j].as_str());
        description.append("\n");
        proof {
            reveal_strlit("\n");
            assert("\n"@ =~= seq!['\n']);
            assert(lv[j as int] == lines@[j as int]@);
            assert(description@ =~= before + lv[j as int] + seq!['\n']);
            assert(body_of(lv, hl) =~= description@ + body_of(lv, j + 1));
        }
        j = j + 1;
    }
    proof {
        assert(body_of(lv, lines@.len() as int).len() == 0);
        assert(body_of(lv, hl) =~= description@);
    }
    let html = markdown_to_html(description.as_str());
    let title_s: String = match title {
        Some(t) => t,
        None => path_to_string(path),
    };
    let thumbnail: Option<RelPath> = match thumb {
        Some(v) => {
            let segs = split_slash_exec(v.as_str());
            if crate::fsmodel::node_exists(dir, &segs) {
                let over = RelPath { segments: segs };
                Some(path.concat(&over))
            } else {
                None
            }
        },
        None => None,
    };
    Metadata { description: html, title: title_s, thumbnail }
}

impl Metadata {
    /// Resolve the metadata of the directory at `path`: parse its description
    /// file when there is one, fall back to the defaults otherwise.
    pub fn from_path(dir: &DirNode, path: &RelPath) -> (m: Metadata)
        ensures
            metadata_ok(m, *dir, path@),
    {
        match crate::fsmodel::find_index_content(dir) {
            Some(content) => {
                let c = content.clone();
                from_str(path, dir, c.as_str())
            },
            None => Metadata {
                description: String::new(),
                title: path_to_string(path),
                thumbnail: None,
            },
        }
    }
}

} // verus!
