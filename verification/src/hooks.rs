use vstd::prelude::*;
use vstd::string::*;
use crate::errors::Error;
use crate::fsmodel::Snapshot;
use crate::metadata::{find_char, first_at, lemma_first_at_none, lemma_first_at_some};
use crate::paths::{strs_view, RelPath};

verus! {

// ---------------------------------------------------------------------------
// User-defined pre-build hooks.  A hook regenerates `output` from `input`
// via a command whose Makefile-style `$<` and `$@` stand for the two paths.
// The library decides whether the hook is due and what the expanded command
// line is; the shell spawns the process.
// ---------------------------------------------------------------------------

#[derive(Debug)]
pub struct Process {
    /// Input path passed to the command.
    pub input: RelPath,
    /// Output path passed to the command.
    pub output: RelPath,
    /// Command to execute; `$<` expands to `input`, `$@` to `output`.
    pub command: String,
}

/// An expanded command line: the program and its arguments.
#[derive(Debug)]
pub struct CommandLine {
    pub program: String,
    pub args: Vec<String>,
}

// ---------------------------------------------------------------------------
// Path display: segments joined by `/`, as they are handed to a command.
// ---------------------------------------------------------------------------

pub open spec fn join_segs(p: Seq<Seq<char>>) -> Seq<char>
    decreases p.len(),
{
    if p.len() == 0 {
        Seq::empty()
    } else if p.len() == 1 {
        p[0]
    } else {
        p[0] + seq!['/'] + join_segs(p.drop_first())
    }
}

/// A path as one string, segments joined by `/`.
pub fn to_display(path: &RelPath) -> (r: String)
    ensures
        r@ == join_segs(path@),
{
    let mut r = String::new();
    if path.segments.len() == 0 {
        return r;
    }
    let mut i: usize = 0;
    proof {
        assert(path@.skip(0) =~= path@);
        assert(r@ + join_segs(path@) =~= join_segs(path@));
    }
    while i < path.segments.len() - 1
        invariant
            path@.len() > 0,
            i <= path@.len() - 1,
            join_segs(path@) == r@ + join_segs(path@.skip(i as int)),
        decreases path@.len() - i,
    {
        let ghost before = r@;
        r.append(path.segments[i].as_str());
        r.append("/");
        proof {
            reveal_strlit("/");
            assert("/"@ =~= seq!['/']);
            assert(path@.skip(i as int)[0] == path@[i as int]);
            assert(path@.skip(i as int).drop_first() =~= path@.skip(i as int + 1));
            assert(r@ =~= before + path@[i as int] + seq!['/']);
            assert(join_segs(path@) =~= r@ + join_segs(path@.skip(i as int + 1)));
        }
        i = i + 1;
    }
    let ghost before = r@;
    r.append(path.segments[i].as_str());
    proof {
        assert(path@.skip(i as int).len() == 1);
        assert(path@.skip(i as int)[0] == path@[i as int]);
        assert(join_segs(path@.skip(i as int)) == path@[i as int]);
        assert(join_segs(path@) =~= r@);
    }
    r
}

// ---------------------------------------------------------------------------
// Command splitting: pieces between single spaces, empty pieces kept, as a
// shell-less command line is split.
// ---------------------------------------------------------------------------

pub open spec fn split_spaces(v: Seq<char>) -> Seq<Seq<char>>
    decreases v.len(),
{
    match first_at(v, 0, ' ') {
        None => seq![v],
        Some(i) => if 0 <= i < v.len() {
            seq![v.take(i)] + split_spaces(v.skip(i + 1))
        } else {
            seq![v]
        },
    }
}

fn split_spaces_exec(v: &str) -> (r: Vec<String>)
    ensures
        strs_view(r@) == split_spaces(v@),
        r@.len() > 0,
{
    let n = v.unicode_len();
    let mut r: Vec<String> = Vec::new();
    let mut start: usize = 0;
    proof {
        assert(v@.skip(0) =~= v@);
        assert(strs_view(r@) + split_spaces(v@) =~= split_spaces(v@));
    }
    loop
        invariant
            start <= n,
            n == v@.len(),
            split_spaces(v@) == strs_view(r@) + split_spaces(v@.skip(start as int)),
        ensures
            strs_view(r@) == split_spaces(v@),
            r@.len() > 0,
        decreases n - start,
    {
        let ghost s0 = start as int;
        let ghost tail = v@.skip(s0);
        let ghost before = r@;
        match find_char(v, start, ' ') {
            Some(i) => {
                proof {
                    assert(tail[i - s0] == v@[i as int]);
                    assert(forall|q: int| 0 <= q < i - s0 ==> tail[q] == v@[s0 + q]);
                    lemma_first_at_some(tail, ' ', 0, i - s0);
                    assert(tail.take(i - s0) =~= v@.subrange(s0, i as int));
                    assert(tail.skip(i - s0 + 1) =~= v@.skip(i + 1));
                }
                let piece = v.substring_char(start, i).to_owned();
                r.push(piece);
                start = i + 1;
                proof {
                    assert(strs_view(r@) =~= strs_view(before).push(tail.take(i - s0)));
                    assert(split_spaces(v@) =~= strs_view(r@) + split_spaces(v@.skip(
                        start as int,
                    )));
                }
            },
            None => {
                proof {
                    lemma_first_at_none(tail, ' ', 0);
                }
                let piece = v.substring_char(start, n).to_owned();
                proof {
                    assert(piece@ =~= tail);
                }
                r.push(piece);
                proof {
                    assert(strs_view(r@) =~= strs_view(before).push(tail));
                    assert(split_spaces(tail) == seq![tail]);
                    assert(strs_view(r@) =~= split_spaces(v@));
                }
                return r;
            },
        }
    }
}

/// What each command-line piece expands to: `$<` becomes the input path,
/// `$@` the output path, anything else stands as it is.
pub open spec fn expand_arg(
    piece: Seq<char>,
    input: Seq<Seq<char>>,
    output: Seq<Seq<char>>,
) -> Seq<char> {
    if piece == "$<"@ {
        join_segs(input)
    } else if piece == "$@"@ {
        join_segs(output)
    } else {
        piece
    }
}

impl Process {
    /// Whether the hook is due: its output is missing, or older than its
    /// input.  Asking with an output present but an input the snapshot does
    /// not know fails, as statting the input would.
    pub fn should_run(&self, snapshot: &Snapshot) -> (r: Result<bool, Error>)
        ensures
            snapshot.spec_mtime(self.output@) is None ==> r == Result::<bool, Error>::Ok(true),
            (snapshot.spec_mtime(self.output@) is Some && snapshot.spec_mtime(self.input@)
                is None) ==> r == Result::<bool, Error>::Err(Error::SourceRead),
            (snapshot.spec_mtime(self.output@) is Some && snapshot.spec_mtime(self.input@)
                is Some) ==> r == Result::<bool, Error>::Ok(
                snapshot.spec_mtime(self.output@).unwrap() < snapshot.spec_mtime(
                    self.input@,
                ).unwrap(),
            ),
    {
        match snapshot.mtime_of(&self.output) {
            None => Ok(true),
            Some(out_m) => match snapshot.mtime_of(&self.input) {
                None => Err(Error::SourceRead),
                Some(in_m) => Ok(out_m < in_m),
            },
        }
    }

    /// Expand the command: split on single spaces, the first piece is the
    /// program, and each further piece becomes an argument with `$<` and
    /// `$@` replaced by the input and output paths.
    pub fn expand(&self) -> (r: CommandLine)
        ensures
            ({
                let pieces = split_spaces(self.command@);
                &&& r.program@ == pieces[0]
                &&& r.args@.len() == pieces.len() - 1
                &&& forall|i: int|
                    0 <= i < r.args@.len() ==> (#[trigger] r.args@[i])@ == expand_arg(
                        pieces[i + 1],
                        self.input@,
                        self.output@,
                    )
            }),
    {
        let pieces = split_spaces_exec(self.command.as_str());
        let ghost pv = split_spaces(self.command@);
        let program = pieces[0].clone();
        let input_str = to_display(&self.input);
        let output_str = to_display(&self.output);
        let mut args: Vec<String> = Vec::new();
        let mut i: usize = 1;
        while i < pieces.len()
            invariant
                1 <= i <= pieces@.len(),
                pv == split_spaces(self.command@),
                strs_view(pieces@) == pv,
                input_str@ == join_segs(self.input@),
                output_str@ == join_segs(self.output@),
                args@.len() == i - 1,
                forall|j: int|
                    0 <= j < args@.len() ==> (#[trigger] args@[j])@ == expand_arg(
                        pv[j + 1],
                        self.input@,
                        self.output@,
                    ),
            decreases pieces@.len() - i,
        {
            let piece = &pieces[i];
            let arg: String = if *piece == String::from_str("$<") {
                input_str.clone()
            } else if *piece == String::from_str("$@") {
                output_str.clone()
            } else {
                piece.clone()
            };
            proof {
                assert(pv[i as int] == pieces@[i as int]@);
            }
            args.push(arg);
            i = i + 1;
        }
        proof {
            assert(pv[0] == pieces@[0]@);
        }
        CommandLine { program, args }
    }
}

} // verus!
