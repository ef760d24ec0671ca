//! Encapsules command line interface related implementations: the parsed
//! word-count arguments and the splitting of a command line into pieces.

use vstd::prelude::*;
use vstd::string::StrSliceExecFns;

verus! {

/// Model of the parsed arguments.
pub struct ArgsM {
    pub bytes: bool,
    pub chars: bool,
    pub lines: bool,
    pub words: bool,
    pub file: Option<Seq<char>>,
}

/// The word-count arguments: which counts to output, and the file to count.
#[derive(Debug, Default)]
pub struct CcWcArgs {
    /// Outputs the number of bytes.
    pub bytes: bool,
    /// Outputs the number of characters.
    pub chars: bool,
    /// Outputs the number of lines.
    pub lines: bool,
    /// Outputs the number of words.
    pub words: bool,
    /// Filename of file to be counted.
    pub file: Option<String>,
}

impl View for CcWcArgs {
    type V = ArgsM;

    open spec fn view(&self) -> ArgsM {
        ArgsM {
            bytes: self.bytes,
            chars: self.chars,
            lines: self.lines,
            words: self.words,
            file: match &self.file {
                Some(f) => Some(f@),
                None => None,
            },
        }
    }
}

/// Length of the run of non-space characters of `s` starting at `i`.
pub open spec fn piece_run_len(s: Seq<char>, i: int) -> nat
    decreases s.len() - i when 0 <= i <= s.len()
{
    if i >= s.len() || s[i] == ' ' {
        0
    } else {
        (1 + piece_run_len(s, i + 1)) as nat
    }
}

/// A piece run stays inside the text.
pub proof fn lemma_piece_run_le(s: Seq<char>, i: int)
    requires
        0 <= i <= s.len(),
    ensures
        i + piece_run_len(s, i) <= s.len(),
    decreases s.len() - i,
{
    if i < s.len() && s[i] != ' ' {
        lemma_piece_run_le(s, i + 1);
    }
}

/// The space-separated pieces of `s` from position `i` on: every span between
/// two spaces, empty spans included.
pub open spec fn split_pieces(s: Seq<char>, i: int) -> Seq<Seq<char>>
    decreases s.len() - i + 1
        when 0 <= i <= s.len()
        via split_pieces_decreases
{
    let j = i + piece_run_len(s, i);
    if j < s.len() {
        seq![s.subrange(i, j)] + split_pieces(s, j + 1)
    } else {
        seq![s.subrange(i, s.len() as int)]
    }
}

#[via_fn]
proof fn split_pieces_decreases(s: Seq<char>, i: int) {
    lemma_piece_run_le(s, i);
}

/// How one command-line piece changes the parsed arguments: a long flag sets
/// its count, a cluster of short flags sets each named count, and the first
/// other non-empty piece names the file.
pub open spec fn apply_piece(cur: ArgsM, p: Seq<char>) -> ArgsM {
    if p.len() >= 2 && p[0] == '-' && p[1] == '-' {
        if p == "--bytes"@ {
            ArgsM { bytes: true, ..cur }
        } else if p == "--chars"@ {
            ArgsM { chars: true, ..cur }
        } else if p == "--lines"@ {
            ArgsM { lines: true, ..cur }
        } else if p == "--words"@ {
            ArgsM { words: true, ..cur }
        } else {
            cur
        }
    } else if p.len() >= 1 && p[0] == '-' {
        apply_shorts(cur, p, 1)
    } else if p.len() > 0 && cur.file is None {
        ArgsM { file: Some(p), ..cur }
    } else {
        cur
    }
}

/// One short flag after another: `c` bytes, `m` chars, `l` lines, `w` words.
pub open spec fn apply_shorts(cur: ArgsM, p: Seq<char>, i: int) -> ArgsM
    decreases p.len() - i when 0 <= i <= p.len()
{
    if i >= p.len() {
        cur
    } else {
        let cur2 = if p[i] == 'c' {
            ArgsM { bytes: true, ..cur }
        } else if p[i] == 'm' {
            ArgsM { chars: true, ..cur }
        } else if p[i] == 'l' {
            ArgsM { lines: true, ..cur }
        } else if p[i] == 'w' {
            ArgsM { words: true, ..cur }
        } else {
            cur
        };
        apply_shorts(cur2, p, i + 1)
    }
}

/// The arguments of a command line's pieces from index `i` on, the piece
/// before `i` being the program name.
pub open spec fn parse_pieces(cur: ArgsM, pieces: Seq<Seq<char>>, i: int) -> ArgsM
    decreases pieces.len() - i when 0 <= i
{
    if i >= pieces.len() {
        cur
    } else {
        parse_pieces(apply_piece(cur, pieces[i]), pieces, i + 1)
    }
}

/// The empty argument set.
pub open spec fn args_default() -> ArgsM {
    ArgsM { bytes: false, chars: false, lines: false, words: false, file: None }
}

impl CcWcArgs {
    /// Parses a whole command line: the first piece is the program name, a
    /// piece of short flags or a long flag sets the named counts, and the
    /// first other non-empty piece names the file.
    pub fn from(cmd: &str) -> (r: CcWcArgs)
        ensures
            r@ == parse_pieces(args_default(), split_pieces(cmd@, 0), 1),
    {
        let ghost s = cmd@;
        let ghost pieces = split_pieces(s, 0);
        let mut args = CcWcArgs {
            bytes: false,
            chars: false,
            lines: false,
            words: false,
            file: None,
        };
        let mut it = CcWcArgsCommand(cmd).into_iter();
        let _first = it.next();
        proof {
            assert(args@ =~= args_default());
        }
        let ghost mut i: int = 1;
        loop
            invariant
                it.wf(),
                it.cmd@ == s,
                pieces == split_pieces(s, 0),
                1 <= i,
                i <= pieces.len(),
                it.yielded@ == i,
                parse_pieces(args_default(), pieces, 1) == parse_pieces(args@, pieces, i),
            ensures
                args@ == parse_pieces(args_default(), pieces, 1),
            decreases pieces.len() - i,
        {
            let piece = match it.next() {
                Some(p) => p,
                None => {
                    break;
                },
            };
            let ghost pm = piece@;
            let ghost cur = args@;
            let plen = piece.unicode_len();
            if plen >= 2 && piece.get_char(0) == '-' && piece.get_char(1) == '-' {
                if crate::strutil::str_eq(piece, "--bytes") {
                    args.bytes = true;
                } else if crate::strutil::str_eq(piece, "--chars") {
                    args.chars = true;
                } else if crate::strutil::str_eq(piece, "--lines") {
                    args.lines = true;
                } else if crate::strutil::str_eq(piece, "--words") {
                    args.words = true;
                }
                proof {
                    assert(args@ =~= apply_piece(cur, pm));
                }
            } else if plen >= 1 && piece.get_char(0) == '-' {
                let mut k: usize = 1;
                while k < plen
                    invariant
                        1 <= k <= plen,
                        plen == pm.len(),
                        pm == piece@,
                        apply_piece(cur, pm) == apply_shorts(args@, pm, k as int),
                    decreases plen - k,
                {
                    let c = piece.get_char(k);
                    let ghost pre = args@;
                    if c == 'c' {
                        args.bytes = true;
                    } else if c == 'm' {
                        args.chars = true;
                    } else if c == 'l' {
                        args.lines = true;
                    } else if c == 'w' {
                        args.words = true;
                    }
                    proof {
                        assert(apply_shorts(pre, pm, k as int) == apply_shorts(args@, pm, k + 1));
                    }
                    k = k + 1;
                }
            } else if plen > 0 && args.file.is_none() {
                args.file = Some(piece.to_owned());
                proof {
                    assert(args@ =~= apply_piece(cur, pm));
                }
            } else {
                proof {
                    assert(args@ =~= apply_piece(cur, pm));
                }
            }
            proof {
                assert(args@ =~= apply_piece(cur, pm));
                i = i + 1;
            }
        }
        args
    }
}

/// A whole command line, to be split at its spaces.
#[derive(Clone, Debug)]
pub struct CcWcArgsCommand<'r>(pub &'r str);

impl<'r> CcWcArgsCommand<'r> {
    /// An iterator over the command line's pieces.
    pub fn into_iter(self) -> (r: CcWcArgsIter<'r>)
        ensures
            r.wf(),
            r.cmd@ == self.0@,
            r.pos == 0,
            r.yielded@ == 0,
            !r.done,
    {
        let _len = self.0.unicode_len();
        proof {
            lemma_piece_run_le(self.0@, 0);
            assert(split_pieces(self.0@, 0).len() >= 1);
            assert(split_pieces(self.0@, 0).skip(0) =~= split_pieces(self.0@, 0));
        }
        CcWcArgsIter { cmd: self.0, pos: 0, done: false, yielded: Ghost(0) }
    }
}

/// An iterator over a command line's space-separated pieces.
#[derive(Clone)]
pub struct CcWcArgsIter<'r> {
    /// The command line.
    pub cmd: &'r str,
    /// Scan position, a character index.
    pub pos: usize,
    /// Whether the final piece was already yielded.
    pub done: bool,
    /// How many pieces were yielded.
    pub yielded: Ghost<int>,
}

impl<'r> CcWcArgsIter<'r> {
    /// Internal consistency: the remaining pieces are the split's pieces from
    /// the yielded count on.
    pub open spec fn wf(&self) -> bool {
        &&& self.pos <= self.cmd@.len()
        &&& 0 <= self.yielded@
        &&& if self.done {
            self.yielded@ == split_pieces(self.cmd@, 0).len()
        } else {
            self.yielded@ < split_pieces(self.cmd@, 0).len()
                && split_pieces(self.cmd@, self.pos as int) == split_pieces(self.cmd@, 0).skip(
                self.yielded@,
            )
        }
    }

    /// The next piece: the span up to the next space or the text's end; a
    /// trailing space yields a final empty piece.
    pub fn next(&mut self) -> (r: Option<&'r str>)
        requires
            old(self).wf(),
        ensures
            final(self).wf(),
            final(self).cmd == old(self).cmd,
            if old(self).done {
                r is None && *final(self) == *old(self)
            } else {
                &&& r is Some
                &&& (r->0)@ == split_pieces(old(self).cmd@, 0)[old(self).yielded@]
                &&& final(self).yielded@ == old(self).yielded@ + 1
            },
    {
        if self.done {
            return None;
        }
        let ghost s = self.cmd@;
        let len = self.cmd.unicode_len();
        let start = self.pos;
        let mut j = start;
        while j < len && self.cmd.get_char(j) != ' '
            invariant
                start <= j <= len,
                len == s.len(),
                s == self.cmd@,
                piece_run_len(s, start as int) == j - start + piece_run_len(s, j as int),
            decreases len - j,
        {
            j = j + 1;
        }
        proof {
            if j < len {
                assert(piece_run_len(s, j as int) == 0);
            } else {
                assert(piece_run_len(s, j as int) == 0);
            }
            assert(j == start + piece_run_len(s, start as int));
        }
        let piece = self.cmd.substring_char(start, j);
        proof {
            assert(split_pieces(s, start as int)[0] == s.subrange(start as int, j as int));
            assert(split_pieces(s, 0).skip(self.yielded@)[0] == split_pieces(s, 0)[self.yielded@]);
        }
        if j < len {
            self.pos = j + 1;
            proof {
                assert(split_pieces(s, start as int).drop_first() =~= split_pieces(s, j + 1));
                assert(split_pieces(s, 0).skip(self.yielded@).drop_first() =~= split_pieces(
                    s,
                    0,
                ).skip(self.yielded@ + 1));
            }
        } else {
            self.pos = len;
            self.done = true;
            proof {
                assert(split_pieces(s, start as int).len() == 1);
                assert(split_pieces(s, 0).skip(self.yielded@).len() == 1);
            }
        }
        proof {
            self.yielded@ = self.yielded@ + 1;
        }
        Some(piece)
    }
}

} // verus!
