//! The line, word, character and byte counts of a text, and the word-count
//! entry function with its output formatting.

use vstd::prelude::*;
use vstd::string::{StrSliceExecFns, StringExecFns, StringSliceAdditionalSpecFns};

use crate::strutil::{dec_str, push_char, push_u64};
use crate::wc::command::CcWcArgs;
use crate::wc::iterators::{word_count, WordIterator};

verus! {

/// How many line ends `s` holds from position `i` on: a run of line feeds
/// counts once, at its last line feed.
pub open spec fn line_count(s: Seq<char>, i: int) -> int
    decreases s.len() - i when 0 <= i <= s.len()
{
    if i >= s.len() {
        0
    } else {
        (if s[i] == '\n' && (i + 1 == s.len() || s[i + 1] != '\n') {
            1int
        } else {
            0int
        }) + line_count(s, i + 1)
    }
}

/// Main count function for lines in text: a run of line feeds counts as one
/// line end.
pub fn lines(piece: &str) -> (r: usize)
    ensures
        r == line_count(piece@, 0),
{
    count_lines(piece)
}

/// Exec mirror of [`line_count`].
fn count_lines(piece: &str) -> (r: usize)
    ensures
        r == line_count(piece@, 0),
{
    let ghost s = piece@;
    let len = piece.unicode_len();
    let mut cnt: usize = 0;
    let mut i: usize = 0;
    while i < len
        invariant
            i <= len,
            len == s.len(),
            s == piece@,
            cnt <= i,
            line_count(s, 0) == cnt + line_count(s, i as int),
        decreases len - i,
    {
        let c = piece.get_char(i);
        if c == '\n' {
            if i + 1 == len {
                cnt = cnt + 1;
            } else if piece.get_char(i + 1) != '\n' {
                cnt = cnt + 1;
            }
        }
        i = i + 1;
    }
    cnt
}

/// Main count function for characters in text.
pub fn chars(piece: &str) -> (r: usize)
    ensures
        r == piece@.len(),
{
    piece.unicode_len()
}

/// Main count function for the number of bytes of a text.
pub fn bytes(piece: &str) -> (r: usize)
    ensures
        r == piece.spec_bytes().len() as usize,
{
    piece.len()
}

/// Main count function for the number of words in a text.
pub fn words(piece: &str) -> (r: usize)
    ensures
        r == word_count(piece@, 0),
{
    WordIterator::new(piece).count()
}

/// Spaces of the given width.
pub open spec fn spaces(w: int) -> Seq<char>
    decreases w when w >= 0
{
    if w <= 0 {
        Seq::empty()
    } else {
        spaces(w - 1).push(' ')
    }
}

/// A number rendered right-aligned in the given width.
pub open spec fn padded(n: int, w: int) -> Seq<char> {
    if dec_str(n).len() >= w {
        dec_str(n)
    } else {
        spaces(w - dec_str(n).len()) + dec_str(n)
    }
}

/// The output line of the selected counts, each right-aligned in the given
/// width, separated by single spaces.
pub open spec fn format_spec(dvec: Seq<usize>, digits: int, i: int) -> Seq<char>
    decreases dvec.len() - i when 0 <= i <= dvec.len()
{
    if i >= dvec.len() {
        Seq::empty()
    } else {
        (if i > 0 {
            seq![' ']
        } else {
            Seq::<char>::empty()
        }) + padded(dvec[i] as int, digits) + format_spec(dvec, digits, i + 1)
    }
}

/// The decimal width of a number.
fn dec_width(n: u64) -> (r: usize)
    ensures
        r == dec_str(n as int).len(),
{
    let mut s = String::new();
    push_u64(&mut s, n);
    proof {
        assert(s@ =~= dec_str(n as int));
    }
    s.as_str().unicode_len()
}

/// Appends `n` right-aligned in the given width.
fn push_padded(out: &mut String, n: u64, digits: usize)
    ensures
        final(out)@ == old(out)@ + padded(n as int, digits as int),
{
    let w = dec_width(n);
    let pad = if digits > w {
        digits - w
    } else {
        0
    };
    let mut k: usize = 0;
    let ghost target = if w >= digits {
        0int
    } else {
        digits - w
    };
    while k < pad
        invariant
            w == dec_str(n as int).len(),
            pad == target,
            k <= target,
            target == (if w >= digits {
                0int
            } else {
                digits - w
            }),
            out@ =~= old(out)@ + spaces(k as int),
        decreases pad - k,
    {
        push_char(out, ' ');
        k = k + 1;
    }
    proof {
        assert(k == target);
    }
    push_u64(out, n);
    proof {
        if w >= digits {
            assert(spaces(0) =~= Seq::<char>::empty());
            assert(out@ =~= old(out)@ + padded(n as int, digits as int));
        } else {
            assert(out@ =~= old(out)@ + padded(n as int, digits as int));
        }
    }
}

/// Formats the selected counts for the command line, right-aligned in the
/// given width and separated by single spaces.
pub fn format_output(dvec: &Vec<usize>, digits: usize) -> (r: String)
    requires
        1 <= dvec@.len() <= 4,
    ensures
        r@ == format_spec(dvec@, digits as int, 0),
{
    let mut out = String::new();
    let n = dvec.len();
    let mut i: usize = 0;
    proof {
        assert(out@ =~= format_spec(dvec@, digits as int, 0).take(0));
    }
    while i < n
        invariant
            i <= n,
            n == dvec@.len(),
            format_spec(dvec@, digits as int, 0) =~= out@ + format_spec(
                dvec@,
                digits as int,
                i as int,
            ),
        decreases n - i,
    {
        if i > 0 {
            push_char(&mut out, ' ');
        }
        push_padded(&mut out, dvec[i] as u64, digits);
        i = i + 1;
    }
    out
}

/// The counts that the flags select, in output order: lines, words, bytes,
/// characters; without any flag, lines, words and bytes.
pub open spec fn selected_counts(args: crate::wc::command::ArgsM, s: Seq<char>) -> Seq<usize> {
    let no_flags = !(args.chars || args.bytes || args.words || args.lines);
    (if no_flags || args.lines {
        seq![line_count(s, 0) as usize]
    } else {
        Seq::<usize>::empty()
    }) + (if no_flags || args.words {
        seq![word_count(s, 0) as usize]
    } else {
        Seq::<usize>::empty()
    }) + (if no_flags || args.bytes {
        seq![vstd::utf8::encode_utf8(s).len() as usize]
    } else {
        Seq::<usize>::empty()
    }) + (if args.chars {
        seq![s.len() as usize]
    } else {
        Seq::<usize>::empty()
    })
}

/// The largest of a count sequence.
pub open spec fn max_count(dvec: Seq<usize>) -> int
    decreases dvec.len(),
{
    if dvec.len() == 0 {
        0
    } else if dvec.last() as int >= max_count(dvec.drop_last()) {
        dvec.last() as int
    } else {
        max_count(dvec.drop_last())
    }
}

/// This is the main entry function for the word count: the selected counts of
/// the content, right-aligned to the widest one, followed by the counted
/// file's name where one was given.
pub fn ccwc(args: &CcWcArgs, content: &str) -> (r: String)
    ensures
        ({
            let dvec = selected_counts(args@, content@);
            let digits = dec_str(max_count(dvec)).len();
            r@ == format_spec(dvec, digits as int, 0) + (match args@.file {
                Some(f) => seq![' '] + f,
                None => Seq::<char>::empty(),
            })
        }),
{
    let ghost s = content@;
    let no_flags = !(args.chars || args.bytes || args.words || args.lines);
    let mut dvec: Vec<usize> = Vec::new();
    if no_flags || args.lines {
        dvec.push(lines(content));
    }
    if no_flags || args.words {
        dvec.push(words(content));
    }
    if no_flags || args.bytes {
        dvec.push(bytes(content));
    }
    if args.chars {
        dvec.push(chars(content));
    }
    proof {
        assert(dvec@ =~= selected_counts(args@, s));
    }
    let mut mx: usize = 0;
    let mut i: usize = 0;
    let n = dvec.len();
    while i < n
        invariant
            i <= n,
            n == dvec@.len(),
            mx == max_count(dvec@.take(i as int)),
        decreases n - i,
    {
        proof {
            assert(dvec@.take(i + 1).drop_last() =~= dvec@.take(i as int));
            assert(dvec@.take(i + 1).last() == dvec@[i as int]);
        }
        if dvec[i] > mx {
            mx = dvec[i];
        }
        i = i + 1;
    }
    proof {
        assert(dvec@.take(n as int) =~= dvec@);
    }
    let digits = dec_width(mx as u64);
    let mut output = format_output(&dvec, digits);
    match &args.file {
        Some(file) => {
            push_char(&mut output, ' ');
            output.append(file.as_str());
        },
        None => {},
    }
    output
}

} // verus!
