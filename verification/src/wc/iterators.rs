//! Module encapsules individual iterator implementations.

use vstd::prelude::*;
use vstd::string::StrSliceExecFns;

verus! {

/// What `char::is_alphanumeric` returns on a character beyond ASCII; a
/// function of the character alone.
pub uninterp spec fn alnum_of_nonascii(c: char) -> bool;

/// Whether a character is alphanumeric: within ASCII exactly the letters and
/// digits, which the Unicode tables fix; beyond ASCII as
/// `char::is_alphanumeric` has it.
pub open spec fn alnum_of(c: char) -> bool {
    if c as u32 <= 127 {
        97 <= c as u32 <= 122 || 65 <= c as u32 <= 90 || 48 <= c as u32 <= 57
    } else {
        alnum_of_nonascii(c)
    }
}

/// Relies on `char::is_alphanumeric`: whether the character is a letter or a
/// digit. The result depends on the character alone; the ASCII characters
/// with that property are exactly the letters and digits.
#[verifier::external_body]
pub fn is_alphanumeric_char(c: char) -> (r: bool)
    ensures
        r == alnum_of(c),
        c as u32 > 127 ==> r == alnum_of_nonascii(c),
{
    c.is_alphanumeric()
}

/// A character that may continue a word: alphanumeric, a hyphen or a dot.
pub open spec fn is_word_char(c: char) -> bool {
    alnum_of(c) || c == '-' || c == '.'
}

/// Exec mirror of [`is_word_char`].
fn word_char(c: char) -> (r: bool)
    ensures
        r == is_word_char(c),
{
    is_alphanumeric_char(c) || c == '-' || c == '.'
}

/// Length of the run of non-alphanumeric characters of `s` starting at `i`.
pub open spec fn gap_run_len(s: Seq<char>, i: int) -> nat
    decreases s.len() - i when 0 <= i <= s.len()
{
    if i >= s.len() || alnum_of(s[i]) {
        0
    } else {
        (1 + gap_run_len(s, i + 1)) as nat
    }
}

/// Length of the run of word characters of `s` starting at `i`.
pub open spec fn word_run_len(s: Seq<char>, i: int) -> nat
    decreases s.len() - i when 0 <= i <= s.len()
{
    if i >= s.len() || !is_word_char(s[i]) {
        0
    } else {
        (1 + word_run_len(s, i + 1)) as nat
    }
}

/// A gap run stays inside the text.
pub proof fn lemma_gap_run_le(s: Seq<char>, i: int)
    requires
        0 <= i <= s.len(),
    ensures
        i + gap_run_len(s, i) <= s.len(),
    decreases s.len() - i,
{
    if i < s.len() && !alnum_of(s[i]) {
        lemma_gap_run_le(s, i + 1);
    }
}

/// A word run stays inside the text.
pub proof fn lemma_word_run_le(s: Seq<char>, i: int)
    requires
        0 <= i <= s.len(),
    ensures
        i + word_run_len(s, i) <= s.len(),
    decreases s.len() - i,
{
    if i < s.len() && is_word_char(s[i]) {
        lemma_word_run_le(s, i + 1);
    }
}

/// Where a word that begins at `start` ends: just before the first character
/// after `start` that cannot continue a word; a word running to the end of
/// the text loses its last character.
pub open spec fn word_stop(s: Seq<char>, start: int) -> int {
    if start + 1 >= s.len() {
        start
    } else if start + 1 + word_run_len(s, start + 1) < s.len() {
        start + 1 + word_run_len(s, start + 1)
    } else {
        s.len() - 1
    }
}

/// How many words [`WordIterator`] finds in `s` from position `i` on.
pub open spec fn word_count(s: Seq<char>, i: int) -> int
    decreases s.len() - i + 1
        when 0 <= i <= s.len() + 1
        via word_count_decreases
{
    let st = i + gap_run_len(s, i);
    if st >= s.len() {
        0
    } else {
        1 + word_count(s, word_stop(s, st) + 1)
    }
}

#[via_fn]
proof fn word_count_decreases(s: Seq<char>, i: int) {
    if i <= s.len() {
        lemma_gap_run_le(s, i);
        let st = i + gap_run_len(s, i);
        if st < s.len() {
            lemma_word_run_le(s, st + 1);
        }
    }
}

/// Iterator for extracting words out of a text properly: a word starts at an
/// alphanumeric character and continues over alphanumerics, hyphens and dots.
#[derive(Clone, Debug)]
pub struct WordIterator<'r> {
    /// Source text to be iterated.
    pub text: &'r str,
    /// Scan position, a character index into `text`.
    pub pos: usize,
}

impl<'r> WordIterator<'r> {
    /// Internal consistency.
    pub open spec fn wf(&self) -> bool {
        self.pos <= self.text@.len()
    }

    /// A word iterator over the whole text.
    pub fn new(text: &'r str) -> (r: WordIterator<'r>)
        ensures
            r.wf(),
            r.text@ == text@,
            r.pos == 0,
    {
        let _len = text.unicode_len();
        WordIterator { text, pos: 0 }
    }

    /// The next word: the maximal span that begins at the next alphanumeric
    /// character and continues over word characters, cut off before the
    /// character that ends it (the text's end cuts the last character off).
    pub fn next(&mut self) -> (r: Option<&'r str>)
        requires
            old(self).wf(),
        ensures
            final(self).wf(),
            final(self).text == old(self).text,
            ({
                let s = old(self).text@;
                let st = old(self).pos + gap_run_len(s, old(self).pos as int);
                if st >= s.len() {
                    &&& r is None
                    &&& final(self).pos == s.len()
                } else {
                    &&& r is Some
                    &&& (r->0)@ == s.subrange(st as int, word_stop(s, st as int))
                    &&& final(self).pos == word_stop(s, st as int) + 1
                }
            }),
    {
        let ghost s = self.text@;
        let len = self.text.unicode_len();
        let mut start = self.pos;
        while start < len && !is_alphanumeric_char(self.text.get_char(start))
            invariant
                old(self).pos <= start <= len,
                len == s.len(),
                s == self.text@,
                gap_run_len(s, old(self).pos as int) == start - old(self).pos + gap_run_len(
                    s,
                    start as int,
                ),
            decreases len - start,
        {
            start = start + 1;
        }
        if start >= len {
            self.pos = len;
            return None;
        }
        let mut stop = start;
        let mut j = start + 1;
        let mut broke = false;
        while j < len && !broke
            invariant
                start + 1 <= j <= len,
                len == s.len(),
                s == self.text@,
                start < len,
                !broke ==> stop == j - 1 && (j > start + 1 ==> word_run_len(s, start + 1) >= j - start
                    - 1) && word_run_len(s, start + 1) == j - start - 1 + word_run_len(s, j as int),
                broke ==> stop == j - 1 && stop == start + 1 + word_run_len(s, start + 1) && stop
                    < len,
            decreases len - j + (if broke { 0int } else { 1int }),
        {
            stop = j;
            if !word_char(self.text.get_char(j)) {
                broke = true;
                proof {
                    assert(word_run_len(s, j as int) == 0);
                }
            }
            j = j + 1;
        }
        proof {
            if !broke {
                assert(word_run_len(s, j as int) == 0);
                assert(word_stop(s, start as int) == stop);
            } else {
                assert(word_stop(s, start as int) == stop);
            }
        }
        let piece = self.text.substring_char(start, stop);
        self.pos = stop + 1;
        Some(piece)
    }

    /// How many words the iterator yields from its current position on.
    pub fn count(self) -> (r: usize)
        requires
            self.wf(),
        ensures
            r == word_count(self.text@, self.pos as int),
    {
        let ghost s = self.text@;
        let ghost pos0 = self.pos as int;
        let mut it = self;
        let mut total: usize = 0;
        loop
            invariant
                it.wf(),
                it.text@ == s,
                total + word_count(s, it.pos as int) == word_count(s, pos0),
                total <= it.pos,
            ensures
                total == word_count(s, pos0),
            decreases s.len() - it.pos + 1,
        {
            let ghost p0 = it.pos as int;
            proof {
                lemma_gap_run_le(s, p0);
                let st = p0 + gap_run_len(s, p0);
                if st < s.len() {
                    lemma_word_run_le(s, st + 1);
                }
            }
            match it.next() {
                Some(_) => {
                    total = total + 1;
                },
                None => {
                    break;
                },
            }
        }
        total
    }
}

} // verus!
