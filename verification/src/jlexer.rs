//! Character-level JSON lexer.
//!
//! The lexer turns a source text into a sequence of `(JLexerToken, position)`
//! pairs, where positions are 1-based character offsets. It has no grammar
//! awareness: it only classifies spans of characters, collapses whitespace
//! runs, and uses a two-token memory to recognise string content between
//! quote marks. Unrecognisable spans come back as `UnknownToken`; the lexer
//! itself never fails.
//!
//! The whole behaviour is pinned down by the spec function [`lex_next`]: one
//! call of [`JLexer::next`] produces exactly the token, length and state
//! transition that `lex_next` describes.

use vstd::prelude::*;
use vstd::string::StrSliceExecFns;

verus! {

// ---------------------------------------------------------------------------
// Character classes
// ---------------------------------------------------------------------------

/// Whitespace: space, line feed, carriage return, horizontal tab.
pub open spec fn is_ws_char(c: char) -> bool {
    c == ' ' || c == '\n' || c == '\r' || c == '\t'
}

/// A decimal digit.
pub open spec fn is_digit_char(c: char) -> bool {
    48 <= c as u32 <= 57
}

/// A character that may belong to a numeric span: a digit or a dot.
pub open spec fn is_num_char(c: char) -> bool {
    is_digit_char(c) || c == '.'
}

/// A structural character: whitespace, one of `{ } [ ] : ,`, or a quote mark.
pub open spec fn is_structural_char(c: char) -> bool {
    is_ws_char(c) || c == '{' || c == '[' || c == ']' || c == '}' || c == ':' || c == ','
        || c == '"'
}

/// What `char::is_alphabetic` returns on a character beyond ASCII; a function
/// of the character alone.
pub uninterp spec fn alpha_of_nonascii(c: char) -> bool;

/// Whether a character is alphabetic: within ASCII exactly the letters, which
/// the Unicode tables fix; beyond ASCII as `char::is_alphabetic` has it.
pub open spec fn alpha_of(c: char) -> bool {
    if c as u32 <= 127 {
        97 <= c as u32 <= 122 || 65 <= c as u32 <= 90
    } else {
        alpha_of_nonascii(c)
    }
}

/// Relies on `char::is_alphabetic`: whether the character has the Unicode
/// property "Alphabetic". The result depends on the character alone; the
/// ASCII characters with that property are exactly the letters.
#[verifier::external_body]
pub fn is_alphabetic_char(c: char) -> (r: bool)
    ensures
        r == alpha_of(c),
        c as u32 > 127 ==> r == alpha_of_nonascii(c),
{
    c.is_alphabetic()
}

/// Exec mirror of [`is_ws_char`].
pub fn is_whitespace(c: char) -> (r: bool)
    ensures
        r == is_ws_char(c),
{
    c == ' ' || c == '\n' || c == '\r' || c == '\t'
}

/// Exec mirror of [`is_num_char`].
pub fn is_number(c: char) -> (r: bool)
    ensures
        r == is_num_char(c),
{
    let u = c as u32;
    (48 <= u && u <= 57) || c == '.'
}

/// Exec mirror of [`is_structural_char`].
pub fn is_structural(c: char) -> (r: bool)
    ensures
        r == is_structural_char(c),
{
    is_whitespace(c) || c == '{' || c == '[' || c == ']' || c == '}' || c == ':' || c == ','
        || c == '"'
}

// ---------------------------------------------------------------------------
// Runs of characters of one class
// ---------------------------------------------------------------------------

/// Length of the whitespace run of `s` starting at `i`.
pub open spec fn ws_run_len(s: Seq<char>, i: int) -> nat
    decreases s.len() - i when 0 <= i <= s.len()
{
    if i >= s.len() || !is_ws_char(s[i]) {
        0
    } else {
        (1 + ws_run_len(s, i + 1)) as nat
    }
}

/// Length of the numeric (digits and dots) run of `s` starting at `i`.
pub open spec fn num_run_len(s: Seq<char>, i: int) -> nat
    decreases s.len() - i when 0 <= i <= s.len()
{
    if i >= s.len() || !is_num_char(s[i]) {
        0
    } else {
        (1 + num_run_len(s, i + 1)) as nat
    }
}

/// Length of the alphabetic run of `s` starting at `i`.
pub open spec fn alpha_run_len(s: Seq<char>, i: int) -> nat
    decreases s.len() - i when 0 <= i <= s.len()
{
    if i >= s.len() || !alpha_of(s[i]) {
        0
    } else {
        (1 + alpha_run_len(s, i + 1)) as nat
    }
}

/// Length of the run of non-quote characters of `s` starting at `i`.
pub open spec fn content_run_len(s: Seq<char>, i: int) -> nat
    decreases s.len() - i when 0 <= i <= s.len()
{
    if i >= s.len() || s[i] == '"' {
        0
    } else {
        (1 + content_run_len(s, i + 1)) as nat
    }
}

/// A run never reaches past the end of the text.
pub proof fn lemma_ws_run_le(s: Seq<char>, i: int)
    requires
        0 <= i <= s.len(),
    ensures
        i + ws_run_len(s, i) <= s.len(),
    decreases s.len() - i,
{
    if i < s.len() && is_ws_char(s[i]) {
        lemma_ws_run_le(s, i + 1);
    }
}

/// A run never reaches past the end of the text.
pub proof fn lemma_num_run_le(s: Seq<char>, i: int)
    requires
        0 <= i <= s.len(),
    ensures
        i + num_run_len(s, i) <= s.len(),
    decreases s.len() - i,
{
    if i < s.len() && is_num_char(s[i]) {
        lemma_num_run_le(s, i + 1);
    }
}

/// A run never reaches past the end of the text.
pub proof fn lemma_alpha_run_le(s: Seq<char>, i: int)
    requires
        0 <= i <= s.len(),
    ensures
        i + alpha_run_len(s, i) <= s.len(),
    decreases s.len() - i,
{
    if i < s.len() && alpha_of(s[i]) {
        lemma_alpha_run_le(s, i + 1);
    }
}

/// A run never reaches past the end of the text.
pub proof fn lemma_content_run_le(s: Seq<char>, i: int)
    requires
        0 <= i <= s.len(),
    ensures
        i + content_run_len(s, i) <= s.len(),
    decreases s.len() - i,
{
    if i < s.len() && s[i] != '"' {
        lemma_content_run_le(s, i + 1);
    }
}

/// Every produced token spans at least one character and stays inside the
/// text.
pub proof fn lemma_lex_next_bounds(s: Seq<char>, i: int, sc: bool)
    requires
        0 <= i <= s.len(),
    ensures
        match lex_next(s, i, sc) {
            None => true,
            Some((tok, n)) => 1 <= n && i + n <= s.len(),
        },
{
    lemma_ws_run_le(s, i);
    lemma_num_run_le(s, i);
    lemma_alpha_run_le(s, i);
    lemma_content_run_le(s, i);
}

fn run_ws(s: &String, len: usize, start: usize) -> (r: usize)
    requires
        len == s@.len(),
        start <= len,
    ensures
        r == ws_run_len(s@, start as int),
        start + r <= len,
{
    let mut j = start;
    while j < len && is_whitespace(s.as_str().get_char(j))
        invariant
            start <= j <= len,
            len == s@.len(),
            ws_run_len(s@, start as int) == j - start + ws_run_len(s@, j as int),
        decreases len - j,
    {
        j = j + 1;
    }
    j - start
}

fn run_num(s: &String, len: usize, start: usize) -> (r: usize)
    requires
        len == s@.len(),
        start <= len,
    ensures
        r == num_run_len(s@, start as int),
        start + r <= len,
{
    let mut j = start;
    while j < len && is_number(s.as_str().get_char(j))
        invariant
            start <= j <= len,
            len == s@.len(),
            num_run_len(s@, start as int) == j - start + num_run_len(s@, j as int),
        decreases len - j,
    {
        j = j + 1;
    }
    j - start
}

fn run_alpha(s: &String, len: usize, start: usize) -> (r: usize)
    requires
        len == s@.len(),
        start <= len,
    ensures
        r == alpha_run_len(s@, start as int),
        start + r <= len,
{
    let mut j = start;
    while j < len && is_alphabetic_char(s.as_str().get_char(j))
        invariant
            start <= j <= len,
            len == s@.len(),
            alpha_run_len(s@, start as int) == j - start + alpha_run_len(s@, j as int),
        decreases len - j,
    {
        j = j + 1;
    }
    j - start
}

fn run_content(s: &String, len: usize, start: usize) -> (r: usize)
    requires
        len == s@.len(),
        start <= len,
    ensures
        r == content_run_len(s@, start as int),
        start + r <= len,
{
    let mut j = start;
    while j < len && s.as_str().get_char(j) != '"'
        invariant
            start <= j <= len,
            len == s@.len(),
            content_run_len(s@, start as int) == j - start + content_run_len(s@, j as int),
        decreases len - j,
    {
        j = j + 1;
    }
    j - start
}

// ---------------------------------------------------------------------------
// Numbers
// ---------------------------------------------------------------------------

/// Value of the digits of `s[i..j)`, most significant first, dots skipped.
pub open spec fn numval(s: Seq<char>, i: int, j: int) -> int
    decreases j - i when 0 <= i <= j <= s.len()
{
    if i >= j {
        0
    } else if s[j - 1] == '.' {
        numval(s, i, j - 1)
    } else {
        numval(s, i, j - 1) * 10 + (s[j - 1] as u32 - 48)
    }
}

/// How many dots `s[i..j)` holds.
pub open spec fn dot_count(s: Seq<char>, i: int, j: int) -> nat
    decreases j - i when 0 <= i <= j <= s.len()
{
    if i >= j {
        0
    } else if s[j - 1] == '.' {
        (1 + dot_count(s, i, j - 1)) as nat
    } else {
        dot_count(s, i, j - 1)
    }
}

/// How many characters of `s[i..j)` stand after its last dot.
pub open spec fn frac_digits(s: Seq<char>, i: int, j: int) -> nat
    decreases j - i when 0 <= i <= j <= s.len()
{
    if i >= j {
        0
    } else if s[j - 1] == '.' {
        0
    } else {
        (1 + frac_digits(s, i, j - 1)) as nat
    }
}

/// Strips trailing decimal zeros: divides `m` by ten, `sc` times at most,
/// while `m` ends in a zero digit.
pub open spec fn float_norm(m: int, sc: int) -> (int, int)
    decreases sc when sc >= 0
{
    if sc > 0 && m % 10 == 0 {
        float_norm(m / 10, sc - 1)
    } else {
        (m, sc)
    }
}

/// The token of a numeric span `s[i..j)`: an integer when it has no dot and
/// fits `isize`, a float when it has exactly one dot, one digit at least, and
/// its digits fit `u64`; anything else is unknown.
pub open spec fn number_token(s: Seq<char>, i: int, j: int) -> LexTok {
    let v = numval(s, i, j);
    let d = dot_count(s, i, j);
    if d == 0 {
        if v <= isize::MAX as int {
            LexTok::NumberInteger(v)
        } else {
            LexTok::UnknownToken(s.subrange(i, j))
        }
    } else if d == 1 && j - i >= 2 {
        if v <= u64::MAX as int {
            let nf = float_norm(v, frac_digits(s, i, j) as int);
            LexTok::NumberFloat(nf.0, nf.1)
        } else {
            LexTok::UnknownToken(s.subrange(i, j))
        }
    } else {
        LexTok::UnknownToken(s.subrange(i, j))
    }
}

/// A decimal floating-point value: `mantissa / 10^scale`, held exactly.
///
/// The pair is kept normalised (no trailing zero digit in the fraction), so
/// structural equality coincides with equality of the decimal values.
#[derive(Clone, Copy, Debug, PartialEq, Eq, Structural)]
pub struct JFloat {
    pub mantissa: u64,
    pub scale: usize,
}

impl View for JFloat {
    type V = (int, int);

    open spec fn view(&self) -> (int, int) {
        (self.mantissa as int, self.scale as int)
    }
}

impl JFloat {
    /// A normalised pair: either the fraction is empty or it does not end in
    /// a zero digit.
    pub open spec fn wf(&self) -> bool {
        self.scale > 0 ==> self.mantissa % 10 != 0
    }

    /// Builds the value `mantissa / 10^scale`, normalising it first.
    pub fn new(mantissa: u64, scale: usize) -> (r: JFloat)
        ensures
            r@ == float_norm(mantissa as int, scale as int),
            r.wf(),
    {
        let mut m = mantissa;
        let mut sc = scale;
        while sc > 0 && m % 10 == 0
            invariant
                float_norm(mantissa as int, scale as int) == float_norm(m as int, sc as int),
        decreases sc,
        {
            m = m / 10;
            sc = sc - 1;
        }
        JFloat { mantissa: m, scale: sc }
    }
}

// ---------------------------------------------------------------------------
// Tokens
// ---------------------------------------------------------------------------

/// Mathematical model of a lexer token.
pub enum LexTok {
    Whitespace,
    ObjectBegin,
    ObjectEnd,
    ArrayBegin,
    ArrayEnd,
    NameSeparator,
    ValueSeparator,
    StringToken,
    TrueToken,
    FalseToken,
    NullToken,
    StringContent(Seq<char>),
    NumberInteger(int),
    NumberFloat(int, int),
    UnknownToken(Seq<char>),
}

/// The class of a token, without its payload. The lexer's two-token memory
/// only needs classes.
#[derive(Clone, Copy, Debug, PartialEq, Eq, Structural)]
pub enum TokKind {
    Whitespace,
    ObjectBegin,
    ObjectEnd,
    ArrayBegin,
    ArrayEnd,
    NameSeparator,
    ValueSeparator,
    StringToken,
    TrueToken,
    FalseToken,
    NullToken,
    StringContent,
    NumberInteger,
    NumberFloat,
    UnknownToken,
}

/// The class of a model token.
pub open spec fn lextok_kind(t: LexTok) -> TokKind {
    match t {
        LexTok::Whitespace => TokKind::Whitespace,
        LexTok::ObjectBegin => TokKind::ObjectBegin,
        LexTok::ObjectEnd => TokKind::ObjectEnd,
        LexTok::ArrayBegin => TokKind::ArrayBegin,
        LexTok::ArrayEnd => TokKind::ArrayEnd,
        LexTok::NameSeparator => TokKind::NameSeparator,
        LexTok::ValueSeparator => TokKind::ValueSeparator,
        LexTok::StringToken => TokKind::StringToken,
        LexTok::TrueToken => TokKind::TrueToken,
        LexTok::FalseToken => TokKind::FalseToken,
        LexTok::NullToken => TokKind::NullToken,
        LexTok::StringContent(_) => TokKind::StringContent,
        LexTok::NumberInteger(_) => TokKind::NumberInteger,
        LexTok::NumberFloat(_, _) => TokKind::NumberFloat,
        LexTok::UnknownToken(_) => TokKind::UnknownToken,
    }
}

/// All possible tokens provided by the lexer.
#[derive(Debug, Clone, PartialEq)]
pub enum JLexerToken {
    /// One or multiple whitespaces of any kind (' ', '\r', '\n', '\t').
    Whitespace,
    /// `{`.
    ObjectBegin,
    /// `}`.
    ObjectEnd,
    /// `[`.
    ArrayBegin,
    /// `]`.
    ArrayEnd,
    /// `:`.
    NameSeparator,
    /// `,`.
    ValueSeparator,
    /// `"`.
    StringToken,
    /// `true`.
    TrueToken,
    /// `false`.
    FalseToken,
    /// `null`.
    NullToken,
    /// Any kind of string content.
    StringContent(String),
    /// Integer number.
    NumberInteger(isize),
    /// Floating point value, held as an exact decimal.
    NumberFloat(JFloat),
    /// Any other unknown token, which we are not able to identify.
    UnknownToken(String),
}

impl View for JLexerToken {
    type V = LexTok;

    open spec fn view(&self) -> LexTok {
        match self {
            JLexerToken::Whitespace => LexTok::Whitespace,
            JLexerToken::ObjectBegin => LexTok::ObjectBegin,
            JLexerToken::ObjectEnd => LexTok::ObjectEnd,
            JLexerToken::ArrayBegin => LexTok::ArrayBegin,
            JLexerToken::ArrayEnd => LexTok::ArrayEnd,
            JLexerToken::NameSeparator => LexTok::NameSeparator,
            JLexerToken::ValueSeparator => LexTok::ValueSeparator,
            JLexerToken::StringToken => LexTok::StringToken,
            JLexerToken::TrueToken => LexTok::TrueToken,
            JLexerToken::FalseToken => LexTok::FalseToken,
            JLexerToken::NullToken => LexTok::NullToken,
            JLexerToken::StringContent(s) => LexTok::StringContent(s@),
            JLexerToken::NumberInteger(i) => LexTok::NumberInteger(*i as int),
            JLexerToken::NumberFloat(f) => LexTok::NumberFloat(f@.0, f@.1),
            JLexerToken::UnknownToken(s) => LexTok::UnknownToken(s@),
        }
    }
}

impl JLexerToken {
    pub fn is_string_content(&self) -> (r: bool)
        ensures
            r == (self@ is StringContent),
    {
        match self {
            JLexerToken::StringContent(_) => true,
            _ => false,
        }
    }
}

// ---------------------------------------------------------------------------
// The lexer
// ---------------------------------------------------------------------------

/// Whether the two last token classes say that string content is expected:
/// right after an opening quote mark, but not after a closing one.
pub open spec fn expects_sc(k0: TokKind, k1: TokKind) -> bool {
    k1 == TokKind::StringToken && !(k0 == TokKind::StringContent || k0 == TokKind::StringToken)
}

/// One step of the lexer on text `s` at position `i` with string-content
/// expectation `sc`: the token produced and how many characters it spans,
/// or `None` when no further token can be produced there.
pub open spec fn lex_next(s: Seq<char>, i: int, sc: bool) -> Option<(LexTok, nat)> {
    if i >= s.len() {
        None
    } else {
        let c = s[i];
        if sc {
            if c == '"' {
                Some((LexTok::StringToken, 1))
            } else {
                let n = content_run_len(s, i);
                Some((LexTok::StringContent(s.subrange(i, i + n)), n))
            }
        } else if is_num_char(c) {
            let n = num_run_len(s, i);
            Some((number_token(s, i, i + n), n))
        } else if is_ws_char(c) {
            Some((LexTok::Whitespace, ws_run_len(s, i)))
        } else if c == '{' {
            Some((LexTok::ObjectBegin, 1))
        } else if c == '}' {
            Some((LexTok::ObjectEnd, 1))
        } else if c == '[' {
            Some((LexTok::ArrayBegin, 1))
        } else if c == ']' {
            Some((LexTok::ArrayEnd, 1))
        } else if c == ':' {
            Some((LexTok::NameSeparator, 1))
        } else if c == ',' {
            Some((LexTok::ValueSeparator, 1))
        } else if c == '"' {
            Some((LexTok::StringToken, 1))
        } else if c == 't' {
            Some(keyword_token(s, i, seq!['t', 'r', 'u', 'e'], LexTok::TrueToken))
        } else if c == 'f' {
            Some(keyword_token(s, i, seq!['f', 'a', 'l', 's', 'e'], LexTok::FalseToken))
        } else if c == 'n' {
            Some(keyword_token(s, i, seq!['n', 'u', 'l', 'l'], LexTok::NullToken))
        } else {
            let n = alpha_run_len(s, i);
            if n == 0 {
                None
            } else {
                Some((LexTok::UnknownToken(s.subrange(i, i + n)), n))
            }
        }
    }
}

/// The token of an alphabetic span that should spell a literal keyword: the
/// keyword's token when the maximal alphabetic run matches it exactly, else
/// an unknown token carrying the actual run.
pub open spec fn keyword_token(s: Seq<char>, i: int, kw: Seq<char>, tk: LexTok) -> (LexTok, nat) {
    let n = alpha_run_len(s, i);
    if s.subrange(i, i + n) == kw {
        (tk, n)
    } else {
        (LexTok::UnknownToken(s.subrange(i, i + n)), n)
    }
}

/// Our JSON lexer over a string-based source.
///
/// Pulling tokens never fails; unrecognised spans surface as `UnknownToken`
/// values and classification is left to the parser on top. No token has zero
/// length, and the end of the input yields no more items.
#[derive(Debug)]
pub struct JLexer {
    /// The source text.
    pub source: String,
    /// Its length in characters.
    pub len: usize,
    /// Current scan position, a character index into `source`.
    pub pos: usize,
    /// Class of the token emitted before the last one.
    pub k0: TokKind,
    /// Class of the last emitted token.
    pub k1: TokKind,
}

impl JLexer {
    /// The lexer's internal consistency: the cached length is the source
    /// length and the scan position lies inside the source.
    pub open spec fn wf(&self) -> bool {
        self.len == self.source@.len() && self.pos <= self.len
    }

    /// New type pattern: generates a new lexer over the given source text.
    pub fn new(source: &str) -> (r: JLexer)
        ensures
            r.wf(),
            r.source@ == source@,
            r.pos == 0,
            r.k0 == TokKind::NullToken,
            r.k1 == TokKind::NullToken,
    {
        let owned = source.to_owned();
        let len = owned.as_str().unicode_len();
        JLexer { source: owned, len, pos: 0, k0: TokKind::NullToken, k1: TokKind::NullToken }
    }

    /// An identical lexer, used for lookahead.
    pub fn duplicate(&self) -> (r: JLexer)
        ensures
            r == *self,
    {
        JLexer {
            source: self.source.clone(),
            len: self.len,
            pos: self.pos,
            k0: self.k0,
            k1: self.k1,
        }
    }

    /// Whether the next produced token would be string content.
    fn expects_string_content(&self) -> (r: bool)
        ensures
            r == expects_sc(self.k0, self.k1),
    {
        self.k1 == TokKind::StringToken
            && !(self.k0 == TokKind::StringContent || self.k0 == TokKind::StringToken)
    }

    /// Pulls the next token and its 1-based character position, exactly as
    /// [`lex_next`] describes; `None` once no further token can be produced.
    pub fn next(&mut self) -> (r: Option<(JLexerToken, usize)>)
        requires
            old(self).wf(),
        ensures
            final(self).wf(),
            final(self).source@ == old(self).source@,
            final(self).len == old(self).len,
            match lex_next(old(self).source@, old(self).pos as int, expects_sc(old(self).k0, old(self).k1)) {
                None => {
                    &&& r is None
                    &&& *final(self) == *old(self)
                },
                Some((tok, n)) => {
                    &&& r is Some
                    &&& (r->0).0@ == tok
                    &&& (r->0).1 == old(self).pos + 1
                    &&& final(self).pos == old(self).pos + n
                    &&& final(self).k0 == old(self).k1
                    &&& final(self).k1 == lextok_kind(tok)
                },
            },
    {
        if self.pos >= self.len {
            return None;
        }
        let start = self.pos;
        let c = self.source.as_str().get_char(start);
        let (tok, n): (JLexerToken, usize) = if self.expects_string_content() {
            if c == '"' {
                (JLexerToken::StringToken, 1)
            } else {
                let n = run_content(&self.source, self.len, start);
                let content = self.source.as_str().substring_char(start, start + n).to_owned();
                (JLexerToken::StringContent(content), n)
            }
        } else if is_number(c) {
            let n = run_num(&self.source, self.len, start);
            (try_lex_number(&self.source, self.len, start, n), n)
        } else if is_whitespace(c) {
            let n = run_ws(&self.source, self.len, start);
            (JLexerToken::Whitespace, n)
        } else if c == '{' {
            (JLexerToken::ObjectBegin, 1)
        } else if c == '}' {
            (JLexerToken::ObjectEnd, 1)
        } else if c == '[' {
            (JLexerToken::ArrayBegin, 1)
        } else if c == ']' {
            (JLexerToken::ArrayEnd, 1)
        } else if c == ':' {
            (JLexerToken::NameSeparator, 1)
        } else if c == ',' {
            (JLexerToken::ValueSeparator, 1)
        } else if c == '"' {
            (JLexerToken::StringToken, 1)
        } else if c == 't' {
            try_string_token(&self.source, self.len, start, JLexerToken::TrueToken)
        } else if c == 'f' {
            try_string_token(&self.source, self.len, start, JLexerToken::FalseToken)
        } else if c == 'n' {
            try_string_token(&self.source, self.len, start, JLexerToken::NullToken)
        } else {
            let n = run_alpha(&self.source, self.len, start);
            if n == 0 {
                return None;
            }
            let text = self.source.as_str().substring_char(start, start + n).to_owned();
            (JLexerToken::UnknownToken(text), n)
        };
        self.k0 = self.k1;
        let ghost t = tok@;
        self.k1 = token_kind(&tok);
        self.pos = start + n;
        Some((tok, start + 1))
    }
}

/// The class of a token.
fn token_kind(t: &JLexerToken) -> (r: TokKind)
    ensures
        r == lextok_kind(t@),
{
    match t {
        JLexerToken::Whitespace => TokKind::Whitespace,
        JLexerToken::ObjectBegin => TokKind::ObjectBegin,
        JLexerToken::ObjectEnd => TokKind::ObjectEnd,
        JLexerToken::ArrayBegin => TokKind::ArrayBegin,
        JLexerToken::ArrayEnd => TokKind::ArrayEnd,
        JLexerToken::NameSeparator => TokKind::NameSeparator,
        JLexerToken::ValueSeparator => TokKind::ValueSeparator,
        JLexerToken::StringToken => TokKind::StringToken,
        JLexerToken::TrueToken => TokKind::TrueToken,
        JLexerToken::FalseToken => TokKind::FalseToken,
        JLexerToken::NullToken => TokKind::NullToken,
        JLexerToken::StringContent(_) => TokKind::StringContent,
        JLexerToken::NumberInteger(_) => TokKind::NumberInteger,
        JLexerToken::NumberFloat(_) => TokKind::NumberFloat,
        JLexerToken::UnknownToken(_) => TokKind::UnknownToken,
    }
}

/// Classifies the numeric span of length `n` at `start`, per [`number_token`].
fn try_lex_number(s: &String, len: usize, start: usize, n: usize) -> (r: JLexerToken)
    requires
        len == s@.len(),
        start + n <= len,
        n == num_run_len(s@, start as int),
    ensures
        r@ == number_token(s@, start as int, start + n),
{
    let stop = start + n;
    let mut j = start;
    let mut acc: u64 = 0;
    let mut over: bool = false;
    let mut dots: usize = 0;
    let mut frac: usize = 0;
    while j < stop
        invariant
            start <= j <= stop <= len,
            len == s@.len(),
            n == num_run_len(s@, start as int),
            stop == start + n,
            forall|k: int| start <= k < j ==> is_num_char(s@[k]),
            !over ==> acc == numval(s@, start as int, j as int),
            over ==> numval(s@, start as int, j as int) > u64::MAX as int,
            dots == dot_count(s@, start as int, j as int),
            dots > 0 ==> frac == frac_digits(s@, start as int, j as int),
            dots <= j - start,
            frac <= j - start,
        decreases stop - j,
    {
        proof {
            num_run_extends(s@, start as int, j as int);
        }
        let c = s.as_str().get_char(j);
        if c == '.' {
            dots = dots + 1;
            frac = 0;
        } else {
            let d = (c as u32 - 48) as u64;
            if acc > (u64::MAX - d) / 10 {
                proof {
                    vstd::arithmetic::mul::lemma_mul_inequality(
                        ((u64::MAX - d) / 10 + 1) as int,
                        acc as int,
                        10,
                    );
                }
                over = true;
            } else if !over {
                assert(acc * 10 + d <= u64::MAX) by (nonlinear_arith)
                    requires
                        acc <= (u64::MAX - d) / 10,
                        d <= 9,
                {};
                acc = acc * 10 + d;
            } else {
                proof {
                    vstd::arithmetic::mul::lemma_mul_inequality(
                        (u64::MAX as int + 1),
                        numval(s@, start as int, j as int),
                        10,
                    );
                }
            }
            if dots > 0 {
                frac = frac + 1;
            }
        }
        j = j + 1;
    }
    if dots == 0 {
        if !over && acc <= isize::MAX as u64 {
            JLexerToken::NumberInteger(acc as isize)
        } else {
            JLexerToken::UnknownToken(s.as_str().substring_char(start, stop).to_owned())
        }
    } else if dots == 1 && n >= 2 {
        if !over {
            JLexerToken::NumberFloat(JFloat::new(acc, frac))
        } else {
            JLexerToken::UnknownToken(s.as_str().substring_char(start, stop).to_owned())
        }
    } else {
        JLexerToken::UnknownToken(s.as_str().substring_char(start, stop).to_owned())
    }
}

proof fn num_run_extends(s: Seq<char>, start: int, j: int)
    requires
        0 <= start <= j,
        j < start + num_run_len(s, start),
        start + num_run_len(s, start) <= s.len(),
    ensures
        is_num_char(s[j]),
    decreases j - start,
{
    if j > start {
        num_run_extends(s, start + 1, j);
    }
}

/// Scans the maximal alphabetic run at `start` and yields `tk` when it spells
/// that keyword, else an unknown token with the run's text.
fn try_string_token(s: &String, len: usize, start: usize, tk: JLexerToken) -> (r: (
    JLexerToken,
    usize,
))
    requires
        len == s@.len(),
        start < len,
        tk@ == LexTok::TrueToken ==> s@[start as int] == 't',
        tk@ == LexTok::FalseToken ==> s@[start as int] == 'f',
        tk@ == LexTok::NullToken ==> s@[start as int] == 'n',
        tk@ is TrueToken || tk@ is FalseToken || tk@ is NullToken,
    ensures
        ({
            let kw = if tk@ is TrueToken {
                seq!['t', 'r', 'u', 'e']
            } else if tk@ is FalseToken {
                seq!['f', 'a', 'l', 's', 'e']
            } else {
                seq!['n', 'u', 'l', 'l']
            };
            (r.0@, r.1 as nat) == keyword_token(s@, start as int, kw, tk@)
        }),
        start + r.1 <= len,
{
    let n = run_alpha(s, len, start);
    let matched: bool = match &tk {
        JLexerToken::TrueToken => {
            n == 4 && s.as_str().get_char(start + 1) == 'r' && s.as_str().get_char(start + 2)
                == 'u' && s.as_str().get_char(start + 3) == 'e'
        },
        JLexerToken::FalseToken => {
            n == 5 && s.as_str().get_char(start + 1) == 'a' && s.as_str().get_char(start + 2)
                == 'l' && s.as_str().get_char(start + 3) == 's' && s.as_str().get_char(start + 4)
                == 'e'
        },
        _ => {
            n == 4 && s.as_str().get_char(start + 1) == 'u' && s.as_str().get_char(start + 2)
                == 'l' && s.as_str().get_char(start + 3) == 'l'
        },
    };
    proof {
        let kw = if tk@ is TrueToken {
            seq!['t', 'r', 'u', 'e']
        } else if tk@ is FalseToken {
            seq!['f', 'a', 'l', 's', 'e']
        } else {
            seq!['n', 'u', 'l', 'l']
        };
        if matched {
            assert(s@.subrange(start as int, start + n) =~= kw);
        } else {
            assert(s@.subrange(start as int, start + n) != kw) by {
                let sub = s@.subrange(start as int, start + n);
                if sub == kw {
                    assert(sub.len() == kw.len());
                    assert(forall|k: int| 0 <= k < n ==> sub[k] == s@[start + k]);
                }
            };
        }
    }
    if matched {
        (tk, n)
    } else {
        let text = s.as_str().substring_char(start, start + n).to_owned();
        (JLexerToken::UnknownToken(text), n)
    }
}

} // verus!
