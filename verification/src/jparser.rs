//! The JSON parser on top of [`crate::jlexer`].
//!
//! [`JPartialParser`] wraps the lexer, discards whitespace and quote-mark
//! tokens, tracks the set of token classes that are syntactically legal next,
//! and emits validated partial tokens (object boundaries, member names,
//! member values, flat arrays) or a positioned [`JParseError`].
//! [`JParser`] drives that sequence to assemble the document tree.
//!
//! The grammar validator's behaviour is pinned down by the spec function
//! [`pp_step`]: one call of [`JPartialParser::next`] performs exactly one
//! `pp_step`. The tree builder's behaviour is pinned down by [`spec_parse`].

use vstd::prelude::*;

use crate::jlexer::{
    expects_sc, lemma_lex_next_bounds, lex_next, lextok_kind, JLexer, JLexerToken, LexTok, TokKind,
};
use crate::jparser_types::{
    member_model, partial_to_value, pvals, JMember, JObject, JPartialValue, JValue, MemberM, PValM,
    ValM,
};

verus! {

// ---------------------------------------------------------------------------
// Tokens, expectations, errors
// ---------------------------------------------------------------------------

/// Model of a partial token.
pub enum PTokM {
    ObjectBegin,
    ObjectEnd,
    Array(Seq<PValM>),
    MemberName(Seq<char>),
    MemberValue(PValM),
}

/// Possible tokens created by the JPartialParser as input for JParser.
#[derive(Clone, Debug, PartialEq)]
pub enum JPartialToken {
    ObjectBegin,
    ObjectEnd,
    Array(Vec<JPartialValue>),
    MemberName(String),
    MemberValue(JPartialValue),
}

impl View for JPartialToken {
    type V = PTokM;

    open spec fn view(&self) -> PTokM {
        match self {
            JPartialToken::ObjectBegin => PTokM::ObjectBegin,
            JPartialToken::ObjectEnd => PTokM::ObjectEnd,
            JPartialToken::Array(a) => PTokM::Array(pvals(a@)),
            JPartialToken::MemberName(s) => PTokM::MemberName(s@),
            JPartialToken::MemberValue(v) => PTokM::MemberValue(v@),
        }
    }
}

/// This is a reduced variant of JPartialToken, only interpreted as expectation
/// of JPartialParser. The purpose of this definition is controlling the syntax
/// and grammar of the JSON source.
#[derive(Clone, Copy, Debug, PartialEq, Eq, Structural)]
pub enum JPartialExpect {
    ObjectBegin,
    ObjectEnd,
    MemberName,
    MemberValue,
}

/// Model of the feedback attached to an unexpected-token error.
pub enum FeedbM {
    Expect(Seq<JPartialExpect>),
    PTok(PTokM),
    LTok(LexTok),
}

/// What was found and what was expected, for error feedback.
#[derive(Clone, Debug, PartialEq)]
pub enum UnexpTokenFeedb {
    JPExpect(Vec<JPartialExpect>),
    JPToken(JPartialToken),
    JLToken(JLexerToken),
}

impl View for UnexpTokenFeedb {
    type V = FeedbM;

    open spec fn view(&self) -> FeedbM {
        match self {
            UnexpTokenFeedb::JPExpect(v) => FeedbM::Expect(v@),
            UnexpTokenFeedb::JPToken(t) => FeedbM::PTok(t@),
            UnexpTokenFeedb::JLToken(t) => FeedbM::LTok(t@),
        }
    }
}

/// Model of a parse error.
pub enum ErrM {
    NoBeginningObject(int),
    UnclosedObject(int),
    UnclosedArray(int),
    UnexpectedEnd(int),
    UnexpectedToken(int, FeedbM, FeedbM),
    UnknownToken(int, Seq<char>),
}

/// Possible errors thrown by the JParser regarding grammar or token errors of
/// the JSON source. Every variant carries the offending 1-based position.
#[derive(Clone, Debug, PartialEq)]
pub enum JParseError {
    /// If source contains no main object: `{ }`.
    NoBeginningObject(usize),
    /// If some object is not closed properly, missing `}`.
    UnclosedObject(usize),
    /// If an array was not closed by `]`.
    UnclosedArray(usize),
    /// Unexpected end of source.
    UnexpectedEnd(usize),
    /// Unexpected token at this position, what we found and what we expected.
    UnexpectedToken(usize, UnexpTokenFeedb, UnexpTokenFeedb),
    /// Unknown token was returned from the lexer.
    UnknownToken(usize, String),
}

impl View for JParseError {
    type V = ErrM;

    open spec fn view(&self) -> ErrM {
        match self {
            JParseError::NoBeginningObject(p) => ErrM::NoBeginningObject(*p as int),
            JParseError::UnclosedObject(p) => ErrM::UnclosedObject(*p as int),
            JParseError::UnclosedArray(p) => ErrM::UnclosedArray(*p as int),
            JParseError::UnexpectedEnd(p) => ErrM::UnexpectedEnd(*p as int),
            JParseError::UnexpectedToken(p, found, exp) => ErrM::UnexpectedToken(
                *p as int,
                found@,
                exp@,
            ),
            JParseError::UnknownToken(p, s) => ErrM::UnknownToken(*p as int, s@),
        }
    }
}

/// A generic Result for JParser.
pub type JPResult<T> = Result<T, JParseError>;

// ---------------------------------------------------------------------------
// Model of the validator's state and of one validation step
// ---------------------------------------------------------------------------

/// Model of a lexer state: scan position and two-token memory.
#[verifier::ext_equal]
pub struct LexSt {
    pub pos: int,
    pub k0: TokKind,
    pub k1: TokKind,
}

/// Model of the grammar validator's state.
#[verifier::ext_equal]
pub struct PPState {
    pub ls: LexSt,
    pub expect: Seq<JPartialExpect>,
    pub depth: int,
}

/// The state of a lexer.
pub open spec fn lex_st(l: JLexer) -> LexSt {
    LexSt { pos: l.pos as int, k0: l.k0, k1: l.k1 }
}

/// Whether the validator passes a token class on: whitespace and bare quote
/// marks are discarded.
pub open spec fn keep_tok(t: LexTok) -> bool {
    !(t is Whitespace || t is StringToken)
}

/// The next kept token of `s` from lexer state `ls`, with its 1-based
/// position, and the lexer state after it; or `None` and the final state when
/// the lexer is exhausted first.
pub open spec fn pull_filtered(s: Seq<char>, ls: LexSt) -> (Option<(LexTok, int)>, LexSt)
    decreases s.len() - ls.pos
        when 0 <= ls.pos <= s.len()
        via pull_filtered_decreases
{
    match lex_next(s, ls.pos, expects_sc(ls.k0, ls.k1)) {
        None => (None, ls),
        Some((tok, n)) => {
            let ls2 = LexSt { pos: ls.pos + n, k0: ls.k1, k1: lextok_kind(tok) };
            if keep_tok(tok) {
                (Some((tok, ls.pos + 1)), ls2)
            } else {
                pull_filtered(s, ls2)
            }
        },
    }
}

#[via_fn]
proof fn pull_filtered_decreases(s: Seq<char>, ls: LexSt) {
    lemma_lex_next_bounds(s, ls.pos, expects_sc(ls.k0, ls.k1));
}

/// `pull_filtered` never moves backwards, stays inside the text, and moves
/// strictly forward when it yields a token; a yielded token is a kept one and
/// its position lies in the consumed span.
pub proof fn lemma_pull_bounds(s: Seq<char>, ls: LexSt)
    requires
        0 <= ls.pos <= s.len(),
    ensures
        ({
            let (r, ls2) = pull_filtered(s, ls);
            &&& ls.pos <= ls2.pos <= s.len()
            &&& r is Some ==> {
                &&& ls2.pos > ls.pos
                &&& keep_tok((r->0).0)
                &&& ls.pos + 1 <= (r->0).1 <= ls2.pos
            }
        }),
    decreases s.len() - ls.pos,
{
    lemma_lex_next_bounds(s, ls.pos, expects_sc(ls.k0, ls.k1));
    match lex_next(s, ls.pos, expects_sc(ls.k0, ls.k1)) {
        None => {},
        Some((tok, n)) => {
            let ls2 = LexSt { pos: ls.pos + n, k0: ls.k1, k1: lextok_kind(tok) };
            if !keep_tok(tok) {
                lemma_pull_bounds(s, ls2);
            }
        },
    }
}

/// The post-member-value lookahead rule: when the next kept token is a value
/// separator it is consumed and a member name is expected; otherwise nothing
/// is consumed and the enclosing object must close.
pub open spec fn after_value(s: Seq<char>, ls: LexSt) -> (LexSt, Seq<JPartialExpect>) {
    let (r, ls2) = pull_filtered(s, ls);
    if r is Some && (r->0).0 is ValueSeparator {
        (ls2, seq![JPartialExpect::MemberName])
    } else {
        (ls, seq![JPartialExpect::ObjectEnd])
    }
}

/// Whether a lexer token satisfies one expectation.
pub open spec fn tok_matches_expect(e: JPartialExpect, t: LexTok) -> bool {
    match e {
        JPartialExpect::ObjectBegin => t is ObjectBegin,
        JPartialExpect::ObjectEnd => t is ObjectEnd,
        JPartialExpect::MemberName => t is StringContent,
        JPartialExpect::MemberValue => t is ArrayBegin || t is ObjectBegin || t is StringContent
            || t is NumberFloat || t is NumberInteger || t is NullToken || t is TrueToken
            || t is FalseToken,
    }
}

/// Whether a lexer token satisfies any expectation of the set.
pub open spec fn expected_ok(expect: Seq<JPartialExpect>, t: LexTok) -> bool {
    exists|i: int| 0 <= i < expect.len() && tok_matches_expect(expect[i], t)
}

/// Whether a token is a scalar value token, legal as an array element.
pub open spec fn is_scalar_tok(t: LexTok) -> bool {
    t is StringContent || t is NumberInteger || t is NumberFloat || t is TrueToken
        || t is FalseToken || t is NullToken
}

/// The scalar partial value of a scalar value token.
pub open spec fn scalar_val(t: LexTok) -> PValM {
    match t {
        LexTok::StringContent(s) => PValM::String(s),
        LexTok::NumberInteger(i) => PValM::Integer(i),
        LexTok::NumberFloat(m, sc) => PValM::Float(m, sc),
        LexTok::TrueToken => PValM::True,
        LexTok::FalseToken => PValM::False,
        _ => PValM::Null,
    }
}

/// Eager collection of an array's elements: scalar tokens are accepted, a
/// value separator after an element continues the loop, anything else before
/// the closing bracket is an unexpected token (reported with the stale outer
/// expectation set, as the validator does); the element after which no
/// separator follows ends the loop. Yields the elements, the lexer state
/// reached, and the early error if one arose.
pub open spec fn array_fill(
    s: Seq<char>,
    ls: LexSt,
    acc: Seq<PValM>,
    expect: Seq<JPartialExpect>,
) -> (Seq<PValM>, LexSt, Option<ErrM>)
    decreases s.len() - ls.pos
        when 0 <= ls.pos <= s.len()
        via array_fill_decreases
{
    let (r, ls1) = pull_filtered(s, ls);
    match r {
        None => (acc, ls1, None),
        Some((t, pi)) => {
            if is_scalar_tok(t) {
                let acc2 = acc.push(scalar_val(t));
                let (r2, ls2) = pull_filtered(s, ls1);
                if r2 is Some && (r2->0).0 is ValueSeparator {
                    array_fill(s, ls2, acc2, expect)
                } else {
                    (acc2, ls1, None)
                }
            } else {
                (
                    acc,
                    ls1,
                    Some(ErrM::UnexpectedToken(pi, FeedbM::LTok(t), FeedbM::Expect(expect))),
                )
            }
        },
    }
}

#[via_fn]
proof fn array_fill_decreases(s: Seq<char>, ls: LexSt, acc: Seq<PValM>, expect: Seq<JPartialExpect>) {
    lemma_pull_bounds(s, ls);
    let (r, ls1) = pull_filtered(s, ls);
    if r is Some {
        lemma_pull_bounds(s, ls1);
    }
}

/// `array_fill` never moves backwards and stays inside the text.
pub proof fn lemma_array_fill_bounds(
    s: Seq<char>,
    ls: LexSt,
    acc: Seq<PValM>,
    expect: Seq<JPartialExpect>,
)
    requires
        0 <= ls.pos <= s.len(),
    ensures
        ls.pos <= array_fill(s, ls, acc, expect).1.pos <= s.len(),
    decreases s.len() - ls.pos,
{
    lemma_pull_bounds(s, ls);
    let (r, ls1) = pull_filtered(s, ls);
    match r {
        None => {},
        Some((t, pi)) => {
            if is_scalar_tok(t) {
                lemma_pull_bounds(s, ls1);
                let (r2, ls2) = pull_filtered(s, ls1);
                if r2 is Some && (r2->0).0 is ValueSeparator {
                    lemma_array_fill_bounds(s, ls2, acc.push(scalar_val(t)), expect);
                }
            }
        },
    }
}

/// The validator's handling of `[`, after the bracket at position `p` was
/// consumed: collect elements eagerly, require the closing bracket, then
/// apply the post-member-value lookahead.
pub open spec fn step_array(
    s: Seq<char>,
    ls0: LexSt,
    p: int,
    expect: Seq<JPartialExpect>,
    depth: int,
) -> (Option<Result<(PTokM, int), ErrM>>, PPState) {
    let (pk, _) = pull_filtered(s, ls0);
    let filled = if pk is Some && (pk->0).0 is ArrayEnd {
        (Seq::<PValM>::empty(), ls0, None)
    } else {
        array_fill(s, ls0, Seq::empty(), expect)
    };
    let (acc, ls1, early) = filled;
    match early {
        Some(e) => (Some(Err(e)), PPState { ls: ls1, expect, depth }),
        None => {
            let (r2, ls2) = pull_filtered(s, ls1);
            match r2 {
                None => (Some(Err(ErrM::UnexpectedEnd(p))), PPState { ls: ls2, expect, depth }),
                Some((t2, _)) => {
                    if t2 is ArrayEnd {
                        let (ls3, ex3) = after_value(s, ls2);
                        (
                            Some(Ok((PTokM::Array(acc), p))),
                            PPState { ls: ls3, expect: ex3, depth },
                        )
                    } else {
                        (
                            Some(
                                Err(
                                    ErrM::UnexpectedToken(
                                        p,
                                        FeedbM::LTok(t2),
                                        FeedbM::LTok(LexTok::ArrayEnd),
                                    ),
                                ),
                            ),
                            PPState { ls: ls2, expect, depth },
                        )
                    }
                },
            }
        },
    }
}

/// One step of the grammar validator: pull the next kept token, check it
/// against the expectation set, and produce the partial token or error,
/// together with the validator's next state. `None` when the token stream is
/// exhausted.
pub open spec fn pp_step(s: Seq<char>, ps: PPState) -> (
    Option<Result<(PTokM, int), ErrM>>,
    PPState,
) {
    let (r, ls1) = pull_filtered(s, ps.ls);
    match r {
        None => (None, PPState { ls: ls1, ..ps }),
        Some((t, p)) => {
            if !expected_ok(ps.expect, t) {
                (
                    Some(
                        Err(ErrM::UnexpectedToken(p, FeedbM::LTok(t), FeedbM::Expect(ps.expect))),
                    ),
                    PPState { ls: ls1, ..ps },
                )
            } else {
                match t {
                    LexTok::ObjectBegin => (
                        Some(Ok((PTokM::ObjectBegin, p))),
                        PPState {
                            ls: ls1,
                            expect: seq![JPartialExpect::MemberName, JPartialExpect::ObjectEnd],
                            depth: ps.depth + 1,
                        },
                    ),
                    LexTok::ObjectEnd => {
                        if ps.depth > 0 {
                            let (ls2, ex2) = after_value(s, ls1);
                            (
                                Some(Ok((PTokM::ObjectEnd, p))),
                                PPState { ls: ls2, expect: ex2, depth: ps.depth - 1 },
                            )
                        } else {
                            (Some(Err(ErrM::UnclosedObject(p))), PPState { ls: ls1, ..ps })
                        }
                    },
                    LexTok::ArrayBegin => step_array(s, ls1, p, ps.expect, ps.depth),
                    LexTok::TrueToken => step_value(s, ls1, p, PValM::True, ps.depth),
                    LexTok::FalseToken => step_value(s, ls1, p, PValM::False, ps.depth),
                    LexTok::NullToken => step_value(s, ls1, p, PValM::Null, ps.depth),
                    LexTok::NumberInteger(i) => step_value(s, ls1, p, PValM::Integer(i), ps.depth),
                    LexTok::NumberFloat(m, sc) => step_value(
                        s,
                        ls1,
                        p,
                        PValM::Float(m, sc),
                        ps.depth,
                    ),
                    LexTok::StringContent(txt) => {
                        if ps.expect.contains(JPartialExpect::MemberName) {
                            let (r2, ls2) = pull_filtered(s, ls1);
                            match r2 {
                                None => (
                                    Some(Err(ErrM::UnexpectedEnd(p))),
                                    PPState { ls: ls2, ..ps },
                                ),
                                Some((t2, _)) => {
                                    if t2 is NameSeparator {
                                        (
                                            Some(Ok((PTokM::MemberName(txt), p))),
                                            PPState {
                                                ls: ls2,
                                                expect: seq![
                                                    JPartialExpect::MemberValue,
                                                    JPartialExpect::ObjectBegin,
                                                ],
                                                depth: ps.depth,
                                            },
                                        )
                                    } else {
                                        (
                                            Some(
                                                Err(
                                                    ErrM::UnexpectedToken(
                                                        p,
                                                        FeedbM::LTok(t2),
                                                        FeedbM::LTok(LexTok::NameSeparator),
                                                    ),
                                                ),
                                            ),
                                            PPState { ls: ls2, ..ps },
                                        )
                                    }
                                },
                            }
                        } else {
                            step_value(s, ls1, p, PValM::String(txt), ps.depth)
                        }
                    },
                    LexTok::UnknownToken(txt) => (
                        Some(Err(ErrM::UnknownToken(p, txt))),
                        PPState { ls: ls1, ..ps },
                    ),
                    _ => (None, PPState { ls: ls1, ..ps }),
                }
            }
        },
    }
}

/// The emission of a member value at position `p`, with the post-member-value
/// lookahead applied.
pub open spec fn step_value(s: Seq<char>, ls1: LexSt, p: int, v: PValM, depth: int) -> (
    Option<Result<(PTokM, int), ErrM>>,
    PPState,
) {
    let (ls2, ex2) = after_value(s, ls1);
    (Some(Ok((PTokM::MemberValue(v), p))), PPState { ls: ls2, expect: ex2, depth })
}

/// A validation step never moves the scan backwards, stays inside the text,
/// and moves strictly forward whenever it produces anything.
pub proof fn lemma_pp_step_bounds(s: Seq<char>, ps: PPState)
    requires
        0 <= ps.ls.pos <= s.len(),
    ensures
        ({
            let (r, ps1) = pp_step(s, ps);
            &&& ps.ls.pos <= ps1.ls.pos <= s.len()
            &&& r is Some ==> ps1.ls.pos > ps.ls.pos
        }),
{
    lemma_pull_bounds(s, ps.ls);
    let (r, ls1) = pull_filtered(s, ps.ls);
    match r {
        None => {},
        Some((t, p)) => {
            lemma_pull_bounds(s, ls1);
            let (rb, lsb) = pull_filtered(s, ls1);
            if rb is Some {
                lemma_pull_bounds(s, lsb);
            }
            match t {
                LexTok::ArrayBegin => {
                    lemma_array_fill_bounds(s, ls1, Seq::empty(), ps.expect);
                    let (acc, lsf, early) = array_fill(s, ls1, Seq::empty(), ps.expect);
                    lemma_pull_bounds(s, lsf);
                    let (r2, ls2) = pull_filtered(s, lsf);
                    if r2 is Some {
                        lemma_pull_bounds(s, ls2);
                    }
                },
                _ => {},
            }
        },
    }
}

// ---------------------------------------------------------------------------
// The grammar validator
// ---------------------------------------------------------------------------

/// Whether one call of the validator, from `ps`, produces `r`.
pub open spec fn result_models(
    r: JPResult<(JPartialToken, usize)>,
    m: Result<(PTokM, int), ErrM>,
) -> bool {
    match (r, m) {
        (Ok((pt, p)), Ok((ptm, pm))) => pt@ == ptm && p as int == pm,
        (Err(e), Err(em)) => e@ == em,
        _ => false,
    }
}

/// A vector of one expectation.
fn one_expect(a: JPartialExpect) -> (r: Vec<JPartialExpect>)
    ensures
        r@ =~= seq![a],
{
    let mut v: Vec<JPartialExpect> = Vec::new();
    v.push(a);
    v
}

/// A vector of two expectations.
fn two_expect(a: JPartialExpect, b: JPartialExpect) -> (r: Vec<JPartialExpect>)
    ensures
        r@ =~= seq![a, b],
{
    let mut v: Vec<JPartialExpect> = Vec::new();
    v.push(a);
    v.push(b);
    v
}

/// A copy of an expectation vector.
fn dup_expect(v: &Vec<JPartialExpect>) -> (r: Vec<JPartialExpect>)
    ensures
        r@ =~= v@,
{
    let mut out: Vec<JPartialExpect> = Vec::new();
    let mut i: usize = 0;
    while i < v.len()
        invariant
            i <= v.len(),
            out@ =~= v@.take(i as int),
        decreases v.len() - i,
    {
        out.push(v[i]);
        proof {
            assert(out@ =~= v@.take(i + 1));
        }
        i = i + 1;
    }
    proof {
        assert(v@.take(v@.len() as int) =~= v@);
    }
    out
}

/// A copy of a lexer token, with the same model.
fn dup_token(t: &JLexerToken) -> (r: JLexerToken)
    ensures
        r@ == t@,
{
    match t {
        JLexerToken::Whitespace => JLexerToken::Whitespace,
        JLexerToken::ObjectBegin => JLexerToken::ObjectBegin,
        JLexerToken::ObjectEnd => JLexerToken::ObjectEnd,
        JLexerToken::ArrayBegin => JLexerToken::ArrayBegin,
        JLexerToken::ArrayEnd => JLexerToken::ArrayEnd,
        JLexerToken::NameSeparator => JLexerToken::NameSeparator,
        JLexerToken::ValueSeparator => JLexerToken::ValueSeparator,
        JLexerToken::StringToken => JLexerToken::StringToken,
        JLexerToken::TrueToken => JLexerToken::TrueToken,
        JLexerToken::FalseToken => JLexerToken::FalseToken,
        JLexerToken::NullToken => JLexerToken::NullToken,
        JLexerToken::StringContent(s) => JLexerToken::StringContent(s.clone()),
        JLexerToken::NumberInteger(i) => JLexerToken::NumberInteger(*i),
        JLexerToken::NumberFloat(f) => JLexerToken::NumberFloat(*f),
        JLexerToken::UnknownToken(s) => JLexerToken::UnknownToken(s.clone()),
    }
}

/// The JParser on top of the JLexer checks for a proper syntax/structure of
/// the JSON source.
///
/// Because every JSON text needs to contain at least `{}`, some kind of main
/// object, that opening is validated but the main object itself is not an
/// output: the first emitted item describes what stands inside it.
#[derive(Debug)]
pub struct JPartialParser {
    /// Internal lexer to go through source token by token.
    pub lexer: JLexer,
    /// Expectation for next token, dependent on JSON grammar.
    pub expect: Vec<JPartialExpect>,
    /// Depth of open objects, used to validate that `}` closes a real one.
    pub object_cnt: usize,
    /// Counter of parsed elements.
    pub count: usize,
}

impl View for JPartialParser {
    type V = PPState;

    open spec fn view(&self) -> PPState {
        PPState { ls: lex_st(self.lexer), expect: self.expect@, depth: self.object_cnt as int }
    }
}

impl JPartialParser {
    /// Internal consistency: the lexer is consistent, and the open-object
    /// depth and element count never exceed the characters consumed.
    pub open spec fn wf(&self) -> bool {
        &&& self.lexer.wf()
        &&& self.object_cnt <= self.lexer.pos
        &&& self.count <= self.lexer.pos
    }

    /// New type pattern, to create a new validator for a given source.
    pub fn new(source: &str) -> (r: JPartialParser)
        ensures
            r.wf(),
            r.lexer.source@ == source@,
            r@ == (PPState {
                ls: LexSt { pos: 0, k0: TokKind::NullToken, k1: TokKind::NullToken },
                expect: seq![JPartialExpect::ObjectBegin],
                depth: 0,
            }),
    {
        let r = JPartialParser {
            lexer: JLexer::new(source),
            expect: one_expect(JPartialExpect::ObjectBegin),
            object_cnt: 0,
            count: 0,
        };
        proof {
            assert(r@ =~= (PPState {
                ls: LexSt { pos: 0, k0: TokKind::NullToken, k1: TokKind::NullToken },
                expect: seq![JPartialExpect::ObjectBegin],
                depth: 0,
            }));
        }
        r
    }

    /// Pulls the next kept token, per [`pull_filtered`]; whitespace and bare
    /// quote marks are skipped.
    #[verifier::loop_isolation(false)]
    fn next_filtered(&mut self) -> (r: Option<(JLexerToken, usize)>)
        requires
            old(self).wf(),
        ensures
            final(self).wf(),
            final(self).lexer.source@ == old(self).lexer.source@,
            final(self).lexer.len == old(self).lexer.len,
            final(self).expect@ == old(self).expect@,
            final(self).object_cnt == old(self).object_cnt,
            final(self).count == old(self).count,
            old(self).lexer.pos <= final(self).lexer.pos,
            r is Some ==> old(self).lexer.pos < final(self).lexer.pos,
            ({
                let (r0, ls1) = pull_filtered(old(self).lexer.source@, lex_st(old(self).lexer));
                &&& lex_st(final(self).lexer) == ls1
                &&& match r0 {
                    None => r is None,
                    Some((t, p)) => r is Some && (r->0).0@ == t && (r->0).1 as int == p,
                }
            }),
    {
        let ghost s = self.lexer.source@;
        let ghost start = lex_st(self.lexer);
        proof {
            lemma_pull_bounds(s, start);
        }
        loop
            invariant
                self.wf(),
                self.lexer.source@ == s,
                self.expect@ == old(self).expect@,
                self.object_cnt == old(self).object_cnt,
                self.count == old(self).count,
                pull_filtered(s, lex_st(self.lexer)) == pull_filtered(s, start),
            decreases s.len() - self.lexer.pos,
        {
            let ghost pre = lex_st(self.lexer);
            proof {
                lemma_lex_next_bounds(s, pre.pos, expects_sc(pre.k0, pre.k1));
            }
            match self.lexer.next() {
                None => {
                    return None;
                },
                Some((tok, p)) => {
                    let keep = !(matches!(tok, JLexerToken::Whitespace | JLexerToken::StringToken));
                    if keep {
                        return Some((tok, p));
                    }
                },
            }
        }
    }

    /// Whether the next kept token exists and has class `k`, without
    /// consuming anything.
    #[verifier::loop_isolation(false)]
    fn peek_is_kind(&self, k: TokKind) -> (r: bool)
        requires
            self.wf(),
        ensures
            r == ({
                let (r0, _) = pull_filtered(self.lexer.source@, lex_st(self.lexer));
                r0 is Some && lextok_kind((r0->0).0) == k
            }),
    {
        let ghost s = self.lexer.source@;
        let ghost start = lex_st(self.lexer);
        let mut lx = self.lexer.duplicate();
        loop
            invariant
                lx.wf(),
                lx.source@ == s,
                pull_filtered(s, lex_st(lx)) == pull_filtered(s, start),
            decreases s.len() - lx.pos,
        {
            let ghost pre = lex_st(lx);
            proof {
                lemma_lex_next_bounds(s, pre.pos, expects_sc(pre.k0, pre.k1));
            }
            match lx.next() {
                None => {
                    return false;
                },
                Some((tok, _)) => {
                    let keep = !(matches!(tok, JLexerToken::Whitespace | JLexerToken::StringToken));
                    if keep {
                        return token_kind_of(&tok) == k;
                    }
                },
            }
        }
    }

    /// Checks the token against the current expectation set; on failure the
    /// error carries the position, what was found and the whole set.
    fn was_expected(&self, ltk: &JLexerToken, p: usize) -> (r: JPResult<()>)
        ensures
            r is Ok <==> expected_ok(self.expect@, ltk@),
            r is Err ==> (r->Err_0)@ == ErrM::UnexpectedToken(
                p as int,
                FeedbM::LTok(ltk@),
                FeedbM::Expect(self.expect@),
            ),
    {
        let n = self.expect.len();
        let mut i: usize = 0;
        while i < n
            invariant
                i <= n,
                n == self.expect@.len(),
                forall|k: int| 0 <= k < i ==> !tok_matches_expect(self.expect@[k], ltk@),
            decreases n - i,
        {
            let e = self.expect[i];
            let is_ok = match e {
                JPartialExpect::ObjectBegin => matches!(ltk, JLexerToken::ObjectBegin),
                JPartialExpect::ObjectEnd => matches!(ltk, JLexerToken::ObjectEnd),
                JPartialExpect::MemberName => matches!(ltk, JLexerToken::StringContent(_)),
                JPartialExpect::MemberValue => matches!(
                    ltk,
                    JLexerToken::ArrayBegin
                        | JLexerToken::ObjectBegin
                        | JLexerToken::StringContent(_)
                        | JLexerToken::NumberFloat(_)
                        | JLexerToken::NumberInteger(_)
                        | JLexerToken::NullToken
                        | JLexerToken::TrueToken
                        | JLexerToken::FalseToken
                ),
            };
            if is_ok {
                proof {
                    assert(tok_matches_expect(self.expect@[i as int], ltk@));
                }
                return Ok(());
            }
            i = i + 1;
        }
        Err(JParseError::UnexpectedToken(
            p,
            UnexpTokenFeedb::JLToken(dup_token(ltk)),
            UnexpTokenFeedb::JPExpect(dup_expect(&self.expect)),
        ))
    }

    /// Whether the given expectation is in the current set.
    fn do_we_expect(&self, exp: JPartialExpect) -> (r: bool)
        ensures
            r == self.expect@.contains(exp),
    {
        let n = self.expect.len();
        let mut i: usize = 0;
        while i < n
            invariant
                i <= n,
                n == self.expect@.len(),
                forall|k: int| 0 <= k < i ==> self.expect@[k] != exp,
            decreases n - i,
        {
            if self.expect[i] == exp {
                return true;
            }
            i = i + 1;
        }
        false
    }

    /// Consumes the next kept token and requires it to be `exp` (a closing
    /// bracket or a name separator); reports what was found otherwise, or the
    /// unexpected end of the source.
    fn next_shall_be(&mut self, exp: JLexerToken, p: usize) -> (r: JPResult<()>)
        requires
            old(self).wf(),
            exp@ is ArrayEnd || exp@ is NameSeparator,
        ensures
            final(self).wf(),
            final(self).lexer.source@ == old(self).lexer.source@,
            final(self).lexer.len == old(self).lexer.len,
            final(self).expect@ == old(self).expect@,
            final(self).object_cnt == old(self).object_cnt,
            final(self).count == old(self).count,
            old(self).lexer.pos <= final(self).lexer.pos,
            ({
                let (r0, ls1) = pull_filtered(old(self).lexer.source@, lex_st(old(self).lexer));
                &&& lex_st(final(self).lexer) == ls1
                &&& match r0 {
                    None => r is Err && (r->Err_0)@ == ErrM::UnexpectedEnd(p as int),
                    Some((t, _)) => if t == exp@ {
                        r is Ok
                    } else {
                        r is Err && (r->Err_0)@ == ErrM::UnexpectedToken(
                            p as int,
                            FeedbM::LTok(t),
                            FeedbM::LTok(exp@),
                        )
                    },
                }
            }),
    {
        let nx = self.next_filtered();
        match nx {
            None => Err(JParseError::UnexpectedEnd(p)),
            Some((t, _)) => {
                if token_kind_of(&t) == token_kind_of(&exp) {
                    Ok(())
                } else {
                    Err(JParseError::UnexpectedToken(
                        p,
                        UnexpTokenFeedb::JLToken(t),
                        UnexpTokenFeedb::JLToken(exp),
                    ))
                }
            },
        }
    }

    /// The post-member-value lookahead rule, shared by every arm that emits a
    /// value: a following value separator is consumed and a member name is
    /// expected next; otherwise the enclosing object must close.
    fn set_expect_after_member_value(&mut self)
        requires
            old(self).wf(),
        ensures
            final(self).wf(),
            final(self).lexer.source@ == old(self).lexer.source@,
            final(self).lexer.len == old(self).lexer.len,
            final(self).object_cnt == old(self).object_cnt,
            final(self).count == old(self).count,
            old(self).lexer.pos <= final(self).lexer.pos,
            ({
                let (ls2, ex2) = after_value(old(self).lexer.source@, lex_st(old(self).lexer));
                &&& lex_st(final(self).lexer) == ls2
                &&& final(self).expect@ == ex2
            }),
    {
        if self.peek_is_kind(TokKind::ValueSeparator) {
            let _ = self.next_filtered();
            self.expect = one_expect(JPartialExpect::MemberName);
        } else {
            self.expect = one_expect(JPartialExpect::ObjectEnd);
        }
    }

    /// Performs one validation step, exactly as [`pp_step`] describes: pulls
    /// the next kept token, checks it against the expectation set, and emits
    /// the partial token with its position, or the positioned error; `None`
    /// once the token stream is exhausted.
    #[verifier::loop_isolation(false)]
    #[verifier::rlimit(100)]
    #[verifier::spinoff_prover]
    pub fn next(&mut self) -> (r: Option<JPResult<(JPartialToken, usize)>>)
        requires
            old(self).wf(),
        ensures
            final(self).wf(),
            final(self).lexer.source@ == old(self).lexer.source@,
            final(self).lexer.len == old(self).lexer.len,
            ({
                let (sr, ps1) = pp_step(old(self).lexer.source@, old(self)@);
                &&& final(self)@ == ps1
                &&& match sr {
                    None => r is None,
                    Some(res) => r is Some && result_models((r->0), res),
                }
            }),
    {
        let ghost s = self.lexer.source@;
        let ghost ps0 = self@;
        proof {
            lemma_pull_bounds(s, ps0.ls);
        }
        let nx = self.next_filtered();
        let (ltk, p) = match nx {
            None => {
                proof {
                    assert(self@ =~= pp_step(s, ps0).1);
                }
                return None;
            },
            Some(x) => x,
        };
        let ghost tm = ltk@;
        match self.was_expected(&ltk, p) {
            Err(e) => {
                proof {
                    assert(self@ =~= pp_step(s, ps0).1);
                }
                return Some(Err(e));
            },
            Ok(()) => {},
        }
        let ghost ls1 = lex_st(self.lexer);
        let res: JPResult<(JPartialToken, usize)> = match ltk {
            JLexerToken::ObjectBegin => {
                self.expect = two_expect(JPartialExpect::MemberName, JPartialExpect::ObjectEnd);
                self.object_cnt = self.object_cnt + 1;
                proof {
                    assert(self@ =~= pp_step(s, ps0).1);
                }
                Ok((JPartialToken::ObjectBegin, p))
            },
            JLexerToken::ObjectEnd => {
                if self.object_cnt > 0 {
                    self.object_cnt = self.object_cnt - 1;
                    self.set_expect_after_member_value();
                    proof {
                        assert(self@ =~= pp_step(s, ps0).1);
                    }
                    Ok((JPartialToken::ObjectEnd, p))
                } else {
                    proof {
                        assert(self@ =~= pp_step(s, ps0).1);
                    }
                    Err(JParseError::UnclosedObject(p))
                }
            },
            JLexerToken::ArrayBegin => {
                let ghost ls_ab = lex_st(self.lexer);
                let ghost exp0 = self.expect@;
                let mut array: Vec<JPartialValue> = Vec::new();
                proof {
                    assert(pvals(array@) =~= Seq::<PValM>::empty());
                }
                if !self.peek_is_kind(TokKind::ArrayEnd) {
                    let mut done: bool = false;
                    while !done
                        invariant
                            self.wf(),
                            self.lexer.source@ == s,
                            self.lexer.len == old(self).lexer.len,
                            self.expect@ == exp0,
                            self.object_cnt == old(self).object_cnt,
                            self.count == old(self).count,
                            ps0.ls.pos < self.lexer.pos,
                            !done ==> array_fill(s, ls_ab, Seq::empty(), exp0) == array_fill(
                                s,
                                lex_st(self.lexer),
                                pvals(array@),
                                exp0,
                            ),
                            done ==> array_fill(s, ls_ab, Seq::empty(), exp0) == (
                                pvals(array@),
                                lex_st(self.lexer),
                                Option::<ErrM>::None,
                            ),
                        decreases 2 * (s.len() - self.lexer.pos) + if done { 0int } else { 1int },
                    {
                        let ghost ls_it = lex_st(self.lexer);
                        proof {
                            lemma_pull_bounds(s, ls_it);
                        }
                        let nx2 = self.next_filtered();
                        match nx2 {
                            None => {
                                done = true;
                            },
                            Some((ltk2, pi)) => {
                                let ghost t2 = ltk2@;
                                let elem: JPartialValue = match ltk2 {
                                    JLexerToken::StringContent(s2) => JPartialValue::String(s2),
                                    JLexerToken::NumberInteger(i2) => JPartialValue::Integer(i2),
                                    JLexerToken::NumberFloat(f2) => JPartialValue::Float(f2),
                                    JLexerToken::TrueToken => JPartialValue::True,
                                    JLexerToken::FalseToken => JPartialValue::False,
                                    JLexerToken::NullToken => JPartialValue::Null,
                                    other => {
                                        let err = JParseError::UnexpectedToken(
                                            pi,
                                            UnexpTokenFeedb::JLToken(other),
                                            UnexpTokenFeedb::JPExpect(dup_expect(&self.expect)),
                                        );
                                        proof {
                                            assert(self@ =~= pp_step(s, ps0).1);
                                        }
                                        return Some(Err(err));
                                    },
                                };
                                proof {
                                    assert(pvals(array@.push(elem)) =~= pvals(array@).push(
                                        scalar_val(t2),
                                    ));
                                }
                                array.push(elem);
                                let ghost ls_after_val = lex_st(self.lexer);
                                if self.peek_is_kind(TokKind::ValueSeparator) {
                                    proof {
                                        lemma_pull_bounds(s, ls_after_val);
                                    }
                                    let _ = self.next_filtered();
                                } else {
                                    done = true;
                                }
                            },
                        }
                    }
                }
                match self.next_shall_be(JLexerToken::ArrayEnd, p) {
                    Err(e) => {
                        proof {
                            assert(self@ =~= pp_step(s, ps0).1);
                        }
                        return Some(Err(e));
                    },
                    Ok(()) => {},
                }
                self.set_expect_after_member_value();
                proof {
                    assert(self@ =~= pp_step(s, ps0).1);
                }
                Ok((JPartialToken::Array(array), p))
            },
            JLexerToken::TrueToken => {
                self.set_expect_after_member_value();
                Ok((JPartialToken::MemberValue(JPartialValue::True), p))
            },
            JLexerToken::FalseToken => {
                self.set_expect_after_member_value();
                Ok((JPartialToken::MemberValue(JPartialValue::False), p))
            },
            JLexerToken::NullToken => {
                self.set_expect_after_member_value();
                Ok((JPartialToken::MemberValue(JPartialValue::Null), p))
            },
            JLexerToken::StringContent(txt) => {
                if self.do_we_expect(JPartialExpect::MemberName) {
                    match self.next_shall_be(JLexerToken::NameSeparator, p) {
                        Err(e) => {
                            proof {
                                assert(self@ =~= pp_step(s, ps0).1);
                            }
                            return Some(Err(e));
                        },
                        Ok(()) => {},
                    }
                    self.expect = two_expect(
                        JPartialExpect::MemberValue,
                        JPartialExpect::ObjectBegin,
                    );
                    proof {
                        assert(self@ =~= pp_step(s, ps0).1);
                    }
                    Ok((JPartialToken::MemberName(txt), p))
                } else {
                    self.set_expect_after_member_value();
                    Ok((JPartialToken::MemberValue(JPartialValue::String(txt)), p))
                }
            },
            JLexerToken::NumberInteger(i) => {
                self.set_expect_after_member_value();
                Ok((JPartialToken::MemberValue(JPartialValue::Integer(i)), p))
            },
            JLexerToken::NumberFloat(f) => {
                self.set_expect_after_member_value();
                Ok((JPartialToken::MemberValue(JPartialValue::Float(f)), p))
            },
            JLexerToken::UnknownToken(txt) => Err(JParseError::UnknownToken(p, txt)),
            _ => {
                // Whitespace and bare quote marks are filtered out before
                // dispatch, and a stray `]`, `:` or `,` satisfies no
                // expectation, so the check above has already rejected it.
                proof {
                    assert(forall|k: int|
                        0 <= k < ps0.expect.len() ==> !tok_matches_expect(ps0.expect[k], tm));
                }
                vstd::pervasive::unreached()
            },
        };
        proof {
            assert(ps0.ls.pos < self.lexer.pos);
            assert(self@ =~= pp_step(s, ps0).1);
            assert(result_models(res, pp_step(s, ps0).0->0));
        }
        self.count = self.count + 1;
        Some(res)
    }
}

// ---------------------------------------------------------------------------
// The tree builder
// ---------------------------------------------------------------------------

/// The expectation sets that can hold where a member (or the close of the
/// enclosing object) comes next.
pub open spec fn member_pos(expect: Seq<JPartialExpect>) -> bool {
    ||| expect == seq![JPartialExpect::MemberName, JPartialExpect::ObjectEnd]
    ||| expect == seq![JPartialExpect::MemberName]
    ||| expect == seq![JPartialExpect::ObjectEnd]
}

/// In a member position, a validation step emits only a member name (and then
/// expects its value) or an object end (and stays in a member position).
pub proof fn lemma_pp_member_pos(s: Seq<char>, ps: PPState)
    requires
        0 <= ps.ls.pos <= s.len(),
        member_pos(ps.expect),
    ensures
        ({
            let (r, ps1) = pp_step(s, ps);
            match r {
                Some(res) => match res {
                    Ok((pt, _)) => {
                        ||| (pt is MemberName && ps1.expect == seq![
                            JPartialExpect::MemberValue,
                            JPartialExpect::ObjectBegin,
                        ])
                        ||| (pt is ObjectEnd && member_pos(ps1.expect))
                    },
                    Err(_) => true,
                },
                None => true,
            }
        }),
{
    let (r0, ls1) = pull_filtered(s, ps.ls);
    match r0 {
        None => {},
        Some((t, p)) => {
            if expected_ok(ps.expect, t) {
                let i = choose|i: int|
                    0 <= i < ps.expect.len() && tok_matches_expect(ps.expect[i], t);
                assert(ps.expect[i] == JPartialExpect::MemberName || ps.expect[i]
                    == JPartialExpect::ObjectEnd);
                assert(t is StringContent || t is ObjectEnd);
                if t is StringContent {
                    assert(ps.expect.contains(JPartialExpect::MemberName)) by {
                        assert(ps.expect[i] == JPartialExpect::MemberName);
                    }
                }
            }
        },
    }
}

/// Where a member value (or a nested object) is expected, a validation step
/// emits only a member value, an array, or an object begin; after a value the
/// validator is back in a member position, and after an object begin it
/// expects the new object's first member or its end.
pub proof fn lemma_pp_value_pos(s: Seq<char>, ps: PPState)
    requires
        0 <= ps.ls.pos <= s.len(),
        ps.expect == seq![JPartialExpect::MemberValue, JPartialExpect::ObjectBegin],
    ensures
        ({
            let (r, ps1) = pp_step(s, ps);
            match r {
                Some(res) => match res {
                    Ok((pt, _)) => {
                        ||| ((pt is MemberValue || pt is Array) && member_pos(ps1.expect))
                        ||| (pt is ObjectBegin && ps1.expect == seq![
                            JPartialExpect::MemberName,
                            JPartialExpect::ObjectEnd,
                        ])
                    },
                    Err(_) => true,
                },
                None => true,
            }
        }),
{
    let (r0, ls1) = pull_filtered(s, ps.ls);
    match r0 {
        None => {},
        Some((t, p)) => {
            if expected_ok(ps.expect, t) {
                assert(!ps.expect.contains(JPartialExpect::MemberName)) by {
                    assert(forall|k: int|
                        0 <= k < ps.expect.len() ==> ps.expect[k] != JPartialExpect::MemberName);
                }
            }
        },
    }
}

/// The tree builder's loop over one object's members, from validator state
/// `ps` with the members `acc` already gathered: a member name followed by a
/// value (a scalar, an array, or a nested object built recursively) appends a
/// member; the object's end returns the gathered members. A validator error
/// is passed through; a token stream that ends early is an unexpected end at
/// the position where the scan stopped.
pub open spec fn build_members(
    s: Seq<char>,
    ps: PPState,
    acc: Seq<MemberM>,
    fuel: nat,
) -> Result<(Seq<MemberM>, PPState), ErrM>
    decreases fuel,
{
    if fuel == 0 {
        Err(ErrM::UnexpectedEnd(ps.ls.pos))
    } else {
        let (r, ps1) = pp_step(s, ps);
        match r {
            None => Err(ErrM::UnexpectedEnd(ps1.ls.pos)),
            Some(res) => match res {
                Err(e) => Err(e),
                Ok((pt, _p)) => match pt {
                    PTokM::ObjectEnd => Ok((acc, ps1)),
                    PTokM::MemberName(nm) => {
                        let (r2, ps2) = pp_step(s, ps1);
                        match r2 {
                            None => Err(ErrM::UnexpectedEnd(ps2.ls.pos)),
                            Some(res2) => match res2 {
                                Err(e) => Err(e),
                                Ok((pv, _)) => match pv {
                                    PTokM::MemberValue(v) => build_members(
                                        s,
                                        ps2,
                                        acc.push(
                                            MemberM { name: nm, value: partial_to_value(v) },
                                        ),
                                        (fuel - 1) as nat,
                                    ),
                                    PTokM::Array(list) => build_members(
                                        s,
                                        ps2,
                                        acc.push(MemberM { name: nm, value: ValM::Array(list) }),
                                        (fuel - 1) as nat,
                                    ),
                                    PTokM::ObjectBegin => match build_members(
                                        s,
                                        ps2,
                                        Seq::empty(),
                                        (fuel - 1) as nat,
                                    ) {
                                        Ok((inner, ps3)) => build_members(
                                            s,
                                            ps3,
                                            acc.push(
                                                MemberM { name: nm, value: ValM::Object(inner) },
                                            ),
                                            (fuel - 1) as nat,
                                        ),
                                        Err(e) => Err(e),
                                    },
                                    _ => arbitrary(),
                                },
                            },
                        }
                    },
                    _ => arbitrary(),
                },
            },
        }
    }
}

/// A successful build consumes at least one token and leaves the validator in
/// a member position, inside the text.
pub proof fn lemma_build_progress(s: Seq<char>, ps: PPState, acc: Seq<MemberM>, fuel: nat)
    requires
        0 <= ps.ls.pos <= s.len(),
        member_pos(ps.expect),
    ensures
        match build_members(s, ps, acc, fuel) {
            Ok((_, ps2)) => ps.ls.pos < ps2.ls.pos <= s.len() && member_pos(ps2.expect),
            Err(_) => true,
        },
    decreases fuel,
{
    if fuel > 0 {
        lemma_pp_step_bounds(s, ps);
        lemma_pp_member_pos(s, ps);
        let (r, ps1) = pp_step(s, ps);
        match r {
            None => {},
            Some(res) => match res {
                Err(_) => {},
                Ok((pt, _p)) => match pt {
                    PTokM::ObjectEnd => {},
                    PTokM::MemberName(nm) => {
                        lemma_pp_step_bounds(s, ps1);
                        lemma_pp_value_pos(s, ps1);
                        let (r2, ps2) = pp_step(s, ps1);
                        match r2 {
                            None => {},
                            Some(res2) => match res2 {
                                Err(_) => {},
                                Ok((pv, _)) => match pv {
                                    PTokM::MemberValue(v) => {
                                        lemma_build_progress(
                                            s,
                                            ps2,
                                            acc.push(
                                                MemberM { name: nm, value: partial_to_value(v) },
                                            ),
                                            (fuel - 1) as nat,
                                        );
                                    },
                                    PTokM::Array(list) => {
                                        lemma_build_progress(
                                            s,
                                            ps2,
                                            acc.push(
                                                MemberM { name: nm, value: ValM::Array(list) },
                                            ),
                                            (fuel - 1) as nat,
                                        );
                                    },
                                    PTokM::ObjectBegin => {
                                        lemma_build_progress(s, ps2, Seq::empty(), (fuel - 1) as nat);
                                        match build_members(s, ps2, Seq::empty(), (fuel - 1) as nat) {
                                            Ok((inner, ps3)) => {
                                                lemma_build_progress(
                                                    s,
                                                    ps3,
                                                    acc.push(
                                                        MemberM {
                                                            name: nm,
                                                            value: ValM::Object(inner),
                                                        },
                                                    ),
                                                    (fuel - 1) as nat,
                                                );
                                            },
                                            Err(_) => {},
                                        }
                                    },
                                    _ => {},
                                },
                            },
                        }
                    },
                    _ => {},
                },
            },
        }
    }
}

/// What parsing a whole source text yields: the member sequence of the main
/// object, or the first error. The source must open with an object; a source
/// that yields no token at all has no beginning object.
pub open spec fn spec_parse(s: Seq<char>) -> Result<Seq<MemberM>, ErrM> {
    let ps0 = PPState {
        ls: LexSt { pos: 0, k0: TokKind::NullToken, k1: TokKind::NullToken },
        expect: seq![JPartialExpect::ObjectBegin],
        depth: 0,
    };
    let (r, ps1) = pp_step(s, ps0);
    match r {
        None => Err(ErrM::NoBeginningObject(1)),
        Some(res) => match res {
            Err(e) => Err(e),
            Ok(_) => match build_members(s, ps1, Seq::empty(), (s.len() + 1) as nat) {
                Ok((ms, _)) => Ok(ms),
                Err(e) => Err(e),
            },
        },
    }
}

/// The JParser: drives the grammar validator and assembles the document tree.
#[derive(Debug)]
pub struct JParser(pub JPartialParser);

impl JParser {
    /// New type pattern.
    pub fn new(source: &str) -> (r: JParser)
        ensures
            r.0.wf(),
            r.0.lexer.source@ == source@,
            r.0@ == (PPState {
                ls: LexSt { pos: 0, k0: TokKind::NullToken, k1: TokKind::NullToken },
                expect: seq![JPartialExpect::ObjectBegin],
                depth: 0,
            }),
    {
        JParser(JPartialParser::new(source))
    }

    /// Parses the source this parser was created over, exactly as
    /// [`spec_parse`] describes: the main object's tree on success, the first
    /// error otherwise.
    pub fn parse(&mut self) -> (r: JPResult<JObject>)
        requires
            old(self).0.wf(),
            old(self).0@ == (PPState {
                ls: LexSt { pos: 0, k0: TokKind::NullToken, k1: TokKind::NullToken },
                expect: seq![JPartialExpect::ObjectBegin],
                depth: 0,
            }),
        ensures
            match spec_parse(old(self).0.lexer.source@) {
                Ok(ms) => r is Ok && (r->Ok_0)@ == ms,
                Err(e) => r is Err && (r->Err_0)@ == e,
            },
    {
        let ghost s = self.0.lexer.source@;
        let ghost ps0 = self.0@;
        proof {
            lemma_pull_bounds(s, ps0.ls);
        }
        let nx = self.0.next();
        match nx {
            None => Err(JParseError::NoBeginningObject(1)),
            Some(Err(e)) => Err(e),
            Some(Ok(_)) => {
                proof {
                    let (r0, ls1) = pull_filtered(s, ps0.ls);
                    let t = (r0->0).0;
                    let i = choose|i: int|
                        0 <= i < ps0.expect.len() && tok_matches_expect(ps0.expect[i], t);
                    assert(expected_ok(ps0.expect, t) ==> t is ObjectBegin);
                }
                let len = self.0.lexer.len;
                self.parse_object(Ghost((len + 1) as nat))
            },
        }
    }

    /// Builds one object's members, the opening brace already consumed,
    /// exactly as [`build_members`] describes; recursion depth equals the
    /// JSON nesting depth.
    #[verifier::loop_isolation(false)]
    #[verifier::rlimit(100)]
    #[verifier::spinoff_prover]
    fn parse_object(&mut self, Ghost(fuel): Ghost<nat>) -> (r: JPResult<JObject>)
        requires
            old(self).0.wf(),
            member_pos(old(self).0@.expect),
            fuel >= old(self).0.lexer.len - old(self).0.lexer.pos + 1,
        ensures
            final(self).0.wf(),
            final(self).0.lexer.source@ == old(self).0.lexer.source@,
            final(self).0.lexer.len == old(self).0.lexer.len,
            match build_members(old(self).0.lexer.source@, old(self).0@, Seq::empty(), fuel) {
                Ok((ms, ps2)) => r is Ok && (r->Ok_0)@ == ms && final(self).0@ == ps2
                    && member_pos(final(self).0@.expect),
                Err(e) => r is Err && (r->Err_0)@ == e,
            },
        decreases fuel,
    {
        let ghost s = self.0.lexer.source@;
        let ghost ps_e = self.0@;
        let mut object = JObject::default();
        let ghost mut f_cur = fuel;
        proof {
            assert(object@ =~= Seq::<MemberM>::empty());
        }
        loop
            invariant
                self.0.wf(),
                self.0.lexer.source@ == s,
                self.0.lexer.len == old(self).0.lexer.len,
                member_pos(self.0@.expect),
                f_cur >= self.0.lexer.len - self.0.lexer.pos + 1,
                f_cur <= fuel,
                build_members(s, ps_e, Seq::empty(), fuel) == build_members(
                    s,
                    self.0@,
                    object@,
                    f_cur,
                ),
            decreases self.0.lexer.len - self.0.lexer.pos,
        {
            let ghost ps_it = self.0@;
            proof {
                lemma_pp_step_bounds(s, ps_it);
                lemma_pp_member_pos(s, ps_it);
            }
            let nx = self.0.next();
            let jtk = match nx {
                None => {
                    let pos = self.0.lexer.pos;
                    return Err(JParseError::UnexpectedEnd(pos));
                },
                Some(Err(e)) => {
                    return Err(e);
                },
                Some(Ok((jtk, _p))) => jtk,
            };
            let ghost jm = jtk@;
            let name = match jtk {
                JPartialToken::MemberName(name) => name,
                JPartialToken::ObjectEnd => {
                    return Ok(object);
                },
                _ => {
                    proof {
                        assert(!(jm is MemberName) && !(jm is ObjectEnd));
                        assert(false);
                    }
                    vstd::pervasive::unreached()
                },
            };
            let ghost ps_nm = self.0@;
            proof {
                lemma_pp_step_bounds(s, ps_nm);
                lemma_pp_value_pos(s, ps_nm);
            }
            let nx2 = self.0.next();
            let jtk2 = match nx2 {
                None => {
                    let pos = self.0.lexer.pos;
                    return Err(JParseError::UnexpectedEnd(pos));
                },
                Some(Err(e)) => {
                    return Err(e);
                },
                Some(Ok((jtk2, _p2))) => jtk2,
            };
            let ghost j2m = jtk2@;
            let ghost members_before = object.members;
            let ghost obj0 = object@;
            let value: JValue = match jtk2 {
                JPartialToken::MemberValue(val) => {
                    let v = JValue::from_partial(val);
                    proof {
                        assert(v@ == partial_to_value(j2m->MemberValue_0));
                    }
                    v
                },
                JPartialToken::Array(list) => {
                    let v = JValue::Array(list);
                    proof {
                        assert(v@ == ValM::Array(j2m->Array_0));
                    }
                    v
                },
                JPartialToken::ObjectBegin => {
                    let ghost ps_in = self.0@;
                    proof {
                        lemma_build_progress(s, ps_in, Seq::empty(), (f_cur - 1) as nat);
                    }
                    let inner = match self.parse_object(Ghost((f_cur - 1) as nat)) {
                        Ok(inner) => inner,
                        Err(e) => {
                            return Err(e);
                        },
                    };
                    let v = JValue::Object(inner);
                    proof {
                        assert(v@ == ValM::Object(
                            build_members(s, ps_in, Seq::empty(), (f_cur - 1) as nat)->Ok_0.0,
                        ));
                    }
                    v
                },
                _ => {
                    proof {
                        assert(!(j2m is MemberValue) && !(j2m is Array) && !(j2m is ObjectBegin));
                        assert(false);
                    }
                    vstd::pervasive::unreached()
                },
            };
            let member = JMember { name, value };
            let ghost member_g = member;
            object.members.push(member);
            proof {
                crate::jparser_types::lemma_members_model_push(
                    members_before,
                    member_g,
                    object.members,
                    0,
                );
                assert(object@ == obj0.push(member_model(member_g)));
                assert(member_model(member_g) == (MemberM { name: jm->MemberName_0, value: value@ }));
                assert(build_members(s, ps_it, obj0, f_cur) == build_members(
                    s,
                    self.0@,
                    object@,
                    (f_cur - 1) as nat,
                ));
                f_cur = (f_cur - 1) as nat;
            }
        }
    }
}


// ---------------------------------------------------------------------------
// Laws of the validator and the tree builder
// ---------------------------------------------------------------------------

/// The post-member-value lookahead resets the expectation: when the next kept
/// token is a value separator it is consumed and exactly a member name is
/// expected next; otherwise nothing is consumed and only the enclosing
/// object's end is legal.
pub proof fn lemma_after_value_resets_expectation(s: Seq<char>, ls: LexSt)
    requires
        0 <= ls.pos <= s.len(),
    ensures
        ({
            let (r, ls2) = pull_filtered(s, ls);
            if r is Some && (r->0).0 is ValueSeparator {
                after_value(s, ls) == (ls2, seq![JPartialExpect::MemberName])
            } else {
                after_value(s, ls) == (ls, seq![JPartialExpect::ObjectEnd])
            }
        }),
{
}

/// However many members came before, a value separator right after an
/// accepted member value is consumed with no error and the validator expects
/// exactly a member name again; without one it expects exactly the object's
/// end. This holds for every scalar member value and at every state.
pub proof fn lemma_value_separator_resets_expectation(s: Seq<char>, ps: PPState)
    requires
        0 <= ps.ls.pos <= s.len(),
    ensures
        ({
            let (r, ls1) = pull_filtered(s, ps.ls);
            match r {
                Some((t, p)) => (expected_ok(ps.expect, t) && is_scalar_tok(t) && !(t
                    is StringContent && ps.expect.contains(JPartialExpect::MemberName))) ==> {
                    let (r2, ls2) = pull_filtered(s, ls1);
                    let (sr, ps1) = pp_step(s, ps);
                    &&& sr is Some
                    &&& sr->0 is Ok
                    &&& (sr->0)->Ok_0.0 == PTokM::MemberValue(scalar_val(t))
                    &&& if r2 is Some && (r2->0).0 is ValueSeparator {
                        ps1.expect == seq![JPartialExpect::MemberName] && ps1.ls == ls2
                    } else {
                        ps1.expect == seq![JPartialExpect::ObjectEnd] && ps1.ls == ls1
                    }
                },
                None => true,
            }
        }),
{
    lemma_pull_bounds(s, ps.ls);
    let (r, ls1) = pull_filtered(s, ps.ls);
    match r {
        Some((t, p)) => {
            if expected_ok(ps.expect, t) && is_scalar_tok(t) && !(t is StringContent
                && ps.expect.contains(JPartialExpect::MemberName)) {
                lemma_after_value_resets_expectation(s, ls1);
            }
        },
        None => {},
    }
}

/// The member names the tree builder's loop accepts from state `ps` on, in
/// the order the grammar validator emits them; nothing past the first error
/// or the closing brace counts.
pub open spec fn emitted_names(s: Seq<char>, ps: PPState, fuel: nat) -> Seq<Seq<char>>
    decreases fuel,
{
    if fuel == 0 {
        Seq::empty()
    } else {
        let (r, ps1) = pp_step(s, ps);
        match r {
            None => Seq::empty(),
            Some(res) => match res {
                Err(_) => Seq::empty(),
                Ok((pt, _)) => match pt {
                    PTokM::MemberName(nm) => {
                        let (r2, ps2) = pp_step(s, ps1);
                        match r2 {
                            None => Seq::empty(),
                            Some(res2) => match res2 {
                                Err(_) => Seq::empty(),
                                Ok((pv, _)) => match pv {
                                    PTokM::MemberValue(_) => seq![nm] + emitted_names(
                                        s,
                                        ps2,
                                        (fuel - 1) as nat,
                                    ),
                                    PTokM::Array(_) => seq![nm] + emitted_names(
                                        s,
                                        ps2,
                                        (fuel - 1) as nat,
                                    ),
                                    PTokM::ObjectBegin => match build_members(
                                        s,
                                        ps2,
                                        Seq::empty(),
                                        (fuel - 1) as nat,
                                    ) {
                                        Ok((_, ps3)) => seq![nm] + emitted_names(
                                            s,
                                            ps3,
                                            (fuel - 1) as nat,
                                        ),
                                        Err(_) => Seq::empty(),
                                    },
                                    _ => Seq::empty(),
                                },
                            },
                        }
                    },
                    _ => Seq::empty(),
                },
            },
        }
    }
}

/// The tree builder only appends: whatever was gathered stays, in order, and
/// each further member carries the next accepted member name; the member
/// count grows by exactly the number of accepted names.
pub proof fn lemma_build_members_order(s: Seq<char>, ps: PPState, acc: Seq<MemberM>, fuel: nat)
    requires
        0 <= ps.ls.pos <= s.len(),
        member_pos(ps.expect),
    ensures
        match build_members(s, ps, acc, fuel) {
            Ok((ms, _)) => {
                &&& ms.len() == acc.len() + emitted_names(s, ps, fuel).len()
                &&& ms.take(acc.len() as int) == acc
                &&& forall|k: int| 0 <= k < emitted_names(s, ps, fuel).len() ==> ms[acc.len() + k].name
                    == emitted_names(s, ps, fuel)[k]
            },
            Err(_) => true,
        },
    decreases fuel,
{
    if fuel > 0 {
        lemma_pp_step_bounds(s, ps);
        lemma_pp_member_pos(s, ps);
        let (r, ps1) = pp_step(s, ps);
        match r {
            None => {},
            Some(res) => match res {
                Err(_) => {},
                Ok((pt, _p)) => match pt {
                    PTokM::ObjectEnd => {
                        assert(acc.take(acc.len() as int) =~= acc);
                    },
                    PTokM::MemberName(nm) => {
                        lemma_pp_step_bounds(s, ps1);
                        lemma_pp_value_pos(s, ps1);
                        let (r2, ps2) = pp_step(s, ps1);
                        match r2 {
                            None => {},
                            Some(res2) => match res2 {
                                Err(_) => {},
                                Ok((pv, _)) => {
                                    let names = emitted_names(s, ps, fuel);
                                    match pv {
                                        PTokM::MemberValue(v) => {
                                            let acc2 = acc.push(
                                                MemberM { name: nm, value: partial_to_value(v) },
                                            );
                                            assert(acc2.take(acc.len() as int) =~= acc);
                                            lemma_build_members_order(
                                                s,
                                                ps2,
                                                acc2,
                                                (fuel - 1) as nat,
                                            );
                                            lemma_order_step(
                                                s,
                                                ps2,
                                                acc,
                                                acc2,
                                                nm,
                                                names,
                                                (fuel - 1) as nat,
                                                build_members(s, ps, acc, fuel),
                                            );
                                        },
                                        PTokM::Array(list) => {
                                            let acc2 = acc.push(
                                                MemberM { name: nm, value: ValM::Array(list) },
                                            );
                                            assert(acc2.take(acc.len() as int) =~= acc);
                                            lemma_build_members_order(
                                                s,
                                                ps2,
                                                acc2,
                                                (fuel - 1) as nat,
                                            );
                                            lemma_order_step(
                                                s,
                                                ps2,
                                                acc,
                                                acc2,
                                                nm,
                                                names,
                                                (fuel - 1) as nat,
                                                build_members(s, ps, acc, fuel),
                                            );
                                        },
                                        PTokM::ObjectBegin => {
                                            lemma_build_progress(
                                                s,
                                                ps2,
                                                Seq::empty(),
                                                (fuel - 1) as nat,
                                            );
                                            match build_members(
                                                s,
                                                ps2,
                                                Seq::empty(),
                                                (fuel - 1) as nat,
                                            ) {
                                                Ok((inner, ps3)) => {
                                                    let acc2 = acc.push(
                                                        MemberM {
                                                            name: nm,
                                                            value: ValM::Object(inner),
                                                        },
                                                    );
                                                    assert(acc2.take(acc.len() as int) =~= acc);
                                                    lemma_build_members_order(
                                                        s,
                                                        ps3,
                                                        acc2,
                                                        (fuel - 1) as nat,
                                                    );
                                                    lemma_order_step(
                                                        s,
                                                        ps3,
                                                        acc,
                                                        acc2,
                                                        nm,
                                                        names,
                                                        (fuel - 1) as nat,
                                                        build_members(s, ps, acc, fuel),
                                                    );
                                                },
                                                Err(_) => {},
                                            }
                                        },
                                        _ => {},
                                    }
                                },
                            },
                        }
                    },
                    _ => {},
                },
            },
        }
    }
}

/// One step of the order argument: what holds of the recursion from the
/// pushed accumulator carries over to the caller's accumulator.
proof fn lemma_order_step(
    s: Seq<char>,
    psn: PPState,
    acc: Seq<MemberM>,
    acc2: Seq<MemberM>,
    nm: Seq<char>,
    names: Seq<Seq<char>>,
    fueln: nat,
    built: Result<(Seq<MemberM>, PPState), ErrM>,
)
    requires
        acc2.len() == acc.len() + 1,
        acc2.take(acc.len() as int) == acc,
        acc2[acc.len() as int].name == nm,
        names =~= seq![nm] + emitted_names(s, psn, fueln),
        built == build_members(s, psn, acc2, fueln),
        match build_members(s, psn, acc2, fueln) {
            Ok((ms, _)) => {
                &&& ms.len() == acc2.len() + emitted_names(s, psn, fueln).len()
                &&& ms.take(acc2.len() as int) == acc2
                &&& forall|k: int| 0 <= k < emitted_names(s, psn, fueln).len() ==> ms[acc2.len()
                    + k].name == emitted_names(s, psn, fueln)[k]
            },
            Err(_) => true,
        },
    ensures
        match built {
            Ok((ms, _)) => {
                &&& ms.len() == acc.len() + names.len()
                &&& ms.take(acc.len() as int) == acc
                &&& forall|k: int| 0 <= k < names.len() ==> ms[acc.len() + k].name == names[k]
            },
            Err(_) => true,
        },
{
    match built {
        Ok((ms, _)) => {
            assert(ms.take(acc.len() as int) =~= ms.take(acc2.len() as int).take(acc.len() as int));
            assert(ms.take(acc2.len() as int).take(acc.len() as int) =~= acc2.take(
                acc.len() as int,
            ));
            assert forall|k: int| 0 <= k < names.len() implies ms[acc.len() + k].name == names[k] by {
                if k == 0 {
                    assert(ms[acc.len() as int] == ms.take(acc2.len() as int)[acc.len() as int]);
                    assert(ms.take(acc2.len() as int)[acc.len() as int] == acc2[acc.len() as int]);
                    assert(names[0] == nm);
                } else {
                    assert(names[k] == emitted_names(s, psn, fueln)[k - 1]);
                    assert(ms[acc2.len() + (k - 1)].name == emitted_names(s, psn, fueln)[k - 1]);
                }
            }
        },
        Err(_) => {},
    }
}

/// For every well-formed source — one the parser accepts — the tree's members
/// stand in source order, one per accepted top-level member name, and their
/// count equals the number of top-level keys.
pub proof fn lemma_parse_preserves_member_order(s: Seq<char>)
    ensures
        ({
            let ps0 = PPState {
                ls: LexSt { pos: 0, k0: TokKind::NullToken, k1: TokKind::NullToken },
                expect: seq![JPartialExpect::ObjectBegin],
                depth: 0,
            };
            let (r0, ps1) = pp_step(s, ps0);
            match spec_parse(s) {
                Ok(ms) => {
                    let names = emitted_names(s, ps1, (s.len() + 1) as nat);
                    &&& ms.len() == names.len()
                    &&& forall|k: int| 0 <= k < names.len() ==> ms[k].name == names[k]
                },
                Err(_) => true,
            }
        }),
{
    let ps0 = PPState {
        ls: LexSt { pos: 0, k0: TokKind::NullToken, k1: TokKind::NullToken },
        expect: seq![JPartialExpect::ObjectBegin],
        depth: 0,
    };
    lemma_pp_step_bounds(s, ps0);
    let (r0, ps1) = pp_step(s, ps0);
    match spec_parse(s) {
        Ok(ms) => {
            let (rr, _) = pull_filtered(s, ps0.ls);
            let t = (rr->0).0;
            let i = choose|i: int| 0 <= i < ps0.expect.len() && tok_matches_expect(ps0.expect[i], t);
            assert(expected_ok(ps0.expect, t) ==> t is ObjectBegin);
            lemma_build_members_order(s, ps1, Seq::empty(), (s.len() + 1) as nat);
        },
        Err(_) => {},
    }
}

/// Position-free parser errors, for a coarse yes/no analysis of a source.
#[derive(Clone, Debug, PartialEq)]
pub enum JParserError {
    /// If source contains no main object: `{ }`.
    NoBeginningObject,
    /// If some object is not closed properly, missing `}`.
    UnclosedObject,
    /// If an array or another construct was not closed before the source
    /// ended.
    UnclosedArray,
    /// Unexpected token; the positioned feedback is dropped at this level.
    UnexpectedToken(String),
    /// Unknown token was returned from the lexer, with its text.
    UnknownToken(String),
}

/// The position-free error that a positioned parse error boils down to.
pub open spec fn coarse_error(e: ErrM) -> JParserError {
    match e {
        ErrM::NoBeginningObject(_) => JParserError::NoBeginningObject,
        ErrM::UnclosedObject(_) => JParserError::UnclosedObject,
        ErrM::UnclosedArray(_) => JParserError::UnclosedArray,
        ErrM::UnexpectedEnd(_) => JParserError::UnclosedArray,
        ErrM::UnexpectedToken(_, _, _) => arbitrary(),
        ErrM::UnknownToken(_, _) => arbitrary(),
    }
}

/// Runs a full lexical and grammatical analysis of the source: succeeds
/// exactly on the sources that [`spec_parse`] accepts; a failure names the
/// kind of the first error, and for an unknown token its text.
pub fn json_full_analysis(source: &str) -> (r: Result<(), JParserError>)
    ensures
        r is Ok <==> spec_parse(source@) is Ok,
        r is Err ==> (match spec_parse(source@)->Err_0 {
            ErrM::UnknownToken(_, txt) => r->Err_0 is UnknownToken && (r->Err_0)->UnknownToken_0@
                == txt,
            ErrM::UnexpectedToken(_, _, _) => r->Err_0 is UnexpectedToken
                && (r->Err_0)->UnexpectedToken_0@ == Seq::<char>::empty(),
            e => r->Err_0 == coarse_error(e),
        }),
{
    let mut parser = JParser::new(source);
    match parser.parse() {
        Ok(_) => Ok(()),
        Err(e) => Err(
            match e {
                JParseError::NoBeginningObject(_) => JParserError::NoBeginningObject,
                JParseError::UnclosedObject(_) => JParserError::UnclosedObject,
                JParseError::UnclosedArray(_) => JParserError::UnclosedArray,
                JParseError::UnexpectedEnd(_) => JParserError::UnclosedArray,
                JParseError::UnexpectedToken(_, _, _) => JParserError::UnexpectedToken(
                    String::new(),
                ),
                JParseError::UnknownToken(_, s) => JParserError::UnknownToken(s),
            },
        ),
    }
}

/// The class of a token.
fn token_kind_of(t: &JLexerToken) -> (r: TokKind)
    ensures
        r == lextok_kind(t@),
{
    match t {
        JLexerToken::Whitespace => TokKind::Whitespace,
        JLexerToken::ObjectBegin => TokKind::ObjectBegin,
        JLexerToken::ObjectEnd => TokKind::ObjectEnd,
        JLexerToken::ArrayBegin => TokKind::ArrayBegin,
        JLexerToken::ArrayEnd => TokKind::ArrayEnd,
        JLexerToken::NameSeparator => TokKind::NameSeparator,
        JLexerToken::ValueSeparator => TokKind::ValueSeparator,
        JLexerToken::StringToken => TokKind::StringToken,
        JLexerToken::TrueToken => TokKind::TrueToken,
        JLexerToken::FalseToken => TokKind::FalseToken,
        JLexerToken::NullToken => TokKind::NullToken,
        JLexerToken::StringContent(_) => TokKind::StringContent,
        JLexerToken::NumberInteger(_) => TokKind::NumberInteger,
        JLexerToken::NumberFloat(_) => TokKind::NumberFloat,
        JLexerToken::UnknownToken(_) => TokKind::UnknownToken,
    }
}

} // verus!
