//! Lexical analysis: turns source text into a sequence of tokens.
//!
//! The executable lexer is specified against a mathematical model of the
//! scan: `spec_next_token` gives the token found at a scan position and the
//! position right after it, and `spec_tokens` gives the whole token sequence.
//! Integer literals are unbounded in the model; the executable lexer reports
//! an overflow error exactly when a literal does not fit in `i64`.

use vstd::prelude::*;

verus! {

/// The smallest lexical unit, carrying its matched substring or decoded value.
#[derive(Debug, PartialEq, Eq)]
pub enum Token {
    Identifier(String),
    Keyword(String),
    Number(i64),
    StringLiteral(String),
    Punctuation(char),
    EndOfFile,
}

/// The mathematical shape of a token: character sequences in place of heap
/// strings, and an unbounded integer in place of `i64`.
pub enum TokenModel {
    Identifier(Seq<char>),
    Keyword(Seq<char>),
    Number(int),
    StringLiteral(Seq<char>),
    Punctuation(char),
    EndOfFile,
}

impl View for Token {
    type V = TokenModel;

    open spec fn view(&self) -> TokenModel {
        match self {
            Token::Identifier(name) => TokenModel::Identifier(name@),
            Token::Keyword(name) => TokenModel::Keyword(name@),
            Token::Number(value) => TokenModel::Number(*value as int),
            Token::StringLiteral(text) => TokenModel::StringLiteral(text@),
            Token::Punctuation(symbol) => TokenModel::Punctuation(*symbol),
            Token::EndOfFile => TokenModel::EndOfFile,
        }
    }
}

/// Why a translation was aborted.
#[derive(Debug, PartialEq, Eq, Structural, Clone, Copy)]
pub enum TranslateError {
    /// A digit run does not fit the signed 64-bit integer range.
    NumberOverflow,
    /// The token after the binding keyword is not an identifier.
    ExpectedIdentifier,
    /// A binding misses its `=` or does not start with the keyword.
    ExpectedAssignment,
    /// A number was required at this position.
    ExpectedNumber,
    /// A token appeared where the grammar allows no term.
    UnexpectedToken,
}

pub open spec fn is_ws_char(c: char) -> bool {
    c == ' ' || c == '\n' || c == '\r' || c == '\t'
}

pub open spec fn is_letter_char(c: char) -> bool {
    (97 <= c as u32 && c as u32 <= 122) || (65 <= c as u32 && c as u32 <= 90)
}

pub open spec fn is_digit_char(c: char) -> bool {
    48 <= c as u32 && c as u32 <= 57
}

pub open spec fn is_ident_char(c: char) -> bool {
    is_letter_char(c) || is_digit_char(c) || c == '_'
}

pub open spec fn is_punct_char(c: char) -> bool {
    c == '+' || c == '-' || c == '*' || c == '/' || c == '=' || c == ';' || c == '(' || c == ')'
        || c == '{' || c == '}'
}

/// The fixed reserved-word set.
pub open spec fn is_keyword(w: Seq<char>) -> bool {
    w == "if"@ || w == "else"@ || w == "while"@ || w == "val"@
}

pub open spec fn digit_val(c: char) -> int {
    c as u32 - 48
}

pub open spec fn all_digits(s: Seq<char>) -> bool {
    forall|i: int| 0 <= i < s.len() ==> is_digit_char(#[trigger] s[i])
}

/// The integer denoted by a run of decimal digits, most significant first.
pub open spec fn digits_value(s: Seq<char>) -> int
    decreases s.len(),
{
    if s.len() == 0 {
        0
    } else {
        10 * digits_value(s.drop_last()) + digit_val(s.last())
    }
}

/// First position at or after `pos` holding no whitespace, or the input end.
pub open spec fn skip_ws(s: Seq<char>, pos: int) -> int
    decreases s.len() - pos,
{
    if 0 <= pos < s.len() && is_ws_char(s[pos]) {
        skip_ws(s, pos + 1)
    } else {
        pos
    }
}

/// End of the maximal identifier-character run starting at `pos`.
pub open spec fn ident_end(s: Seq<char>, pos: int) -> int
    decreases s.len() - pos,
{
    if 0 <= pos < s.len() && is_ident_char(s[pos]) {
        ident_end(s, pos + 1)
    } else {
        pos
    }
}

/// End of the maximal digit run starting at `pos`.
pub open spec fn digit_end(s: Seq<char>, pos: int) -> int
    decreases s.len() - pos,
{
    if 0 <= pos < s.len() && is_digit_char(s[pos]) {
        digit_end(s, pos + 1)
    } else {
        pos
    }
}

/// Position of the closing double quote at or after `pos`, or the input end.
pub open spec fn str_lit_end(s: Seq<char>, pos: int) -> int
    decreases s.len() - pos,
{
    if 0 <= pos < s.len() && s[pos] != '"' {
        str_lit_end(s, pos + 1)
    } else {
        pos
    }
}

/// The token found at scan position `pos`, and the scan position right after
/// it.  Whitespace is skipped first; an unrecognized character yields
/// `EndOfFile` without advancing past it.
pub open spec fn spec_next_token(s: Seq<char>, pos: int) -> (TokenModel, int) {
    let p = skip_ws(s, pos);
    if !(0 <= p < s.len()) {
        (TokenModel::EndOfFile, p)
    } else {
        let c = s[p];
        if is_letter_char(c) {
            let e = ident_end(s, p);
            let w = s.subrange(p, e);
            if is_keyword(w) {
                (TokenModel::Keyword(w), e)
            } else {
                (TokenModel::Identifier(w), e)
            }
        } else if is_digit_char(c) {
            let e = digit_end(s, p);
            (TokenModel::Number(digits_value(s.subrange(p, e))), e)
        } else if c == '"' {
            let e = str_lit_end(s, p + 1);
            (TokenModel::StringLiteral(s.subrange(p + 1, e)), if e < s.len() {
                e + 1
            } else {
                e
            })
        } else if is_punct_char(c) {
            (TokenModel::Punctuation(c), p + 1)
        } else {
            (TokenModel::EndOfFile, p)
        }
    }
}

/// Whether a model token's value fits the executable token representation.
pub open spec fn token_fits(t: TokenModel) -> bool {
    t matches TokenModel::Number(v) ==> i64::MIN <= v <= i64::MAX
}

pub open spec fn all_fit(ts: Seq<TokenModel>) -> bool {
    forall|i: int| 0 <= i < ts.len() ==> token_fits(#[trigger] ts[i])
}

pub open spec fn toks_view(ts: Seq<Token>) -> Seq<TokenModel> {
    ts.map_values(|t: Token| t@)
}

/// All tokens from scan position `pos` up to (excluding) `EndOfFile`.
pub open spec fn spec_tokens(s: Seq<char>, pos: int) -> Seq<TokenModel>
    decreases s.len() - pos,
        when 0 <= pos <= s.len()
        via spec_tokens_decreases
{
    let (t, p2) = spec_next_token(s, pos);
    if t is EndOfFile {
        Seq::empty()
    } else {
        seq![t] + spec_tokens(s, p2)
    }
}

#[via_fn]
proof fn spec_tokens_decreases(s: Seq<char>, pos: int) {
    lemma_next_token_advances(s, pos);
}

/// Bounds of `skip_ws`: it stays inside the input, moves only over
/// whitespace, and stops at the end or at a non-whitespace character.
pub proof fn lemma_skip_ws(s: Seq<char>, pos: int)
    requires
        0 <= pos <= s.len(),
    ensures
        pos <= skip_ws(s, pos) <= s.len(),
        skip_ws(s, pos) == s.len() || !is_ws_char(s[skip_ws(s, pos)]),
        forall|j: int| pos <= j < skip_ws(s, pos) ==> is_ws_char(#[trigger] s[j]),
    decreases s.len() - pos,
{
    if 0 <= pos < s.len() && is_ws_char(s[pos]) {
        lemma_skip_ws(s, pos + 1);
    }
}

/// Bounds of `ident_end`: the run lies inside the input, consists of
/// identifier characters, and is maximal.
pub proof fn lemma_ident_end(s: Seq<char>, pos: int)
    requires
        0 <= pos <= s.len(),
    ensures
        pos <= ident_end(s, pos) <= s.len(),
        ident_end(s, pos) == s.len() || !is_ident_char(s[ident_end(s, pos)]),
        forall|j: int| pos <= j < ident_end(s, pos) ==> is_ident_char(#[trigger] s[j]),
    decreases s.len() - pos,
{
    if 0 <= pos < s.len() && is_ident_char(s[pos]) {
        lemma_ident_end(s, pos + 1);
    }
}

/// Bounds of `digit_end`, as for `lemma_ident_end`.
pub proof fn lemma_digit_end(s: Seq<char>, pos: int)
    requires
        0 <= pos <= s.len(),
    ensures
        pos <= digit_end(s, pos) <= s.len(),
        digit_end(s, pos) == s.len() || !is_digit_char(s[digit_end(s, pos)]),
        forall|j: int| pos <= j < digit_end(s, pos) ==> is_digit_char(#[trigger] s[j]),
    decreases s.len() - pos,
{
    if 0 <= pos < s.len() && is_digit_char(s[pos]) {
        lemma_digit_end(s, pos + 1);
    }
}

/// Bounds of `str_lit_end`: no double quote before it, and it sits on the
/// closing quote or at the input end.
pub proof fn lemma_str_lit_end(s: Seq<char>, pos: int)
    requires
        0 <= pos <= s.len(),
    ensures
        pos <= str_lit_end(s, pos) <= s.len(),
        str_lit_end(s, pos) == s.len() || s[str_lit_end(s, pos)] == '"',
        forall|j: int| pos <= j < str_lit_end(s, pos) ==> #[trigger] s[j] != '"',
    decreases s.len() - pos,
{
    if 0 <= pos < s.len() && s[pos] != '"' {
        lemma_str_lit_end(s, pos + 1);
    }
}

/// The scan never goes backwards or past the end, and it advances strictly
/// whenever it found a token other than `EndOfFile`.
pub proof fn lemma_next_token_advances(s: Seq<char>, pos: int)
    requires
        0 <= pos <= s.len(),
    ensures
        pos <= spec_next_token(s, pos).1 <= s.len(),
        !(spec_next_token(s, pos).0 is EndOfFile) ==> pos < spec_next_token(s, pos).1,
{
    lemma_skip_ws(s, pos);
    let p = skip_ws(s, pos);
    if 0 <= p < s.len() {
        let c = s[p];
        if is_letter_char(c) {
            lemma_ident_end(s, p);
            assert(ident_end(s, p) == ident_end(s, p + 1));
        } else if is_digit_char(c) {
            lemma_digit_end(s, p);
            assert(digit_end(s, p) == digit_end(s, p + 1));
        } else if c == '"' {
            lemma_str_lit_end(s, p + 1);
        }
    }
}

/// Once the scan answers `EndOfFile`, it answers `EndOfFile` at the position
/// it stopped at as well: the token stream stays empty.
pub proof fn lemma_eof_stable(s: Seq<char>, pos: int)
    requires
        0 <= pos <= s.len(),
        spec_next_token(s, pos).0 is EndOfFile,
    ensures
        spec_next_token(s, spec_next_token(s, pos).1).0 is EndOfFile,
        spec_next_token(s, spec_next_token(s, pos).1).1 == spec_next_token(s, pos).1,
{
    lemma_skip_ws(s, pos);
}

/// The value of a digit run is never negative.
pub proof fn lemma_digits_value_nonneg(s: Seq<char>)
    requires
        all_digits(s),
    ensures
        0 <= digits_value(s),
    decreases s.len(),
{
    if s.len() > 0 {
        assert(all_digits(s.drop_last()));
        lemma_digits_value_nonneg(s.drop_last());
    }
}

/// A prefix of a digit run never denotes more than the whole run.
pub proof fn lemma_digits_value_prefix(s: Seq<char>, j: int)
    requires
        all_digits(s),
        0 <= j <= s.len(),
    ensures
        digits_value(s.subrange(0, j)) <= digits_value(s),
    decreases s.len() - j,
{
    if j == s.len() {
        assert(s.subrange(0, j) =~= s);
    } else {
        let t = s.subrange(0, s.len() - 1);
        assert(all_digits(t));
        assert(t =~= s.drop_last());
        lemma_digits_value_nonneg(t);
        lemma_digits_value_prefix(t, j);
        assert(t.subrange(0, j) =~= s.subrange(0, j));
    }
}

/// Law: a valid integer literal lexes to exactly one `Number` token whose
/// value is the number the digits denote, so reading the value back
/// round-trips exactly (leading zeros change nothing, no sign is present).
pub proof fn lemma_number_literal_round_trip(d: Seq<char>)
    requires
        d.len() > 0,
        all_digits(d),
    ensures
        spec_tokens(d, 0) =~= seq![TokenModel::Number(digits_value(d))],
{
    assert(!is_ws_char(d[0]));
    assert(skip_ws(d, 0) == 0);
    assert(!is_letter_char(d[0]));
    lemma_digit_end(d, 0);
    assert(digit_end(d, 0) == d.len() as int) by {
        if digit_end(d, 0) < d.len() {
            assert(is_digit_char(d[digit_end(d, 0)]));
        }
    }
    assert(d.subrange(0, d.len() as int) =~= d);
    assert(skip_ws(d, d.len() as int) == d.len() as int);
    assert(spec_tokens(d, d.len() as int) =~= Seq::<TokenModel>::empty());
}

/// Law: a letter-initial run of identifier characters lexes to exactly one
/// word token, a `Keyword` when it is one of the reserved words and an
/// `Identifier` otherwise.
pub proof fn lemma_word_classification(w: Seq<char>)
    requires
        w.len() > 0,
        is_letter_char(w[0]),
        forall|i: int| 0 <= i < w.len() ==> is_ident_char(#[trigger] w[i]),
    ensures
        spec_tokens(w, 0) =~= seq![
            if is_keyword(w) {
                TokenModel::Keyword(w)
            } else {
                TokenModel::Identifier(w)
            },
        ],
{
    assert(!is_ws_char(w[0]));
    assert(skip_ws(w, 0) == 0);
    lemma_ident_end(w, 0);
    assert(ident_end(w, 0) == w.len() as int) by {
        if ident_end(w, 0) < w.len() {
            assert(is_ident_char(w[ident_end(w, 0)]));
        }
    }
    assert(w.subrange(0, w.len() as int) =~= w);
    assert(skip_ws(w, w.len() as int) == w.len() as int);
    assert(spec_tokens(w, w.len() as int) =~= Seq::<TokenModel>::empty());
}

/// Law: whitespace-only input lexes to the empty token sequence.
pub proof fn lemma_whitespace_only_tokens(s: Seq<char>)
    requires
        forall|i: int| 0 <= i < s.len() ==> is_ws_char(#[trigger] s[i]),
    ensures
        spec_tokens(s, 0) =~= Seq::<TokenModel>::empty(),
{
    lemma_skip_ws(s, 0);
}

fn ch_is_ws(c: char) -> (r: bool)
    ensures
        r == is_ws_char(c),
{
    c == ' ' || c == '\n' || c == '\r' || c == '\t'
}

fn ch_is_letter(c: char) -> (r: bool)
    ensures
        r == is_letter_char(c),
{
    let u = c as u32;
    (97 <= u && u <= 122) || (65 <= u && u <= 90)
}

fn ch_is_digit(c: char) -> (r: bool)
    ensures
        r == is_digit_char(c),
{
    let u = c as u32;
    48 <= u && u <= 57
}

fn ch_is_ident(c: char) -> (r: bool)
    ensures
        r == is_ident_char(c),
{
    ch_is_letter(c) || ch_is_digit(c) || c == '_'
}

fn ch_is_punct(c: char) -> (r: bool)
    ensures
        r == is_punct_char(c),
{
    c == '+' || c == '-' || c == '*' || c == '/' || c == '=' || c == ';' || c == '(' || c == ')'
        || c == '{' || c == '}'
}

/// Character-wise string equality, so that verified code never leans on an
/// unspecified `PartialEq` implementation.
pub fn str_eq(a: &str, b: &str) -> (r: bool)
    ensures
        r == (a@ == b@),
{
    let la = a.unicode_len();
    let lb = b.unicode_len();
    if la != lb {
        return false;
    }
    let mut i: usize = 0;
    while i < la
        invariant
            i <= la,
            la == a@.len(),
            la == b@.len(),
            forall|j: int| 0 <= j < i ==> a@[j] == b@[j],
        decreases la - i,
    {
        if a.get_char(i) != b.get_char(i) {
            return false;
        }
        i = i + 1;
    }
    proof {
        assert(a@ =~= b@);
    }
    true
}

fn is_keyword_str(w: &str) -> (r: bool)
    ensures
        r == is_keyword(w@),
{
    str_eq(w, "if") || str_eq(w, "else") || str_eq(w, "while") || str_eq(w, "val")
}

/// Forward-only scanner over the source text: a borrowed input and one
/// cursor, here a character index.
pub struct Lexer<'a> {
    input: &'a str,
    current_pos: usize,
}

impl<'a> Lexer<'a> {
    /// The source text being scanned.
    pub closed spec fn src(self) -> Seq<char> {
        self.input@
    }

    /// The current scan position, as a character index.
    pub closed spec fn pos(self) -> int {
        self.current_pos as int
    }

    pub open spec fn wf(self) -> bool {
        0 <= self.pos() <= self.src().len()
    }

    pub fn new(input: &'a str) -> (l: Lexer<'a>)
        ensures
            l.wf(),
            l.src() == input@,
            l.pos() == 0,
    {
        Lexer { input, current_pos: 0 }
    }

    fn peek(&self) -> (r: Option<char>)
        requires
            self.wf(),
        ensures
            r == (if self.pos() < self.src().len() {
                Option::Some(self.src()[self.pos()])
            } else {
                Option::None::<char>
            }),
    {
        let n = self.input.unicode_len();
        if self.current_pos < n {
            Some(self.input.get_char(self.current_pos))
        } else {
            None
        }
    }

    fn consume(&mut self) -> (r: Option<char>)
        requires
            old(self).wf(),
        ensures
            final(self).wf(),
            final(self).src() == old(self).src(),
            r == (if old(self).pos() < old(self).src().len() {
                Option::Some(old(self).src()[old(self).pos()])
            } else {
                Option::None::<char>
            }),
            final(self).pos() == (if old(self).pos() < old(self).src().len() {
                old(self).pos() + 1
            } else {
                old(self).pos()
            }),
    {
        let n = self.input.unicode_len();
        if self.current_pos < n {
            let c = self.input.get_char(self.current_pos);
            self.current_pos = self.current_pos + 1;
            Some(c)
        } else {
            None
        }
    }

    /// Lex the next token, advancing the scan position past it.  The result
    /// and the new position are exactly those of `spec_next_token`; the one
    /// failure is a digit run whose value does not fit in `i64`.
    #[verifier::loop_isolation(false)]
    pub fn next_token(&mut self) -> (r: Result<Token, TranslateError>)
        requires
            old(self).wf(),
        ensures
            final(self).wf(),
            final(self).src() == old(self).src(),
            final(self).pos() == spec_next_token(old(self).src(), old(self).pos()).1,
            (match r {
                Result::Ok(t) => t@ == spec_next_token(old(self).src(), old(self).pos()).0
                    && token_fits(t@),
                Result::Err(e) => e == TranslateError::NumberOverflow && !token_fits(
                    spec_next_token(old(self).src(), old(self).pos()).0,
                ),
            }),
    {
        let ghost s = self.src();
        let ghost pos0 = self.pos();
        loop
            invariant
                self.wf(),
                self.src() == s,
                pos0 <= self.pos(),
                skip_ws(s, self.pos()) == skip_ws(s, pos0),
            decreases s.len() - self.pos(),
        {
            let c = match self.peek() {
                Some(c) => c,
                None => {
                    return Ok(Token::EndOfFile);
                },
            };
            if ch_is_ws(c) {
                self.consume();
            } else if ch_is_letter(c) {
                let start = self.current_pos;
                loop
                    invariant
                        self.wf(),
                        self.src() == s,
                        start <= self.current_pos,
                        ident_end(s, start as int) == ident_end(s, self.pos()),
                    decreases s.len() - self.pos(),
                {
                    match self.peek() {
                        Some(c2) => {
                            if ch_is_ident(c2) {
                                self.consume();
                            } else {
                                break;
                            }
                        },
                        None => {
                            break;
                        },
                    }
                }
                let w = self.input.substring_char(start, self.current_pos);
                let tok = if is_keyword_str(w) {
                    Token::Keyword(w.to_owned())
                } else {
                    Token::Identifier(w.to_owned())
                };
                return Ok(tok);
            } else if ch_is_digit(c) {
                let start = self.current_pos;
                loop
                    invariant
                        self.wf(),
                        self.src() == s,
                        start <= self.current_pos,
                        digit_end(s, start as int) == digit_end(s, self.pos()),
                        forall|j: int|
                            start <= j < self.pos() ==> is_digit_char(#[trigger] s[j]),
                    decreases s.len() - self.pos(),
                {
                    match self.peek() {
                        Some(c2) => {
                            if ch_is_digit(c2) {
                                self.consume();
                            } else {
                                break;
                            }
                        },
                        None => {
                            break;
                        },
                    }
                }
                let end = self.current_pos;
                let ghost run = s.subrange(start as int, end as int);
                proof {
                    assert(all_digits(run));
                }
                let mut val: i64 = 0;
                let mut i: usize = start;
                while i < end
                    invariant
                        start <= i <= end,
                        end <= s.len(),
                        s == self.src(),
                        all_digits(run),
                        run == s.subrange(start as int, end as int),
                        0 <= val,
                        val as int == digits_value(s.subrange(start as int, i as int)),
                    decreases end - i,
                {
                    let c2 = self.input.get_char(i);
                    proof {
                        assert(is_digit_char(run[i - start]));
                        assert(run[i - start] == s[i as int]);
                    }
                    let d: i64 = ((c2 as u32) - 48) as i64;
                    let ghost next_prefix = s.subrange(start as int, i + 1);
                    proof {
                        assert(next_prefix.drop_last() =~= s.subrange(start as int, i as int));
                        assert(next_prefix.last() == s[i as int]);
                    }
                    if val > (i64::MAX - d) / 10 {
                        proof {
                            assert(10 * (val as int) + d > i64::MAX);
                            assert(digits_value(next_prefix) > i64::MAX);
                            assert(next_prefix =~= run.subrange(0, i + 1 - start));
                            lemma_digits_value_prefix(run, i + 1 - start);
                        }
                        return Err(TranslateError::NumberOverflow);
                    }
                    val = val * 10 + d;
                    i = i + 1;
                }
                proof {
                    assert(s.subrange(start as int, i as int) =~= run);
                }
                return Ok(Token::Number(val));
            } else if c == '"' {
                self.consume();
                let start = self.current_pos;
                loop
                    invariant
                        self.wf(),
                        self.src() == s,
                        start <= self.current_pos,
                        str_lit_end(s, start as int) == str_lit_end(s, self.pos()),
                    decreases s.len() - self.pos(),
                {
                    match self.peek() {
                        Some(c2) => {
                            if c2 == '"' {
                                break;
                            } else {
                                self.consume();
                            }
                        },
                        None => {
                            break;
                        },
                    }
                }
                let text = self.input.substring_char(start, self.current_pos);
                let tok = Token::StringLiteral(text.to_owned());
                self.consume();
                return Ok(tok);
            } else if ch_is_punct(c) {
                self.consume();
                return Ok(Token::Punctuation(c));
            } else {
                return Ok(Token::EndOfFile);
            }
        }
    }

    /// Tokenize the entire input: all tokens up to (excluding) `EndOfFile`.
    /// Succeeds if and only if every integer literal in the input fits in
    /// `i64`; the sole failure is `NumberOverflow`.
    #[verifier::loop_isolation(false)]
    pub fn tokenize(&mut self) -> (r: Result<Vec<Token>, TranslateError>)
        requires
            old(self).wf(),
        ensures
            final(self).wf(),
            final(self).src() == old(self).src(),
            old(self).pos() <= final(self).pos(),
            (match r {
                Result::Ok(v) => toks_view(v@) == spec_tokens(old(self).src(), old(self).pos())
                    && all_fit(spec_tokens(old(self).src(), old(self).pos())),
                Result::Err(e) => e == TranslateError::NumberOverflow && !all_fit(
                    spec_tokens(old(self).src(), old(self).pos()),
                ),
            }),
    {
        let ghost s = self.src();
        let ghost pos0 = self.pos();
        let mut tokens: Vec<Token> = Vec::new();
        loop
            invariant
                self.wf(),
                self.src() == s,
                pos0 <= self.pos(),
                all_fit(toks_view(tokens@)),
                spec_tokens(s, pos0) == toks_view(tokens@) + spec_tokens(s, self.pos()),
            decreases s.len() - self.pos(),
        {
            let ghost p = self.pos();
            let token = match self.next_token() {
                Ok(t) => t,
                Err(e) => {
                    proof {
                        lemma_next_token_advances(s, p);
                        let m = spec_next_token(s, p);
                        assert(spec_tokens(s, p)[0] == m.0);
                        assert(!all_fit(spec_tokens(s, p)));
                        let full = toks_view(tokens@) + spec_tokens(s, p);
                        assert(full[tokens@.len() as int] == spec_tokens(s, p)[0]);
                    }
                    return Err(e);
                },
            };
            proof {
                lemma_next_token_advances(s, p);
            }
            let done = match &token {
                Token::EndOfFile => true,
                _ => false,
            };
            if done {
                proof {
                    assert(spec_tokens(s, p) =~= Seq::<TokenModel>::empty());
                    assert(spec_tokens(s, pos0) =~= toks_view(tokens@));
                }
                break;
            }
            proof {
                lemma_next_token_advances(s, p);
                let m = spec_next_token(s, p);
                assert(spec_tokens(s, p) =~= seq![m.0] + spec_tokens(s, m.1));
                assert(toks_view(tokens@.push(token)) =~= toks_view(tokens@) + seq![token@]);
                assert(toks_view(tokens@) + spec_tokens(s, p) =~= (toks_view(tokens@) + seq![
                    token@,
                ]) + spec_tokens(s, m.1));
            }
            tokens.push(token);
        }
        Ok(tokens)
    }
}

} // verus!
