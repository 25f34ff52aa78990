//! Lexical analysis: turns raw source text into an ordered token sequence.
//!
//! The scanner walks the source left to right with a forward cursor,
//! skipping whitespace before each token.  A maximal run of ASCII digits
//! becomes a [`Token::Number`]; a maximal run of alphanumerics and
//! underscores starting with a letter becomes a keyword or a
//! [`Token::Identifier`]; the operators `+ - *` and the punctuation
//! `: = ; ( )` are single-character tokens.  Any other character is a
//! fatal [`TokenizeError::UnexpectedChar`].
//!
//! [`spec_tokenize`] is the mathematical model of the scanner; the
//! executable [`Tokenizer::tokenize`] is proved to return exactly what
//! the model says, for every input.

use vstd::prelude::*;
use vstd::string::StrSliceExecFns;

verus! {

/// Operator of a [`Token::BinaryOperator`] token.
#[derive(Debug, PartialEq, Eq, Clone, Copy)]
pub enum BinaryOp {
    Plus,
    Minus,
    Star,
}

/// Reserved markers for numeric literal forms the language may grow
/// (signed, float, hex, binary).  The current scanner never sets any.
#[derive(Debug, PartialEq, Eq, Clone, Copy)]
pub enum NumberTypeFlag {
    Signed,
    Floating,
    Hexadecimal,
    Binary,
}

/// Smallest lexical unit of the language.  `offset` fields are the
/// character position of the token's first character in the source.
#[derive(Debug, PartialEq, Eq)]
pub enum Token {
    Number { raw: String, flags: Vec<NumberTypeFlag>, offset: usize },
    Identifier(String),
    BinaryOperator { op: BinaryOp, offset: usize },
    Let,
    Exit,
    Colon,
    SingleEqual,
    Semicolon,
    OpenParen,
    CloseParen,
}

/// Mathematical abstraction of a [`Token`]: strings become character
/// sequences and offsets become unbounded naturals.
pub ghost enum SpecToken {
    Number { raw: Seq<char>, flags: Seq<NumberTypeFlag>, offset: nat },
    Identifier { name: Seq<char> },
    BinaryOperator { op: BinaryOp, offset: nat },
    Let,
    Exit,
    Colon,
    SingleEqual,
    Semicolon,
    OpenParen,
    CloseParen,
}

impl View for Token {
    type V = SpecToken;

    open spec fn view(&self) -> SpecToken {
        match self {
            Token::Number { raw, flags, offset } => SpecToken::Number {
                raw: raw@,
                flags: flags@,
                offset: *offset as nat,
            },
            Token::Identifier(name) => SpecToken::Identifier { name: name@ },
            Token::BinaryOperator { op, offset } => SpecToken::BinaryOperator {
                op: *op,
                offset: *offset as nat,
            },
            Token::Let => SpecToken::Let,
            Token::Exit => SpecToken::Exit,
            Token::Colon => SpecToken::Colon,
            Token::SingleEqual => SpecToken::SingleEqual,
            Token::Semicolon => SpecToken::Semicolon,
            Token::OpenParen => SpecToken::OpenParen,
            Token::CloseParen => SpecToken::CloseParen,
        }
    }
}

/// Abstraction of a token sequence.
pub open spec fn toks_view(ts: Seq<Token>) -> Seq<SpecToken> {
    ts.map_values(|t: Token| t@)
}

// ---------------------------------------------------------------------
// Character classes
// ---------------------------------------------------------------------

/// ASCII decimal digit.
pub open spec fn is_digit_char(c: char) -> bool {
    48 <= c as u32 <= 57
}

/// Whitespace skipped between tokens.
pub open spec fn is_space_char(c: char) -> bool {
    c == ' ' || c == '\t' || c == '\n' || c == '\r'
}

/// ASCII letter: the only characters an identifier may start with.
pub open spec fn is_letter_char(c: char) -> bool {
    (97 <= c as u32 <= 122) || (65 <= c as u32 <= 90)
}

/// Characters an identifier may continue with.
pub open spec fn is_ident_char(c: char) -> bool {
    is_letter_char(c) || is_digit_char(c) || c == '_'
}

/// The three binary-operator characters.
pub open spec fn is_op_char(c: char) -> bool {
    c == '+' || c == '-' || c == '*'
}

/// Operator denoted by an operator character.
pub open spec fn op_of_char(c: char) -> BinaryOp {
    if c == '+' {
        BinaryOp::Plus
    } else if c == '-' {
        BinaryOp::Minus
    } else {
        BinaryOp::Star
    }
}

/// The five single-character punctuation tokens.
pub open spec fn is_punct_char(c: char) -> bool {
    c == ':' || c == '=' || c == ';' || c == '(' || c == ')'
}

/// Token denoted by a punctuation character.
pub open spec fn punct_token(c: char) -> SpecToken {
    if c == ':' {
        SpecToken::Colon
    } else if c == '=' {
        SpecToken::SingleEqual
    } else if c == ';' {
        SpecToken::Semicolon
    } else if c == '(' {
        SpecToken::OpenParen
    } else {
        SpecToken::CloseParen
    }
}

/// The reserved word introducing a variable declaration.
pub open spec fn let_chars() -> Seq<char> {
    seq!['l', 'e', 't']
}

/// The reserved word introducing a program-exit statement.
pub open spec fn exit_chars() -> Seq<char> {
    seq!['e', 'x', 'i', 't']
}

// ---------------------------------------------------------------------
// Runs of characters
// ---------------------------------------------------------------------

/// Length of the maximal digit run at the head of `s`.
pub open spec fn digit_run_len(s: Seq<char>) -> nat
    decreases s.len(),
{
    if s.len() > 0 && is_digit_char(s[0]) {
        1 + digit_run_len(s.skip(1))
    } else {
        0
    }
}

/// Length of the maximal identifier-character run at the head of `s`.
pub open spec fn ident_run_len(s: Seq<char>) -> nat
    decreases s.len(),
{
    if s.len() > 0 && is_ident_char(s[0]) {
        1 + ident_run_len(s.skip(1))
    } else {
        0
    }
}

proof fn lemma_digit_run_le_len(s: Seq<char>)
    ensures
        digit_run_len(s) <= s.len(),
    decreases s.len(),
{
    if s.len() > 0 && is_digit_char(s[0]) {
        lemma_digit_run_le_len(s.skip(1));
    }
}

proof fn lemma_ident_run_le_len(s: Seq<char>)
    ensures
        ident_run_len(s) <= s.len(),
    decreases s.len(),
{
    if s.len() > 0 && is_ident_char(s[0]) {
        lemma_ident_run_le_len(s.skip(1));
    }
}

/// The maximal digit run is exactly the `n` for which the first `n`
/// characters are digits and the character after them (if any) is not.
pub proof fn lemma_digit_run_char(s: Seq<char>, n: int)
    requires
        0 <= n <= s.len(),
        forall|i: int| 0 <= i < n ==> is_digit_char(s[i]),
        n == s.len() || !is_digit_char(s[n]),
    ensures
        digit_run_len(s) == n,
    decreases n,
{
    if n == 0 {
    } else {
        assert(forall|i: int| 0 <= i < n - 1 ==> s.skip(1)[i] == s[i + 1]);
        lemma_digit_run_char(s.skip(1), n - 1);
    }
}

proof fn lemma_ident_run_char(s: Seq<char>, n: int)
    requires
        0 <= n <= s.len(),
        forall|i: int| 0 <= i < n ==> is_ident_char(s[i]),
        n == s.len() || !is_ident_char(s[n]),
    ensures
        ident_run_len(s) == n,
    decreases n,
{
    if n == 0 {
    } else {
        assert(forall|i: int| 0 <= i < n - 1 ==> s.skip(1)[i] == s[i + 1]);
        lemma_ident_run_char(s.skip(1), n - 1);
    }
}

fn digit_char(c: char) -> (r: bool)
    ensures
        r == is_digit_char(c),
{
    let u = c as u32;
    48 <= u && u <= 57
}

fn letter_char(c: char) -> (r: bool)
    ensures
        r == is_letter_char(c),
{
    let u = c as u32;
    (97 <= u && u <= 122) || (65 <= u && u <= 90)
}

fn ident_char(c: char) -> (r: bool)
    ensures
        r == is_ident_char(c),
{
    letter_char(c) || digit_char(c) || c == '_'
}

// ---------------------------------------------------------------------
// The lexing model
// ---------------------------------------------------------------------

/// What scanning the suffix `s` of the source yields, when the suffix
/// starts at absolute character position `pos`: the token sequence of
/// `s`, or the first offending character with its position.
pub open spec fn spec_tokenize(s: Seq<char>, pos: nat) -> Result<Seq<SpecToken>, (char, nat)>
    decreases s.len(),
    via spec_tokenize_decreases
{
    if s.len() == 0 {
        Ok(Seq::empty())
    } else if is_space_char(s[0]) {
        spec_tokenize(s.skip(1), pos + 1)
    } else if is_digit_char(s[0]) {
        let n = digit_run_len(s) as int;
        let tok = SpecToken::Number { raw: s.take(n), flags: Seq::empty(), offset: pos };
        match spec_tokenize(s.skip(n), (pos + n) as nat) {
            Ok(rest) => Ok(seq![tok] + rest),
            Err(e) => Err(e),
        }
    } else if is_letter_char(s[0]) {
        let n = ident_run_len(s) as int;
        let word = s.take(n);
        let tok = if word == let_chars() {
            SpecToken::Let
        } else if word == exit_chars() {
            SpecToken::Exit
        } else {
            SpecToken::Identifier { name: word }
        };
        match spec_tokenize(s.skip(n), (pos + n) as nat) {
            Ok(rest) => Ok(seq![tok] + rest),
            Err(e) => Err(e),
        }
    } else if is_op_char(s[0]) {
        let tok = SpecToken::BinaryOperator { op: op_of_char(s[0]), offset: pos };
        match spec_tokenize(s.skip(1), pos + 1) {
            Ok(rest) => Ok(seq![tok] + rest),
            Err(e) => Err(e),
        }
    } else if is_punct_char(s[0]) {
        match spec_tokenize(s.skip(1), pos + 1) {
            Ok(rest) => Ok(seq![punct_token(s[0])] + rest),
            Err(e) => Err(e),
        }
    } else {
        Err((s[0], pos))
    }
}

#[via_fn]
proof fn spec_tokenize_decreases(s: Seq<char>, pos: nat) {
    lemma_digit_run_le_len(s);
    lemma_ident_run_le_len(s);
}

proof fn lemma_digit_run_props(s: Seq<char>)
    ensures
        digit_run_len(s) <= s.len(),
        forall|i: int| 0 <= i < digit_run_len(s) ==> is_digit_char(s[i]),
        digit_run_len(s) == s.len() || !is_digit_char(s[digit_run_len(s) as int]),
    decreases s.len(),
{
    if s.len() > 0 && is_digit_char(s[0]) {
        lemma_digit_run_props(s.skip(1));
        assert(forall|i: int| 0 <= i < s.skip(1).len() ==> s.skip(1)[i] == s[i + 1]);
        assert forall|i: int| 0 <= i < digit_run_len(s) implies is_digit_char(s[i]) by {
            if i > 0 {
                assert(s.skip(1)[i - 1] == s[i]);
            }
        }
    }
}

/// Law: a source that is one nonempty run of digits lexes to exactly
/// one number token whose text is the whole run, with no flags, at the
/// run's starting position.
pub proof fn lemma_lex_digit_run(s: Seq<char>, pos: nat)
    requires
        s.len() > 0,
        forall|i: int| 0 <= i < s.len() ==> is_digit_char(s[i]),
    ensures
        spec_tokenize(s, pos) == Ok::<Seq<SpecToken>, (char, nat)>(
            seq![SpecToken::Number { raw: s, flags: Seq::empty(), offset: pos }],
        ),
{
    lemma_digit_run_char(s, s.len() as int);
    assert(!is_space_char(s[0]));
    assert(s.take(s.len() as int) =~= s);
    assert(s.skip(s.len() as int) =~= Seq::<char>::empty());
    let tok = SpecToken::Number { raw: s, flags: Seq::empty(), offset: pos };
    assert(spec_tokenize(Seq::<char>::empty(), (pos + s.len()) as nat) == Ok::<
        Seq<SpecToken>,
        (char, nat),
    >(Seq::empty()));
    assert(seq![tok] + Seq::<SpecToken>::empty() =~= seq![tok]);
}

// ---------------------------------------------------------------------
// Counting tokens of operator-and-digit sources
// ---------------------------------------------------------------------

/// Number of maximal digit runs in `s`, where `prev_digit` says whether
/// the character just before `s` was itself a digit (a run only starts
/// where no digit precedes it).
pub open spec fn digit_run_count(s: Seq<char>, prev_digit: bool) -> nat
    decreases s.len(),
{
    if s.len() == 0 {
        0
    } else {
        (if is_digit_char(s[0]) && !prev_digit {
            1nat
        } else {
            0nat
        }) + digit_run_count(s.skip(1), is_digit_char(s[0]))
    }
}

/// Number of operator characters in `s`.
pub open spec fn op_char_count(s: Seq<char>) -> nat
    decreases s.len(),
{
    if s.len() == 0 {
        0
    } else {
        (if is_op_char(s[0]) {
            1nat
        } else {
            0nat
        }) + op_char_count(s.skip(1))
    }
}

/// Skipping a whole digit run neither closes another run nor passes an
/// operator character.
proof fn lemma_counts_past_run(s: Seq<char>, n: int)
    requires
        0 <= n <= s.len(),
        forall|i: int| 0 <= i < n ==> is_digit_char(s[i]),
        n == s.len() || !is_digit_char(s[n]),
    ensures
        digit_run_count(s, true) == digit_run_count(s.skip(n), false),
        op_char_count(s) == op_char_count(s.skip(n)),
    decreases n,
{
    if n == 0 {
        assert(s.skip(0) =~= s);
    } else {
        assert(forall|i: int| 0 <= i < s.skip(1).len() ==> s.skip(1)[i] == s[i + 1]);
        lemma_counts_past_run(s.skip(1), n - 1);
        assert(s.skip(1).skip(n - 1) =~= s.skip(n));
    }
}

/// Law: a source made only of whitespace, digits and the operator
/// characters always lexes, to one token per maximal digit run plus one
/// per operator character.
pub proof fn lemma_lex_ops_and_digits(s: Seq<char>, pos: nat)
    requires
        forall|i: int|
            0 <= i < s.len() ==> is_space_char(s[i]) || is_digit_char(s[i]) || is_op_char(s[i]),
    ensures
        spec_tokenize(s, pos) matches Ok(tks) && tks.len() == digit_run_count(s, false)
            + op_char_count(s),
    decreases s.len(),
{
    if s.len() == 0 {
    } else {
        assert(forall|i: int| 0 <= i < s.skip(1).len() ==> s.skip(1)[i] == s[i + 1]);
        if is_space_char(s[0]) {
            lemma_lex_ops_and_digits(s.skip(1), pos + 1);
        } else if is_digit_char(s[0]) {
            lemma_digit_run_props(s);
            let n = digit_run_len(s) as int;
            assert(forall|i: int| 0 <= i < s.skip(n).len() ==> s.skip(n)[i] == s[i + n]);
            lemma_lex_ops_and_digits(s.skip(n), (pos + n) as nat);
            lemma_counts_past_run(s.skip(1), n - 1);
            assert(s.skip(1).skip(n - 1) =~= s.skip(n));
        } else {
            lemma_lex_ops_and_digits(s.skip(1), pos + 1);
        }
    }
}

/// One scanning step: when the model consumes the characters between
/// `cur` and `next` into one token, the tokens-so-far prefix of the
/// whole scan moves forward by that token.
proof fn lemma_prefix_shift(
    prefix: Seq<SpecToken>,
    tok: SpecToken,
    src: Seq<char>,
    off0: nat,
    cur: int,
    next: int,
)
    requires
        0 <= cur <= next,
        spec_tokenize(src.skip(cur), cur as nat) == (match spec_tokenize(
            src.skip(next),
            next as nat,
        ) {
            Ok(rest) => Ok::<Seq<SpecToken>, (char, nat)>(seq![tok] + rest),
            Err(e) => Err::<Seq<SpecToken>, (char, nat)>(e),
        }),
        match spec_tokenize(src.skip(cur), cur as nat) {
            Ok(tks) => spec_tokenize(src.skip(off0 as int), off0) == Ok::<
                Seq<SpecToken>,
                (char, nat),
            >(prefix + tks),
            Err(e) => spec_tokenize(src.skip(off0 as int), off0) == Err::<
                Seq<SpecToken>,
                (char, nat),
            >(e),
        },
    ensures
        match spec_tokenize(src.skip(next), next as nat) {
            Ok(rest) => spec_tokenize(src.skip(off0 as int), off0) == Ok::<
                Seq<SpecToken>,
                (char, nat),
            >((prefix + seq![tok]) + rest),
            Err(e) => spec_tokenize(src.skip(off0 as int), off0) == Err::<
                Seq<SpecToken>,
                (char, nat),
            >(e),
        },
{
    match spec_tokenize(src.skip(next), next as nat) {
        Ok(rest) => {
            assert(prefix + (seq![tok] + rest) =~= (prefix + seq![tok]) + rest);
        },
        Err(e) => {},
    }
}

// ---------------------------------------------------------------------
// Diagnostic locations
// ---------------------------------------------------------------------

/// Character index at which the line containing position `off` starts.
pub open spec fn spec_line_start(s: Seq<char>, off: int) -> int
    decreases off,
{
    if off <= 0 {
        0
    } else if s[off - 1] == '\n' {
        off
    } else {
        spec_line_start(s, off - 1)
    }
}

/// Number of line breaks strictly before position `off`.
pub open spec fn spec_newlines_before(s: Seq<char>, off: int) -> nat
    decreases off,
{
    if off <= 0 {
        0
    } else {
        spec_newlines_before(s, off - 1) + (if s[off - 1] == '\n' {
            1nat
        } else {
            0nat
        })
    }
}

/// Whether position `off` lies on some line of `s`: any position before
/// the end, or the end itself when the text does not close with a line
/// break (an empty text has no lines at all).
pub open spec fn spec_location_defined(s: Seq<char>, off: int) -> bool {
    0 <= off < s.len() || (off == s.len() && s.len() > 0 && s[s.len() - 1] != '\n')
}

/// 1-based line and column of position `off` in the text `s`.
pub open spec fn spec_location(s: Seq<char>, off: int) -> Option<(nat, nat)> {
    if spec_location_defined(s, off) {
        Some(
            (
                spec_newlines_before(s, off) + 1,
                (off - spec_line_start(s, off) + 1) as nat,
            ),
        )
    } else {
        None
    }
}

proof fn lemma_line_start_bounds(s: Seq<char>, off: int)
    requires
        off >= 0,
    ensures
        0 <= spec_line_start(s, off) <= off,
    decreases off,
{
    if off > 0 && s[off - 1] != '\n' {
        lemma_line_start_bounds(s, off - 1);
    }
}

/// Derives the 1-based line and column of character position `offset`
/// in `input`, by scanning the text for its line breaks.
pub fn location_from_offset(input: &str, offset: usize) -> (r: Option<(usize, usize)>)
    requires
        offset < usize::MAX,
    ensures
        match r {
            Some((line, column)) => spec_location(input@, offset as int) == Some(
                (line as nat, column as nat),
            ),
            None => spec_location(input@, offset as int) is None,
        },
{
    let len = input.unicode_len();
    if offset > len {
        return None;
    }
    if offset == len {
        if len == 0 {
            return None;
        }
        let last = input.get_char(len - 1);
        if last == '\n' {
            return None;
        }
    }
    let mut i: usize = 0;
    let mut line: usize = 1;
    let mut start: usize = 0;
    while i < offset
        invariant
            offset < usize::MAX,
            offset <= len,
            len == input@.len(),
            0 <= i <= offset,
            start <= i,
            line == spec_newlines_before(input@, i as int) + 1,
            line <= i + 1,
            start == spec_line_start(input@, i as int),
        decreases offset - i,
    {
        let c = input.get_char(i);
        if c == '\n' {
            line = line + 1;
            start = i + 1;
        }
        i = i + 1;
    }
    proof {
        lemma_line_start_bounds(input@, offset as int);
    }
    Some((line, offset - start + 1))
}

// ---------------------------------------------------------------------
// The scanner
// ---------------------------------------------------------------------

/// Fatal lexing failure: the character at the cursor starts no token.
/// Carries the character, its character offset, and the derived 1-based
/// line and column, so a driver can render `file:line:column: message`.
#[derive(Debug, PartialEq, Eq)]
pub enum TokenizeError {
    UnexpectedChar { found: Option<char>, offset: usize, line: usize, column: usize },
}

pub type TokenizerResult = Result<Vec<Token>, TokenizeError>;

/// Scanner over one source text, with a forward character cursor.
pub struct Tokenizer {
    source: String,
    source_code_file_name: String,
    offset: usize,
}

impl Tokenizer {
    /// Scanner at the start of `source_code`; `file_name` is kept only
    /// as the display name for diagnostics.
    pub fn new(source_code: String, file_name: String) -> (r: Self)
        ensures
            r.spec_source() == source_code@,
            r.spec_file_name() == file_name@,
            r.spec_offset() == 0,
    {
        Self { source: source_code, source_code_file_name: file_name, offset: 0 }
    }

    /// The display name handed to [`Tokenizer::new`].
    pub fn file_name(&self) -> (r: &String)
        ensures
            r@ == self.spec_file_name(),
    {
        &self.source_code_file_name
    }

    /// Source text being scanned.
    pub closed spec fn spec_source(&self) -> Seq<char> {
        self.source@
    }

    /// Display name kept for diagnostics.
    pub closed spec fn spec_file_name(&self) -> Seq<char> {
        self.source_code_file_name@
    }

    /// Current cursor position, in characters.
    pub closed spec fn spec_offset(&self) -> nat {
        self.offset as nat
    }

    /// Scans the whole remaining source and returns its tokens in
    /// source order, or the first offending character's error, exactly
    /// as [`spec_tokenize`] says.
    #[verifier::loop_isolation(false)]
    pub fn tokenize(self) -> (r: TokenizerResult)
        requires
            self.spec_offset() <= self.spec_source().len(),
        ensures
            match spec_tokenize(
                self.spec_source().skip(self.spec_offset() as int),
                self.spec_offset(),
            ) {
                Ok(tks) => r matches Ok(v) && toks_view(v@) == tks,
                Err(e) => r matches Err(te) && te matches TokenizeError::UnexpectedChar {
                    found,
                    offset,
                    line,
                    column,
                } && found == Some(e.0) && offset as nat == e.1 && spec_location(
                    self.spec_source(),
                    e.1 as int,
                ) == Some((line as nat, column as nat)),
            },
    {
        let mut this = self;
        let ghost src = this.spec_source();
        let ghost off0 = this.spec_offset();
        let mut tokens: Vec<Token> = Vec::new();
        while !this.finished()
            invariant
                this.spec_source() == src,
                off0 <= this.spec_offset() <= src.len(),
                match spec_tokenize(src.skip(this.spec_offset() as int), this.spec_offset()) {
                    Ok(tks) => spec_tokenize(src.skip(off0 as int), off0) == Ok::<
                        Seq<SpecToken>,
                        (char, nat),
                    >(toks_view(tokens@) + tks),
                    Err(e) => spec_tokenize(src.skip(off0 as int), off0) == Err::<
                        Seq<SpecToken>,
                        (char, nat),
                    >(e),
                },
            decreases src.len() - this.spec_offset(),
        {
            this.trim_whitespace();
            let ghost cur = this.spec_offset() as int;
            let ghost toks0 = tokens@;
            match this.peek() {
                None => {
                    proof {
                        assert(src.skip(cur) =~= Seq::<char>::empty());
                        assert(toks_view(tokens@) + Seq::<SpecToken>::empty() =~= toks_view(
                            tokens@,
                        ));
                    }
                    return Ok(tokens);
                },
                Some(c) => {
                    proof {
                        assert(src.skip(cur)[0] == src[cur]);
                    }
                    if digit_char(c) {
                        let start = this.offset;
                        while this.at_digit()
                            invariant
                                this.spec_source() == src,
                                start <= this.offset,
                                start as int <= this.offset as int <= src.len() as int,
                                forall|i: int|
                                    start <= i < this.offset as int ==> is_digit_char(src[i]),
                            decreases src.len() - this.spec_offset(),
                        {
                            this.consume();
                        }
                        let end = this.offset;
                        proof {
                            assert(forall|i: int|
                                0 <= i < end - start ==> src.skip(start as int)[i] == src[
                                start + i]);
                            lemma_digit_run_char(src.skip(start as int), end - start);
                        }
                        let raw = this.source.as_str().substring_char(start, end).to_owned();
                        let tok = Token::Number { raw, flags: Vec::new(), offset: start };
                        proof {
                            assert(src.skip(start as int).take((end - start) as int)
                                =~= src.subrange(start as int, end as int));
                            assert(src.skip(start as int).skip((end - start) as int) =~= src.skip(
                                end as int,
                            ));
                        }
                        tokens.push(tok);
                        proof {
                            assert(toks_view(tokens@) =~= toks_view(toks0) + seq![tok@]);
                            lemma_prefix_shift(toks_view(toks0), tok@, src, off0, cur, end as int);
                        }
                    } else if letter_char(c) {
                        let start = this.offset;
                        while this.at_ident_char()
                            invariant
                                this.spec_source() == src,
                                start <= this.offset,
                                start as int <= this.offset as int <= src.len() as int,
                                forall|i: int|
                                    start <= i < this.offset as int ==> is_ident_char(src[i]),
                            decreases src.len() - this.spec_offset(),
                        {
                            this.consume();
                        }
                        let end = this.offset;
                        proof {
                            assert(forall|i: int|
                                0 <= i < end - start ==> src.skip(start as int)[i] == src[
                                start + i]);
                            lemma_ident_run_char(src.skip(start as int), end - start);
                            assert(src.skip(start as int).take((end - start) as int)
                                =~= src.subrange(start as int, end as int));
                            assert(src.skip(start as int).skip((end - start) as int) =~= src.skip(
                                end as int,
                            ));
                        }
                        let word = this.source.as_str().substring_char(start, end);
                        let ghost w = src.subrange(start as int, end as int);
                        let tok: Token;
                        if end - start == 3 && word.get_char(0) == 'l' && word.get_char(1) == 'e'
                            && word.get_char(2) == 't' {
                            tok = Token::Let;
                            proof {
                                assert(w =~= let_chars());
                            }
                        } else if end - start == 4 && word.get_char(0) == 'e' && word.get_char(1)
                            == 'x' && word.get_char(2) == 'i' && word.get_char(3) == 't' {
                            tok = Token::Exit;
                            proof {
                                assert(w =~= exit_chars());
                            }
                        } else {
                            tok = Token::Identifier(word.to_owned());
                            proof {
                                assert(w != let_chars() && w != exit_chars()) by {
                                    assert(let_chars().len() == 3 && let_chars()[0] == 'l'
                                        && let_chars()[1] == 'e' && let_chars()[2] == 't');
                                    assert(exit_chars().len() == 4 && exit_chars()[0] == 'e'
                                        && exit_chars()[1] == 'x' && exit_chars()[2] == 'i'
                                        && exit_chars()[3] == 't');
                                }
                            }
                        }
                        tokens.push(tok);
                        proof {
                            assert(toks_view(tokens@) =~= toks_view(toks0) + seq![tok@]);
                            lemma_prefix_shift(toks_view(toks0), tok@, src, off0, cur, end as int);
                        }
                    } else if c == '+' || c == '-' || c == '*' {
                        let op = if c == '+' {
                            BinaryOp::Plus
                        } else if c == '-' {
                            BinaryOp::Minus
                        } else {
                            BinaryOp::Star
                        };
                        let tok = Token::BinaryOperator { op, offset: this.offset };
                        this.consume();
                        tokens.push(tok);
                        proof {
                            assert(src.skip(cur).skip(1) =~= src.skip(cur + 1));
                            assert(toks_view(tokens@) =~= toks_view(toks0) + seq![tok@]);
                            lemma_prefix_shift(toks_view(toks0), tok@, src, off0, cur, cur + 1);
                        }
                    } else if c == ':' || c == '=' || c == ';' || c == '(' || c == ')' {
                        let tok = if c == ':' {
                            Token::Colon
                        } else if c == '=' {
                            Token::SingleEqual
                        } else if c == ';' {
                            Token::Semicolon
                        } else if c == '(' {
                            Token::OpenParen
                        } else {
                            Token::CloseParen
                        };
                        this.consume();
                        tokens.push(tok);
                        proof {
                            assert(src.skip(cur).skip(1) =~= src.skip(cur + 1));
                            assert(toks_view(tokens@) =~= toks_view(toks0) + seq![tok@]);
                            lemma_prefix_shift(toks_view(toks0), tok@, src, off0, cur, cur + 1);
                        }
                    } else {
                        let off = this.offset;
                        let n = this.source.as_str().unicode_len();
                        assert(off < n);
                        let loc = location_from_offset(this.source.as_str(), off);
                        let (line, column) = loc.unwrap();
                        return Err(
                            TokenizeError::UnexpectedChar {
                                found: Some(c),
                                offset: off,
                                line,
                                column,
                            },
                        );
                    }
                },
            }
        }
        proof {
            assert(src.skip(this.spec_offset() as int) =~= Seq::<char>::empty());
            assert(toks_view(tokens@) + Seq::<SpecToken>::empty() =~= toks_view(tokens@));
        }
        Ok(tokens)
    }

    fn finished(&self) -> (r: bool)
        ensures
            r == (self.spec_offset() >= self.spec_source().len()),
    {
        self.offset >= self.source.as_str().unicode_len()
    }

    fn at_digit(&self) -> (r: bool)
        ensures
            r == (self.spec_offset() < self.spec_source().len() && is_digit_char(
                self.spec_source()[self.spec_offset() as int],
            )),
    {
        match self.peek() {
            Some(c) => digit_char(c),
            None => false,
        }
    }

    fn at_ident_char(&self) -> (r: bool)
        ensures
            r == (self.spec_offset() < self.spec_source().len() && is_ident_char(
                self.spec_source()[self.spec_offset() as int],
            )),
    {
        match self.peek() {
            Some(c) => ident_char(c),
            None => false,
        }
    }

    fn peek(&self) -> (r: Option<char>)
        ensures
            r == (if self.spec_offset() < self.spec_source().len() {
                Some(self.spec_source()[self.spec_offset() as int])
            } else {
                None::<char>
            }),
    {
        if self.offset < self.source.as_str().unicode_len() {
            Some(self.source.as_str().get_char(self.offset))
        } else {
            None
        }
    }

    fn consume(&mut self) -> (r: Option<char>)
        ensures
            final(self).spec_source() == old(self).spec_source(),
            final(self).source_code_file_name == old(self).source_code_file_name,
            old(self).spec_offset() < old(self).spec_source().len() ==> {
                &&& final(self).spec_offset() == old(self).spec_offset() + 1
                &&& r == Some(old(self).spec_source()[old(self).spec_offset() as int])
            },
            old(self).spec_offset() >= old(self).spec_source().len() ==> {
                &&& final(self).spec_offset() == old(self).spec_offset()
                &&& r is None
            },
    {
        if self.offset < self.source.as_str().unicode_len() {
            let c = self.source.as_str().get_char(self.offset);
            self.offset = self.offset + 1;
            Some(c)
        } else {
            None
        }
    }

    fn trim_whitespace(&mut self)
        requires
            old(self).spec_offset() <= old(self).spec_source().len(),
        ensures
            final(self).spec_source() == old(self).spec_source(),
            final(self).source_code_file_name == old(self).source_code_file_name,
            old(self).spec_offset() <= final(self).spec_offset(),
            final(self).spec_offset() <= final(self).spec_source().len(),
            spec_tokenize(
                final(self).spec_source().skip(final(self).spec_offset() as int),
                final(self).spec_offset(),
            ) == spec_tokenize(
                old(self).spec_source().skip(old(self).spec_offset() as int),
                old(self).spec_offset(),
            ),
            final(self).spec_offset() == final(self).spec_source().len() || !is_space_char(
                final(self).spec_source()[final(self).spec_offset() as int],
            ),
    {
        let ghost src = self.spec_source();
        let ghost off0 = self.spec_offset();
        loop
            invariant
                src == old(self).spec_source(),
                off0 == old(self).spec_offset(),
                self.spec_source() == src,
                self.source_code_file_name == old(self).source_code_file_name,
                off0 <= self.spec_offset() <= src.len(),
                spec_tokenize(src.skip(self.spec_offset() as int), self.spec_offset())
                    == spec_tokenize(src.skip(off0 as int), off0),
            decreases src.len() - self.spec_offset(),
        {
            match self.peek() {
                Some(c) => {
                    if c == ' ' || c == '\t' || c == '\n' || c == '\r' {
                        let ghost before = self.spec_offset();
                        self.consume();
                        proof {
                            assert(src.skip(before as int).skip(1) =~= src.skip(
                                before as int + 1,
                            ));
                        }
                    } else {
                        return ;
                    }
                },
                None => {
                    return ;
                },
            }
        }
    }
}

} // verus!
