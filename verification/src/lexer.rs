use vstd::prelude::*;

use crate::ast::literal::float::{f64_parse, parse_bits, Float};
use crate::ast::literal::{chars_to_string, render_literal, Int, Literal};
use crate::error::{Error, SyntaxError};

verus! {

/// A lexical token: an operator, a parenthesis, a numeric literal, or a
/// single character the tokenizer did not recognize.
#[derive(Clone, Copy, Debug, PartialEq, Eq, Structural)]
pub enum Token {
    Plus,
    Dash,
    Star,
    ForwardSlash,
    Hat,
    LeftParenthesis,
    RightParenthesis,
    Literal(Literal),
    Unrecognized(char),
}

/// Whether a token continues an expression: the additive operators.
pub open spec fn is_expression_token(t: Token) -> bool {
    t == Token::Dash || t == Token::Plus
}

/// Whether a token continues a term: the multiplicative operators and power.
pub open spec fn is_term_token(t: Token) -> bool {
    t == Token::Star || t == Token::ForwardSlash || t == Token::Hat
}

/// The rendering of a token: the character it was read from, or the
/// decimal form of a literal.
pub open spec fn render_token(t: Token) -> Seq<char> {
    match t {
        Token::Plus => seq!['+'],
        Token::Dash => seq!['-'],
        Token::Star => seq!['*'],
        Token::ForwardSlash => seq!['/'],
        Token::Hat => seq!['^'],
        Token::LeftParenthesis => seq!['('],
        Token::RightParenthesis => seq![')'],
        Token::Literal(l) => render_literal(l),
        Token::Unrecognized(c) => seq![c],
    }
}

impl Token {
    /// This token's textual rendering.
    pub fn render(&self) -> (r: String)
        ensures
            r@ == render_token(*self),
    {
        let c = match self {
            Token::Plus => '+',
            Token::Dash => '-',
            Token::Star => '*',
            Token::ForwardSlash => '/',
            Token::Hat => '^',
            Token::LeftParenthesis => '(',
            Token::RightParenthesis => ')',
            Token::Literal(l) => {
                return l.render();
            },
            Token::Unrecognized(ch) => *ch,
        };
        let mut out: Vec<char> = Vec::new();
        out.push(c);
        proof {
            assert(out@ =~= render_token(*self));
        }
        chars_to_string(&out)
    }

    /// Whether this token continues an expression (`+` or `-`).
    pub fn is_expression(&self) -> (r: bool)
        ensures
            r == is_expression_token(*self),
    {
        matches!(self, Token::Dash | Token::Plus)
    }

    /// Whether this token continues a term (`*`, `/` or `^`).
    pub fn is_term(&self) -> (r: bool)
        ensures
            r == is_term_token(*self),
    {
        matches!(self, Token::Star | Token::ForwardSlash | Token::Hat)
    }
}

/// An ASCII decimal digit.
pub open spec fn is_digit_byte(b: u8) -> bool {
    48 <= b <= 57
}

/// A byte that may appear in a numeric run: a digit or a decimal point.
pub open spec fn is_num_byte(b: u8) -> bool {
    is_digit_byte(b) || b == 46
}

/// An ASCII whitespace byte (space, tab, newline, form feed, carriage
/// return), as `u8::is_ascii_whitespace` recognizes them.
pub open spec fn is_ws_byte(b: u8) -> bool {
    b == 32 || b == 9 || b == 10 || b == 12 || b == 13
}

/// The token for a single-byte operator or parenthesis, if the byte is one.
pub open spec fn op_token(b: u8) -> Option<Token> {
    if b == 43 {
        Some(Token::Plus)
    } else if b == 45 {
        Some(Token::Dash)
    } else if b == 42 {
        Some(Token::Star)
    } else if b == 47 {
        Some(Token::ForwardSlash)
    } else if b == 94 {
        Some(Token::Hat)
    } else if b == 40 {
        Some(Token::LeftParenthesis)
    } else if b == 41 {
        Some(Token::RightParenthesis)
    } else {
        None
    }
}

/// The length of the longest whitespace prefix of `s`.
pub open spec fn ws_len(s: Seq<u8>) -> nat
    decreases s.len(),
{
    if s.len() > 0 && is_ws_byte(s[0]) {
        1 + ws_len(s.skip(1))
    } else {
        0
    }
}

/// The length of the longest prefix of `s` made of digits and decimal
/// points: the run the tokenizer munches for a numeric literal.
pub open spec fn num_run_len(s: Seq<u8>) -> nat
    decreases s.len(),
{
    if s.len() > 0 && is_num_byte(s[0]) {
        1 + num_run_len(s.skip(1))
    } else {
        0
    }
}

/// How many decimal points a run holds.
pub open spec fn count_dots(s: Seq<u8>) -> nat
    decreases s.len(),
{
    if s.len() == 0 {
        0
    } else {
        count_dots(s.drop_last()) + if s.last() == 46 { 1nat } else { 0nat }
    }
}

/// Whether a run holds at least one digit.
pub open spec fn has_digit(s: Seq<u8>) -> bool
    decreases s.len(),
{
    if s.len() == 0 {
        false
    } else {
        has_digit(s.drop_last()) || is_digit_byte(s.last())
    }
}

/// The value of a run of decimal digits, most significant first.
pub open spec fn digits_value(s: Seq<u8>) -> int
    decreases s.len(),
{
    if s.len() == 0 {
        0
    } else {
        digits_value(s.drop_last()) * 10 + (s.last() - 48)
    }
}

/// The literal a numeric run denotes, if any: a float when the run has
/// exactly one decimal point and at least one digit, an integer fitting
/// 64 bits when it has digits only. A run of dots alone, a run with two
/// or more dots, and a digit run too large for 64 bits denote nothing.
pub open spec fn run_literal(run: Seq<u8>) -> Option<Literal> {
    if !has_digit(run) {
        None
    } else if count_dots(run) > 1 {
        None
    } else if count_dots(run) == 1 {
        match f64_parse(run) {
            Some(bits) => Some(Literal::Float(Float(bits))),
            None => None,
        }
    } else {
        if digits_value(run) <= i64::MAX {
            Some(Literal::Int(Int(digits_value(run) as i64)))
        } else {
            None
        }
    }
}

/// What the tokenizer logs for a numeric run: a float-parse error for a
/// run with digits and a misplaced or repeated decimal point, an
/// integer-parse error for a digit run too large for 64 bits, nothing
/// otherwise. A run with no digit at all is not treated as a numeric
/// literal and logs nothing.
pub open spec fn run_log(run: Seq<u8>) -> Seq<Error> {
    if !has_digit(run) {
        Seq::empty()
    } else if count_dots(run) > 1 {
        seq![Error::SyntaxError(SyntaxError::ParseFloat)]
    } else if count_dots(run) == 1 {
        match f64_parse(run) {
            Some(bits) => Seq::empty(),
            None => seq![Error::SyntaxError(SyntaxError::ParseFloat)],
        }
    } else {
        if digits_value(run) <= i64::MAX {
            Seq::empty()
        } else {
            seq![Error::SyntaxError(SyntaxError::ParseInt)]
        }
    }
}

/// One step of the tokenizer: the token it produces (none at end of
/// input), how many bytes it consumes, and what it logs.
pub ghost struct LexStep {
    pub token: Option<Token>,
    pub consumed: nat,
    pub log: Seq<Error>,
}

/// What one call of the tokenizer does on the remaining input: skip
/// whitespace, then read an operator, a parenthesis, a numeric run, or a
/// single unrecognized byte.
pub open spec fn next_token_spec(s: Seq<u8>) -> LexStep {
    let k = ws_len(s);
    let t = s.skip(k as int);
    if t.len() == 0 {
        LexStep { token: None, consumed: k, log: Seq::empty() }
    } else {
        let b = t[0];
        match op_token(b) {
            Some(tok) => LexStep { token: Some(tok), consumed: k + 1, log: Seq::empty() },
            None => {
                if is_num_byte(b) {
                    let run = t.take(num_run_len(t) as int);
                    LexStep {
                        token: Some(
                            match run_literal(run) {
                                Some(l) => Token::Literal(l),
                                None => Token::Unrecognized(b as char),
                            },
                        ),
                        consumed: k + num_run_len(t),
                        log: run_log(run),
                    }
                } else {
                    LexStep {
                        token: Some(Token::Unrecognized(b as char)),
                        consumed: k + 1,
                        log: Seq::empty(),
                    }
                }
            },
        }
    }
}

/// The whitespace prefix never reaches past the end of the input.
pub proof fn lemma_ws_len_le(s: Seq<u8>)
    ensures
        ws_len(s) <= s.len(),
    decreases s.len(),
{
    if s.len() > 0 && is_ws_byte(s[0]) {
        lemma_ws_len_le(s.skip(1));
    }
}

/// The numeric run never reaches past the end of the input.
pub proof fn lemma_num_run_le(s: Seq<u8>)
    ensures
        num_run_len(s) <= s.len(),
    decreases s.len(),
{
    if s.len() > 0 && is_num_byte(s[0]) {
        lemma_num_run_le(s.skip(1));
    }
}

/// A prefix of whitespace bytes followed by a non-whitespace byte (or the
/// end of the input) is exactly the whitespace prefix.
pub proof fn lemma_ws_len_eq(s: Seq<u8>, n: nat)
    requires
        n <= s.len(),
        forall|i: int| 0 <= i < n ==> is_ws_byte(s[i]),
        n == s.len() || !is_ws_byte(s[n as int]),
    ensures
        ws_len(s) == n,
    decreases n,
{
    if n == 0 {
    } else {
        assert(is_ws_byte(s[0]));
        assert(forall|i: int| 0 <= i < n - 1 ==> is_ws_byte(s.skip(1)[i]));
        lemma_ws_len_eq(s.skip(1), (n - 1) as nat);
    }
}

/// A prefix of numeric bytes followed by a non-numeric byte (or the end
/// of the input) is exactly the numeric run.
pub proof fn lemma_num_run_eq(s: Seq<u8>, n: nat)
    requires
        n <= s.len(),
        forall|i: int| 0 <= i < n ==> is_num_byte(s[i]),
        n == s.len() || !is_num_byte(s[n as int]),
    ensures
        num_run_len(s) == n,
    decreases n,
{
    if n == 0 {
    } else {
        assert(is_num_byte(s[0]));
        assert(forall|i: int| 0 <= i < n - 1 ==> is_num_byte(s.skip(1)[i]));
        lemma_num_run_eq(s.skip(1), (n - 1) as nat);
    }
}

/// A run of decimal digits holds no decimal point.
pub proof fn lemma_count_dots_none(s: Seq<u8>)
    requires
        forall|i: int| 0 <= i < s.len() ==> is_digit_byte(s[i]),
    ensures
        count_dots(s) == 0,
    decreases s.len(),
{
    if s.len() > 0 {
        assert(forall|i: int| 0 <= i < s.len() - 1 ==> is_digit_byte(
            #[trigger] s.drop_last()[i],
        ));
        lemma_count_dots_none(s.drop_last());
    }
}

/// A run with no decimal point has none anywhere.
proof fn lemma_count_dots_zero(s: Seq<u8>)
    requires
        count_dots(s) == 0,
    ensures
        forall|i: int| 0 <= i < s.len() ==> s[i] != 46,
    decreases s.len(),
{
    if s.len() > 0 {
        lemma_count_dots_zero(s.drop_last());
        assert forall|i: int| 0 <= i < s.len() implies s[i] != 46 by {
            if i < s.len() - 1 {
                assert(s.drop_last()[i] == s[i]);
                assert(s.drop_last()[i] != 46);
            }
        }
    }
}

/// The value of a digit run is never negative.
proof fn lemma_digits_value_nonneg(s: Seq<u8>)
    requires
        forall|i: int| 0 <= i < s.len() ==> is_digit_byte(s[i]),
    ensures
        digits_value(s) >= 0,
    decreases s.len(),
{
    if s.len() > 0 {
        assert(forall|i: int| 0 <= i < s.len() - 1 ==> is_digit_byte(
            #[trigger] s.drop_last()[i],
        ));
        lemma_digits_value_nonneg(s.drop_last());
    }
}

/// The value of a digit run only grows as digits are appended.
proof fn lemma_digits_value_mono(s: Seq<u8>, i: nat, j: nat)
    requires
        i <= j <= s.len(),
        forall|k: int| 0 <= k < s.len() ==> is_digit_byte(s[k]),
    ensures
        digits_value(s.take(i as int)) <= digits_value(s.take(j as int)),
    decreases j - i,
{
    if i < j {
        lemma_digits_value_mono(s, i, (j - 1) as nat);
        let p = s.take(j as int);
        assert(p.drop_last() =~= s.take(j - 1));
        assert(forall|k: int| 0 <= k < j - 1 ==> is_digit_byte(#[trigger] p.drop_last()[k]));
        lemma_digits_value_nonneg(p.drop_last());
        assert(digits_value(p) == digits_value(p.drop_last()) * 10 + (p.last() - 48));
    }
}

/// One tokenizer step consumes at least one byte unless the input is
/// exhausted, and never more than remain.
pub proof fn lemma_next_step_bounds(s: Seq<u8>)
    ensures
        next_token_spec(s).token is Some ==> 1 <= next_token_spec(s).consumed <= s.len(),
        next_token_spec(s).token is None ==> next_token_spec(s).consumed == s.len(),
{
    lemma_ws_len_le(s);
    let k = ws_len(s);
    let t = s.skip(k as int);
    lemma_num_run_le(t);
    if t.len() == 0 {
    } else {
        if op_token(t[0]) is None && is_num_byte(t[0]) {
            assert(num_run_len(t) >= 1);
        }
    }
}

/// The whole token sequence and error log of an input: what iterating
/// the tokenizer to exhaustion produces.
pub open spec fn tokenize_all(s: Seq<u8>) -> (Seq<Token>, Seq<Error>)
    decreases s.len(),
{
    let st = next_token_spec(s);
    match st.token {
        None => (Seq::empty(), Seq::empty()),
        Some(t) => {
            proof {
                lemma_next_step_bounds(s);
            }
            let rest = tokenize_all(s.skip(st.consumed as int));
            (seq![t] + rest.0, st.log + rest.1)
        },
    }
}

/// A numeric run that has a digit but more than one decimal point does
/// not stop the tokenizer: the whole run is consumed, a float-parse
/// error is logged, and the run's first character comes back as an
/// unrecognized token.
pub proof fn lemma_malformed_float_recovery(s: Seq<u8>)
    requires
        s.len() > 0,
        is_num_byte(s[0]),
        has_digit(s.take(num_run_len(s) as int)),
        count_dots(s.take(num_run_len(s) as int)) > 1,
    ensures
        next_token_spec(s).token == Some(Token::Unrecognized(s[0] as char)),
        next_token_spec(s).consumed == num_run_len(s),
        next_token_spec(s).log == seq![Error::SyntaxError(SyntaxError::ParseFloat)],
{
    assert(!is_ws_byte(s[0]));
    assert(s.skip(0) =~= s);
}

/// Prepending whitespace lengthens the whitespace prefix by exactly the
/// prepended length.
proof fn lemma_ws_len_concat(w: Seq<u8>, s: Seq<u8>)
    requires
        forall|i: int| 0 <= i < w.len() ==> is_ws_byte(w[i]),
    ensures
        ws_len(w + s) == w.len() + ws_len(s),
    decreases w.len(),
{
    if w.len() == 0 {
        assert(w + s =~= s);
    } else {
        assert((w + s)[0] == w[0]);
        assert((w + s).skip(1) =~= w.skip(1) + s);
        assert(forall|i: int| 0 <= i < w.skip(1).len() ==> is_ws_byte(w.skip(1)[i]));
        lemma_ws_len_concat(w.skip(1), s);
    }
}

/// Tokenization is insensitive to leading whitespace: any all-whitespace
/// prefix leaves both the token sequence and the error log unchanged.
pub proof fn lemma_leading_whitespace(w: Seq<u8>, s: Seq<u8>)
    requires
        forall|i: int| 0 <= i < w.len() ==> is_ws_byte(w[i]),
    ensures
        tokenize_all(w + s) == tokenize_all(s),
{
    lemma_ws_len_concat(w, s);
    lemma_ws_len_le(s);
    lemma_next_step_bounds(s);
    let k = ws_len(s);
    let st = next_token_spec(s);
    let st2 = next_token_spec(w + s);
    assert((w + s).skip(ws_len(w + s) as int) =~= s.skip(k as int));
    match st.token {
        None => {
            assert(st2.token is None);
        },
        Some(t) => {
            assert(st2.token == st.token);
            assert(st2.log == st.log);
            assert(st2.consumed == w.len() + st.consumed);
            assert((w + s).skip(st2.consumed as int) =~= s.skip(st.consumed as int));
            assert(tokenize_all(w + s).0 =~= tokenize_all(s).0);
            assert(tokenize_all(w + s).1 =~= tokenize_all(s).1);
        },
    }
}

/// The block size of the buffered reader.
pub const BLOCK_SIZE: usize = 512;

/// A block-buffered byte source: serves one byte at a time out of an
/// internal block, refilling the block from the backing store on demand
/// so that memory use stays bounded by the block size.
pub struct Buffer {
    pub stream: Vec<u8>,
    pub cursor: usize,
    pub inner: Vec<u8>,
    pub position: usize,
}

impl Buffer {
    /// A buffer is well formed when its cursor lies within the backing
    /// store and its position lies within the block (position zero means
    /// the block is spent and must be refilled).
    pub open spec fn wf(&self) -> bool {
        self.cursor <= self.stream@.len() && (self.position == 0 || self.position
            < self.inner@.len())
    }

    /// The bytes this buffer has not yet served: the unserved tail of the
    /// current block, then the unread tail of the backing store.
    pub open spec fn remaining(&self) -> Seq<u8> {
        if self.position == 0 {
            self.stream@.skip(self.cursor as int)
        } else {
            self.inner@.skip(self.position as int) + self.stream@.skip(self.cursor as int)
        }
    }

    /// Wraps a byte store for block-buffered reading.
    pub fn new(stream: Vec<u8>) -> (r: Buffer)
        ensures
            r.wf(),
            r.remaining() == stream@,
    {
        Buffer { stream, cursor: 0, inner: Vec::new(), position: 0 }
    }

    /// Reads the next block from the backing store into the internal
    /// block, returning how many bytes were read: a full block until the
    /// store is nearly exhausted, then the short tail, then zero.
    pub fn read_block(&mut self) -> (r: usize)
        requires
            old(self).wf(),
        ensures
            final(self).stream == old(self).stream,
            final(self).position == old(self).position,
            r as int == if old(self).stream@.len() - old(self).cursor < BLOCK_SIZE {
                old(self).stream@.len() - old(self).cursor
            } else {
                BLOCK_SIZE as int
            },
            final(self).cursor == old(self).cursor + r,
            final(self).inner@ == old(self).stream@.subrange(
                old(self).cursor as int,
                old(self).cursor + r,
            ),
    {
        let avail = self.stream.len() - self.cursor;
        let n = if avail < BLOCK_SIZE {
            avail
        } else {
            BLOCK_SIZE
        };
        let mut block: Vec<u8> = Vec::new();
        let mut k: usize = 0;
        while k < n
            invariant
                self == old(self),
                old(self).wf(),
                n <= self.stream@.len() - self.cursor,
                self.stream@.len() <= usize::MAX,
                k <= n,
                block@ == self.stream@.subrange(self.cursor as int, self.cursor + k),
            decreases n - k,
        {
            block.push(self.stream[self.cursor + k]);
            k = k + 1;
            proof {
                assert(block@ =~= self.stream@.subrange(self.cursor as int, self.cursor + k));
            }
        }
        self.inner = block;
        self.cursor = self.cursor + n;
        n
    }

    /// Serves the next byte, refilling the block first when it is spent;
    /// `None` exactly when the source is exhausted.
    fn next(&mut self) -> (r: Option<u8>)
        requires
            old(self).wf(),
        ensures
            final(self).wf(),
            old(self).remaining().len() == 0 ==> r == None::<u8> && final(self).remaining()
                == Seq::<u8>::empty(),
            old(self).remaining().len() > 0 ==> r == Some(old(self).remaining()[0])
                && final(self).remaining() == old(self).remaining().skip(1),
    {
        if self.position == 0 {
            let n = self.read_block();
            if n == 0 {
                proof {
                    assert(self.remaining() =~= Seq::<u8>::empty());
                }
                return None;
            }
        }
        let b = self.inner[self.position];
        if self.position == self.inner.len() - 1 {
            self.position = 0;
        } else {
            self.position = self.position + 1;
        }
        proof {
            if old(self).position == 0 {
                assert(old(self).remaining() =~= self.inner@ + self.stream@.skip(
                    self.cursor as int,
                ));
            }
            assert(final(self).remaining() =~= old(self).remaining().skip(1));
        }
        Some(b)
    }
}

/// Reads the input and turns it into tokens, recording recoverable
/// literal errors in an internal log. Tokens the parser hands back (what
/// followed one parsed expression) are queued and served again before
/// any further byte is lexed.
pub struct Lexer {
    buf: Buffer,
    peeked: Option<u8>,
    pending: Vec<Token>,
    errors: Vec<Error>,
}

impl Lexer {
    /// A lexer is well formed when its buffer is.
    pub closed spec fn wf(&self) -> bool {
        self.buf.wf()
    }

    /// The bytes not yet consumed, the peeked byte first.
    pub closed spec fn remaining(&self) -> Seq<u8> {
        match self.peeked {
            Some(b) => seq![b] + self.buf.remaining(),
            None => self.buf.remaining(),
        }
    }

    /// The error log as a sequence.
    pub closed spec fn errors_view(&self) -> Seq<Error> {
        self.errors@
    }

    /// Tokens handed back to the lexer (by the parser, after reading one
    /// expression); they are served again before any byte is lexed.
    pub closed spec fn pending_view(&self) -> Seq<Token> {
        self.pending@
    }

    /// Every token this lexer has yet to serve: the handed-back tokens
    /// first, then what tokenizing the remaining bytes yields.
    pub open spec fn remaining_tokens(&self) -> Seq<Token> {
        self.pending_view() + tokenize_all(self.remaining()).0
    }

    /// Starts a lexer over the given input bytes.
    pub fn new(input: Vec<u8>) -> (r: Lexer)
        ensures
            r.wf(),
            r.remaining() == input@,
            r.pending_view() == Seq::<Token>::empty(),
            r.errors_view() == Seq::<Error>::empty(),
    {
        Lexer { buf: Buffer::new(input), peeked: None, pending: Vec::new(), errors: Vec::new() }
    }

    /// The literal-parsing errors recorded so far.
    pub fn errors(&self) -> (r: &Vec<Error>)
        ensures
            r@ == self.errors_view(),
    {
        &self.errors
    }

    /// Pops the next byte.
    fn next_byte(&mut self) -> (r: Option<u8>)
        requires
            old(self).wf(),
        ensures
            final(self).wf(),
            final(self).errors_view() == old(self).errors_view(),
            final(self).pending_view() == old(self).pending_view(),
            old(self).remaining().len() == 0 ==> r == None::<u8> && final(self).remaining()
                == Seq::<u8>::empty(),
            old(self).remaining().len() > 0 ==> r == Some(old(self).remaining()[0])
                && final(self).remaining() == old(self).remaining().skip(1),
    {
        match self.peeked {
            Some(b) => {
                self.peeked = None;
                proof {
                    assert(old(self).remaining().skip(1) =~= self.buf.remaining());
                }
                Some(b)
            },
            None => self.buf.next(),
        }
    }

    /// Looks at the next byte without consuming it.
    fn peek_byte(&mut self) -> (r: Option<u8>)
        requires
            old(self).wf(),
        ensures
            final(self).wf(),
            final(self).errors_view() == old(self).errors_view(),
            final(self).pending_view() == old(self).pending_view(),
            final(self).remaining() == old(self).remaining(),
            old(self).remaining().len() == 0 ==> r == None::<u8>,
            old(self).remaining().len() > 0 ==> r == Some(old(self).remaining()[0]),
    {
        match self.peeked {
            Some(b) => Some(b),
            None => {
                let b = self.buf.next();
                self.peeked = b;
                proof {
                    if old(self).remaining().len() > 0 {
                        assert(final(self).remaining() =~= old(self).remaining());
                    }
                }
                b
            },
        }
    }

    /// Whether a byte may continue a numeric literal: a digit or a
    /// decimal point.
    fn is_digit(b: u8) -> (r: bool)
        ensures
            r == is_num_byte(b),
    {
        (48 <= b && b <= 57) || b == 46
    }

    /// Munches the maximal run of digits and decimal points beginning
    /// with `first` (a byte the caller has already consumed) and reads it
    /// as a literal; a run with digits that denotes no literal is logged
    /// and yields `None`.
    fn read_number_literal(&mut self, first: u8) -> (r: Option<Literal>)
        requires
            old(self).wf(),
        ensures
            final(self).wf(),
            !is_num_byte(first) ==> r == None::<Literal> && *final(self) == *old(self),
            final(self).pending_view() == old(self).pending_view(),
            is_num_byte(first) ==> ({
                let t = seq![first] + old(self).remaining();
                let run = t.take(num_run_len(t) as int);
                r == run_literal(run)
                && final(self).remaining() == t.skip(num_run_len(t) as int)
                && final(self).errors_view() == old(self).errors_view() + run_log(run)
            }),
    {
        if !Self::is_digit(first) {
            return None;
        }
        let ghost t = seq![first] + old(self).remaining();
        let ghost e0 = old(self).errors_view();
        let mut lit: Vec<u8> = Vec::new();
        lit.push(first);
        proof {
            assert(lit@ =~= t.take(1));
            assert(self.remaining() =~= t.skip(1));
        }
        let mut done = false;
        while !done
            invariant
                t == seq![first] + old(self).remaining(),
                e0 == old(self).errors_view(),
                self.pending_view() == old(self).pending_view(),
                self.wf(),
                1 <= lit@.len() <= t.len(),
                lit@ == t.take(lit@.len() as int),
                forall|i: int| 0 <= i < lit@.len() ==> is_num_byte(t[i]),
                self.remaining() == t.skip(lit@.len() as int),
                self.errors_view() == e0,
                done ==> lit@.len() == num_run_len(t),
            decreases t.len() - lit@.len() + (if done { 0int } else { 1int }),
        {
            let p = self.peek_byte();
            match p {
                Some(d) => {
                    if Self::is_digit(d) {
                        let _ = self.next_byte();
                        lit.push(d);
                        proof {
                            assert(t[lit@.len() - 1] == d);
                            assert(lit@ =~= t.take(lit@.len() as int));
                            assert(self.remaining() =~= t.skip(lit@.len() as int));
                        }
                    } else {
                        proof {
                            assert(t[lit@.len() as int] == d);
                            lemma_num_run_eq(t, lit@.len());
                        }
                        done = true;
                    }
                },
                None => {
                    proof {
                        assert(t.skip(lit@.len() as int).len() == 0);
                        lemma_num_run_eq(t, lit@.len());
                    }
                    done = true;
                },
            }
        }
        let ghost run = t.take(num_run_len(t) as int);
        let mut dots: usize = 0;
        let mut digit_seen: bool = false;
        let mut k: usize = 0;
        while k < lit.len()
            invariant
                t == seq![first] + old(self).remaining(),
                e0 == old(self).errors_view(),
                self.pending_view() == old(self).pending_view(),
                self.wf(),
                lit@ == run,
                run == t.take(num_run_len(t) as int),
                self.remaining() == t.skip(num_run_len(t) as int),
                self.errors_view() == e0,
                k <= lit@.len(),
                dots <= k,
                dots as int == count_dots(lit@.take(k as int)),
                digit_seen == has_digit(lit@.take(k as int)),
            decreases lit@.len() - k,
        {
            let b = lit[k];
            proof {
                assert(lit@.take(k + 1).drop_last() =~= lit@.take(k as int));
                assert(lit@.take(k + 1).last() == lit@[k as int]);
            }
            if b == 46 {
                dots = dots + 1;
            } else if 48 <= b && b <= 57 {
                digit_seen = true;
            }
            k = k + 1;
        }
        proof {
            assert(lit@.take(lit@.len() as int) =~= lit@);
        }
        if !digit_seen {
            proof {
                assert(self.errors_view() =~= e0 + run_log(run));
            }
            return None;
        }
        if dots > 1 {
            self.errors.push(Error::SyntaxError(SyntaxError::ParseFloat));
            proof {
                assert(self.errors_view() =~= e0 + run_log(run));
            }
            return None;
        }
        if dots == 1 {
            match parse_bits(&lit) {
                Some(bits) => {
                    proof {
                        assert(self.errors_view() =~= e0 + run_log(run));
                    }
                    return Some(Literal::Float(Float::new(bits)));
                },
                None => {
                    self.errors.push(Error::SyntaxError(SyntaxError::ParseFloat));
                    proof {
                        assert(self.errors_view() =~= e0 + run_log(run));
                    }
                    return None;
                },
            }
        }
        proof {
            lemma_count_dots_zero(run);
            assert(run =~= t.take(run.len() as int));
            assert forall|i: int| 0 <= i < run.len() implies is_digit_byte(run[i]) by {
                assert(run[i] == t[i]);
                assert(is_num_byte(t[i]));
                assert(run[i] != 46);
            }
        }
        let mut acc: i64 = 0;
        let mut j: usize = 0;
        while j < lit.len()
            invariant
                t == seq![first] + old(self).remaining(),
                e0 == old(self).errors_view(),
                self.pending_view() == old(self).pending_view(),
                self.wf(),
                lit@ == run,
                run == t.take(num_run_len(t) as int),
                self.remaining() == t.skip(num_run_len(t) as int),
                self.errors_view() == e0,
                forall|i: int| 0 <= i < run.len() ==> is_digit_byte(run[i]),
                count_dots(run) == 0,
                has_digit(run),
                j <= run.len(),
                0 <= acc,
                acc as int == digits_value(run.take(j as int)),
            decreases run.len() - j,
        {
            let b = lit[j];
            let d = b - 48;
            proof {
                assert(run.take(j + 1).drop_last() =~= run.take(j as int));
                assert(run.take(j + 1).last() == run[j as int]);
            }
            let stepped = match acc.checked_mul(10) {
                Some(m) => m.checked_add(d as i64),
                None => None,
            };
            match stepped {
                Some(a2) => {
                    acc = a2;
                    j = j + 1;
                },
                None => {
                    proof {
                        assert(digits_value(run.take(j + 1)) > i64::MAX);
                        lemma_digits_value_mono(run, (j + 1) as nat, run.len());
                        assert(run.take(run.len() as int) =~= run);
                    }
                    self.errors.push(Error::SyntaxError(SyntaxError::ParseInt));
                    proof {
                        assert(self.errors_view() =~= e0 + run_log(run));
                    }
                    return None;
                },
            }
        }
        proof {
            assert(run.take(run.len() as int) =~= run);
            assert(self.errors_view() =~= e0 + run_log(run));
        }
        Some(Literal::Int(Int::new(acc)))
    }

    /// Produces the next token: a token the parser handed back, if any
    /// is waiting, else the next token lexed from the bytes (skipping
    /// whitespace); `None` exactly when only whitespace remains (which it
    /// consumes).
    pub fn next(&mut self) -> (r: Option<Token>)
        requires
            old(self).wf(),
        ensures
            final(self).wf(),
            old(self).pending_view().len() > 0 ==> r == Some(old(self).pending_view()[0])
                && final(self).pending_view() == old(self).pending_view().skip(1)
                && final(self).remaining() == old(self).remaining()
                && final(self).errors_view() == old(self).errors_view(),
            old(self).pending_view().len() == 0 ==> final(self).pending_view() == Seq::<
                Token,
            >::empty() && ({
                let st = next_token_spec(old(self).remaining());
                r == st.token
                && final(self).remaining() == old(self).remaining().skip(st.consumed as int)
                && final(self).errors_view() == old(self).errors_view() + st.log
            }),
    {
        if self.pending.len() > 0 {
            let t = self.pending.remove(0);
            proof {
                assert(self.pending@ =~= old(self).pending_view().skip(1));
            }
            return Some(t);
        }
        let ghost s0 = old(self).remaining();
        let ghost e0 = old(self).errors_view();
        let ghost mut j: int = 0;
        loop
            invariant
                s0 == old(self).remaining(),
                e0 == old(self).errors_view(),
                self.wf(),
                old(self).pending_view().len() == 0,
                self.pending_view() == Seq::<Token>::empty(),
                0 <= j <= s0.len(),
                self.remaining() == s0.skip(j),
                forall|i: int| 0 <= i < j ==> is_ws_byte(s0[i]),
                self.errors_view() == e0,
            decreases s0.len() - j,
        {
            let b_opt = self.next_byte();
            match b_opt {
                None => {
                    proof {
                        assert(j == s0.len());
                        lemma_ws_len_eq(s0, j as nat);
                        assert(self.remaining() =~= s0.skip(ws_len(s0) as int));
                        assert(e0 + Seq::<Error>::empty() =~= e0);
                    }
                    return None;
                },
                Some(b) => {
                    proof {
                        assert(b == s0[j]);
                        assert(s0.skip(j).skip(1) =~= s0.skip(j + 1));
                    }
                    if b == 43 || b == 45 || b == 42 || b == 47 || b == 94 || b == 40 || b == 41 {
                        proof {
                            lemma_ws_len_eq(s0, j as nat);
                            assert(e0 + Seq::<Error>::empty() =~= e0);
                        }
                        let tok = if b == 43 {
                            Token::Plus
                        } else if b == 45 {
                            Token::Dash
                        } else if b == 42 {
                            Token::Star
                        } else if b == 47 {
                            Token::ForwardSlash
                        } else if b == 94 {
                            Token::Hat
                        } else if b == 40 {
                            Token::LeftParenthesis
                        } else {
                            Token::RightParenthesis
                        };
                        return Some(tok);
                    } else if b == 32 || b == 9 || b == 10 || b == 12 || b == 13 {
                        proof {
                            j = j + 1;
                        }
                    } else {
                        proof {
                            lemma_ws_len_eq(s0, j as nat);
                        }
                        let lit_opt = self.read_number_literal(b);
                        proof {
                            assert(seq![b] + s0.skip(j + 1) =~= s0.skip(j));
                            if is_num_byte(b) {
                                let t = s0.skip(j);
                                lemma_num_run_le(t);
                                assert(t.skip(num_run_len(t) as int) =~= s0.skip(
                                    j + num_run_len(t),
                                ));
                            } else {
                                assert(e0 + Seq::<Error>::empty() =~= e0);
                            }
                        }
                        match lit_opt {
                            Some(l) => {
                                return Some(Token::Literal(l));
                            },
                            None => {
                                return Some(Token::Unrecognized(b as char));
                            },
                        }
                    }
                },
            }
        }
    }

    /// Takes every token this lexer still has to serve: the handed-back
    /// tokens first, then everything the remaining bytes tokenize to,
    /// logging literal errors as tokenization always does. Afterwards the
    /// lexer is exhausted.
    pub(crate) fn drain_tokens(&mut self) -> (r: Vec<Token>)
        requires
            old(self).wf(),
        ensures
            final(self).wf(),
            r@ == old(self).remaining_tokens(),
            final(self).pending_view() == Seq::<Token>::empty(),
            final(self).remaining().len() == 0,
            final(self).errors_view() == old(self).errors_view() + tokenize_all(
                old(self).remaining(),
            ).1,
    {
        let mut tokens: Vec<Token> = Vec::new();
        while self.pending.len() > 0
            invariant
                self.wf(),
                tokens@ + self.pending@ == old(self).pending_view(),
                self.remaining() == old(self).remaining(),
                self.errors_view() == old(self).errors_view(),
            decreases self.pending@.len(),
        {
            let t = self.pending.remove(0);
            tokens.push(t);
            proof {
                assert(tokens@ + self.pending@ =~= old(self).pending_view());
            }
        }
        let ghost sb = self.remaining();
        let ghost eb = self.errors_view();
        let ghost p0 = tokens@;
        let mut done = false;
        while !done
            invariant
                sb == old(self).remaining(),
                eb == old(self).errors_view(),
                p0 + tokenize_all(sb).0 == tokens@ + tokenize_all(self.remaining()).0,
                eb + tokenize_all(sb).1 == self.errors_view() + tokenize_all(
                    self.remaining(),
                ).1,
                p0 == old(self).pending_view() + Seq::<Token>::empty(),
                self.wf(),
                self.pending_view() == Seq::<Token>::empty(),
                done ==> self.remaining().len() == 0,
            decreases self.remaining().len() + (if done { 0int } else { 1int }),
        {
            let ghost rem = self.remaining();
            proof {
                lemma_next_step_bounds(rem);
            }
            match self.next() {
                Some(t) => {
                    tokens.push(t);
                    proof {
                        let st = next_token_spec(rem);
                        let rest = tokenize_all(rem.skip(st.consumed as int));
                        assert(tokenize_all(rem).0 =~= seq![t] + rest.0);
                        assert(tokenize_all(rem).1 =~= st.log + rest.1);
                        assert(p0 + tokenize_all(sb).0 =~= tokens@ + rest.0);
                        assert(eb + tokenize_all(sb).1 =~= self.errors_view() + rest.1);
                    }
                },
                None => {
                    proof {
                        assert(tokenize_all(rem).0 =~= Seq::<Token>::empty());
                        assert(tokens@ + tokenize_all(self.remaining()).0 =~= tokens@);
                    }
                    done = true;
                },
            }
        }
        proof {
            assert(tokenize_all(self.remaining()).0 =~= Seq::<Token>::empty());
            assert(tokenize_all(self.remaining()).1 =~= Seq::<Error>::empty());
            assert(tokens@ + tokenize_all(self.remaining()).0 =~= tokens@);
            assert(tokens@ =~= old(self).remaining_tokens());
            assert(self.errors_view() =~= old(self).errors_view() + tokenize_all(sb).1);
        }
        tokens
    }

    /// Hands tokens back to an exhausted lexer; they will be served again,
    /// in order, before anything else. The parser uses this to leave what
    /// follows one parsed expression available to the caller.
    pub(crate) fn restore_tokens(&mut self, tokens: Vec<Token>)
        requires
            old(self).wf(),
            old(self).pending_view().len() == 0,
            old(self).remaining().len() == 0,
        ensures
            final(self).wf(),
            final(self).remaining_tokens() == tokens@,
            final(self).remaining().len() == 0,
            final(self).errors_view() == old(self).errors_view(),
    {
        let ghost expected = tokens@;
        self.pending = tokens;
        proof {
            assert(next_token_spec(self.remaining()).token is None);
            assert(tokenize_all(self.remaining()).0 =~= Seq::<Token>::empty());
            assert(self.remaining_tokens() =~= expected);
        }
    }
}

} // verus!
