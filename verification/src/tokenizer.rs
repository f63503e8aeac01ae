//! Tokenizer: turns the raw input text into an ordered sequence of typed
//! tokens, and the token cursor the grammar rules operate on.
//!
//! Classification is maximal-munch with a fixed alternative priority:
//! whitespace run, newline, comment, fixed symbols, single-character
//! fallback. Because of the fallback the tokenizer is total: every input is
//! covered exactly, and concatenating the token texts in order reproduces
//! the input (lossless lexing, `lemma_tokenize_lossless`).

use vstd::prelude::*;

verus! {

/// The kind of a token, one variant per classification rule.
#[derive(Clone, Copy, PartialEq, Eq, Debug, Structural)]
pub enum TokenType {
    NewLine,
    WhiteSpace,
    Comment,
    AngleStart,
    AngleEnd,
    At,
    Equal,
    Semicolon,
    Dash,
    Char,
}

/// One token: its kind and the exact slice of input text it covers.
#[derive(Clone, Debug, PartialEq)]
pub struct Token {
    pub ty: TokenType,
    pub text: String,
}

/// Mathematical model of a token: kind plus the character sequence.
pub ghost struct TokenV {
    pub ty: TokenType,
    pub text: Seq<char>,
}

impl View for Token {
    type V = TokenV;

    open spec fn view(&self) -> TokenV {
        TokenV { ty: self.ty, text: self.text@ }
    }
}

impl Token {
    pub fn new(ty: TokenType, content: String) -> (r: Self)
        ensures
            r@ == (TokenV { ty: ty, text: content@ }),
    {
        Self { ty, text: content }
    }
}

/// The model of a token sequence.
pub open spec fn toks_view(ts: Seq<Token>) -> Seq<TokenV> {
    ts.map_values(|t: Token| t@)
}

/// Characters forming a WhiteSpace run.
pub open spec fn is_space_char(c: char) -> bool {
    c == ' ' || c == '\t'
}

/// Characters that end a Comment token (the comment excludes them).
pub open spec fn is_line_char(c: char) -> bool {
    c == '\n' || c == '\r'
}

/// Length of the maximal leading run of whitespace characters.
pub open spec fn space_run(s: Seq<char>) -> nat
    decreases s.len(),
{
    if s.len() == 0 || !is_space_char(s[0]) {
        0
    } else {
        (1 + space_run(s.skip(1))) as nat
    }
}

/// Length of the maximal leading run of non-newline characters.
pub open spec fn comment_run(s: Seq<char>) -> nat
    decreases s.len(),
{
    if s.len() == 0 || is_line_char(s[0]) {
        0
    } else {
        (1 + comment_run(s.skip(1))) as nat
    }
}

/// How many characters the first token of `s` covers, by the fixed
/// alternative priority: whitespace, newline, comment, symbols, fallback.
pub open spec fn head_token_len(s: Seq<char>) -> nat {
    if s.len() == 0 {
        0
    } else if is_space_char(s[0]) {
        space_run(s)
    } else if s.len() >= 2 && ((s[0] == '\n' && s[1] == '\r') || (s[0] == '\r' && s[1] == '\n')) {
        2
    } else if s[0] == '\n' {
        1
    } else if s[0] == '#' {
        1 + comment_run(s.skip(1))
    } else if s.len() >= 2 && s[0] == '<' && s[1] == '<' {
        2
    } else if s.len() >= 2 && s[0] == '>' && s[1] == '>' {
        2
    } else if s.len() >= 3 && s[0] == '-' && s[1] == '-' && s[2] == '-' {
        3
    } else {
        1
    }
}

/// The kind of the first token of `s`, by the same priority.
pub open spec fn head_token_ty(s: Seq<char>) -> TokenType {
    if s.len() == 0 {
        TokenType::Char
    } else if is_space_char(s[0]) {
        TokenType::WhiteSpace
    } else if s.len() >= 2 && ((s[0] == '\n' && s[1] == '\r') || (s[0] == '\r' && s[1] == '\n')) {
        TokenType::NewLine
    } else if s[0] == '\n' {
        TokenType::NewLine
    } else if s[0] == '#' {
        TokenType::Comment
    } else if s.len() >= 2 && s[0] == '<' && s[1] == '<' {
        TokenType::AngleStart
    } else if s.len() >= 2 && s[0] == '>' && s[1] == '>' {
        TokenType::AngleEnd
    } else if s[0] == '@' {
        TokenType::At
    } else if s[0] == '=' {
        TokenType::Equal
    } else if s[0] == ';' {
        TokenType::Semicolon
    } else if s.len() >= 3 && s[0] == '-' && s[1] == '-' && s[2] == '-' {
        TokenType::Dash
    } else {
        TokenType::Char
    }
}

proof fn lemma_space_run_le(s: Seq<char>)
    ensures
        space_run(s) <= s.len(),
    decreases s.len(),
{
    if s.len() > 0 && is_space_char(s[0]) {
        lemma_space_run_le(s.skip(1));
    }
}

proof fn lemma_comment_run_le(s: Seq<char>)
    ensures
        comment_run(s) <= s.len(),
    decreases s.len(),
{
    if s.len() > 0 && !is_line_char(s[0]) {
        lemma_comment_run_le(s.skip(1));
    }
}

/// The first token of a non-empty input covers at least one character and
/// no more than the whole input.
pub proof fn lemma_head_token_len(s: Seq<char>)
    requires
        s.len() > 0,
    ensures
        1 <= head_token_len(s) <= s.len(),
{
    lemma_space_run_le(s);
    lemma_comment_run_le(s.skip(1));
}

/// The full tokenization of `s`: the first token's text is the covered
/// prefix, and the rest is the tokenization of the remainder.
pub open spec fn spec_tokenize(s: Seq<char>) -> Seq<TokenV>
    decreases s.len(),
    via spec_tokenize_dec
{
    if s.len() == 0 {
        Seq::empty()
    } else {
        seq![TokenV { ty: head_token_ty(s), text: s.take(head_token_len(s) as int) }]
            + spec_tokenize(s.skip(head_token_len(s) as int))
    }
}

#[via_fn]
proof fn spec_tokenize_dec(s: Seq<char>) {
    if s.len() > 0 {
        lemma_head_token_len(s);
    }
}

/// Concatenation of the texts of a token sequence, in order.
pub open spec fn tokens_text(ts: Seq<TokenV>) -> Seq<char>
    decreases ts.len(),
{
    if ts.len() == 0 {
        Seq::empty()
    } else {
        ts[0].text + tokens_text(ts.skip(1))
    }
}

/// Concatenated text distributes over appending one token at the end.
pub proof fn lemma_tokens_text_push(ts: Seq<TokenV>, t: TokenV)
    ensures
        tokens_text(ts.push(t)) == tokens_text(ts) + t.text,
    decreases ts.len(),
{
    if ts.len() == 0 {
        assert(ts.push(t).skip(1) =~= Seq::<TokenV>::empty());
        assert(ts.push(t)[0] == t);
        assert(tokens_text(Seq::<TokenV>::empty()) == Seq::<char>::empty());
        assert(tokens_text(ts.push(t)) == t.text + Seq::<char>::empty());
        assert(t.text + Seq::<char>::empty() =~= Seq::<char>::empty() + t.text);
        assert(tokens_text(ts.push(t)) =~= tokens_text(ts) + t.text);
    } else {
        assert(ts.push(t).skip(1) =~= ts.skip(1).push(t));
        lemma_tokens_text_push(ts.skip(1), t);
        assert(ts.push(t)[0] == ts[0]);
        assert(tokens_text(ts.push(t)) == ts[0].text + tokens_text(ts.skip(1).push(t)));
        assert(ts[0].text + (tokens_text(ts.skip(1)) + t.text) =~= (ts[0].text + tokens_text(
            ts.skip(1),
        )) + t.text);
        assert(tokens_text(ts.push(t)) =~= tokens_text(ts) + t.text);
    }
}

/// Lossless lexing: concatenating the texts of all tokens produced from an
/// input reproduces that input exactly.
pub proof fn lemma_tokenize_lossless(s: Seq<char>)
    ensures
        tokens_text(spec_tokenize(s)) == s,
    decreases s.len(),
{
    if s.len() == 0 {
        assert(tokens_text(spec_tokenize(s)) =~= s);
    } else {
        lemma_head_token_len(s);
        let k = head_token_len(s) as int;
        lemma_tokenize_lossless(s.skip(k));
        let ts = spec_tokenize(s);
        assert(ts.skip(1) =~= spec_tokenize(s.skip(k)));
        assert(tokens_text(ts) =~= s.take(k) + s.skip(k));
        assert(s.take(k) + s.skip(k) =~= s);
    }
}

fn space_run_end(input: &str, j: usize, n: usize) -> (r: usize)
    requires
        n == input@.len(),
        j <= n,
    ensures
        r as nat == j + space_run(input@.skip(j as int)),
        j <= r <= n,
    decreases n - j,
{
    proof {
        lemma_space_run_le(input@.skip(j as int));
    }
    if j < n {
        let c = input.get_char(j);
        if c == ' ' || c == '\t' {
            let r = space_run_end(input, j + 1, n);
            proof {
                assert(input@.skip(j as int).skip(1) =~= input@.skip(j + 1 as int));
            }
            r
        } else {
            j
        }
    } else {
        j
    }
}

fn comment_run_end(input: &str, j: usize, n: usize) -> (r: usize)
    requires
        n == input@.len(),
        j <= n,
    ensures
        r as nat == j + comment_run(input@.skip(j as int)),
        j <= r <= n,
    decreases n - j,
{
    proof {
        lemma_comment_run_le(input@.skip(j as int));
    }
    if j < n {
        let c = input.get_char(j);
        if !(c == '\n' || c == '\r') {
            let r = comment_run_end(input, j + 1, n);
            proof {
                assert(input@.skip(j as int).skip(1) =~= input@.skip(j + 1 as int));
            }
            r
        } else {
            j
        }
    } else {
        j
    }
}

/// Classify the token starting at character position `i`.
fn head_token_at(input: &str, i: usize, n: usize) -> (r: (TokenType, usize))
    requires
        n == input@.len(),
        i < n,
    ensures
        r.0 == head_token_ty(input@.skip(i as int)),
        r.1 as nat == head_token_len(input@.skip(i as int)),
        1 <= r.1,
        i + r.1 <= n,
{
    let ghost rem = input@.skip(i as int);
    proof {
        lemma_head_token_len(rem);
    }
    let c0 = input.get_char(i);
    assert(c0 == rem[0]);
    if c0 == ' ' || c0 == '\t' {
        let e = space_run_end(input, i, n);
        (TokenType::WhiteSpace, e - i)
    } else if c0 == '\n' || c0 == '\r' {
        if i + 1 < n {
            let c1 = input.get_char(i + 1);
            assert(c1 == rem[1]);
            if (c0 == '\n' && c1 == '\r') || (c0 == '\r' && c1 == '\n') {
                (TokenType::NewLine, 2)
            } else if c0 == '\n' {
                (TokenType::NewLine, 1)
            } else {
                (TokenType::Char, 1)
            }
        } else if c0 == '\n' {
            (TokenType::NewLine, 1)
        } else {
            (TokenType::Char, 1)
        }
    } else if c0 == '#' {
        let e = comment_run_end(input, i + 1, n);
        proof {
            assert(rem.skip(1) =~= input@.skip(i + 1 as int));
        }
        (TokenType::Comment, e - i)
    } else if c0 == '<' {
        if i + 1 < n && input.get_char(i + 1) == '<' {
            (TokenType::AngleStart, 2)
        } else {
            (TokenType::Char, 1)
        }
    } else if c0 == '>' {
        if i + 1 < n && input.get_char(i + 1) == '>' {
            (TokenType::AngleEnd, 2)
        } else {
            (TokenType::Char, 1)
        }
    } else if c0 == '@' {
        (TokenType::At, 1)
    } else if c0 == '=' {
        (TokenType::Equal, 1)
    } else if c0 == ';' {
        (TokenType::Semicolon, 1)
    } else if c0 == '-' {
        if n - i > 2 && input.get_char(i + 1) == '-' && input.get_char(i + 2) == '-' {
            (TokenType::Dash, 3)
        } else {
            (TokenType::Char, 1)
        }
    } else {
        (TokenType::Char, 1)
    }
}

/// Tokenize the whole input. Total: the fallback rule accepts any character,
/// so every input is covered, exactly and losslessly.
pub fn get_tokens(txt: &str) -> (r: Vec<Token>)
    ensures
        toks_view(r@) == spec_tokenize(txt@),
        tokens_text(toks_view(r@)) == txt@,
{
    let n = txt.unicode_len();
    let mut toks: Vec<Token> = Vec::new();
    let mut i: usize = 0;
    proof {
        assert(txt@.skip(0) =~= txt@);
        assert(toks_view(toks@) + spec_tokenize(txt@) =~= spec_tokenize(txt@));
    }
    while i < n
        invariant
            n == txt@.len(),
            i <= n,
            spec_tokenize(txt@) == toks_view(toks@) + spec_tokenize(txt@.skip(i as int)),
        decreases n - i,
    {
        let (ty, k) = head_token_at(txt, i, n);
        let text = txt.substring_char(i, i + k).to_owned();
        let ghost prev = toks@;
        let ghost rem = txt@.skip(i as int);
        toks.push(Token { ty, text });
        proof {
            assert(rem.take(k as int) =~= txt@.subrange(i as int, i + k as int));
            assert(rem.skip(k as int) =~= txt@.skip(i + k as int));
            assert(toks_view(toks@) =~= toks_view(prev).push(
                TokenV { ty: head_token_ty(rem), text: rem.take(k as int) },
            ));
            assert(toks_view(toks@) + spec_tokenize(txt@.skip(i + k as int)) =~= toks_view(prev)
                + spec_tokenize(rem));
        }
        i = i + k;
    }
    proof {
        assert(txt@.skip(n as int) =~= Seq::<char>::empty());
        assert(toks_view(toks@) + spec_tokenize(txt@.skip(n as int)) =~= toks_view(toks@));
        lemma_tokenize_lossless(txt@);
    }
    toks
}

/// A zero-copy cursor over a token sequence: the underlying storage plus an
/// offset. Slicing is O(1); backtracking is holding an earlier cursor value.
#[derive(Clone, Copy, Debug)]
pub struct TokenList<'a> {
    toks: &'a Vec<Token>,
    pos: usize,
}

impl<'a> TokenList<'a> {
    /// The model of the whole underlying token sequence.
    pub closed spec fn all(self) -> Seq<TokenV> {
        toks_view(self.toks@)
    }

    /// The cursor's offset into the underlying sequence.
    pub closed spec fn pos_int(self) -> int {
        self.pos as int
    }

    /// The cursor is within bounds of its storage.
    pub open spec fn wf(self) -> bool {
        0 <= self.pos_int() <= self.all().len()
    }

    /// The tokens still ahead of the cursor.
    pub open spec fn remaining(self) -> Seq<TokenV> {
        self.all().skip(self.pos_int())
    }

    /// A cursor at the start of `val`.
    pub fn new(val: &'a Vec<Token>) -> (r: Self)
        ensures
            r.all() == toks_view(val@),
            r.pos_int() == 0,
            r.wf(),
    {
        Self { toks: val, pos: 0 }
    }

    /// The underlying storage.
    pub fn internal(&self) -> (r: &'a Vec<Token>)
        ensures
            toks_view(r@) == self.all(),
    {
        self.toks
    }

    /// The cursor's offset.
    pub fn position(&self) -> (r: usize)
        ensures
            r == self.pos_int(),
    {
        self.pos
    }

    /// How many tokens are still ahead.
    pub fn len(&self) -> (r: usize)
        requires
            self.wf(),
        ensures
            r == self.remaining().len(),
    {
        self.toks.len() - self.pos
    }

    /// Whether the cursor is at the end of the input.
    pub fn is_empty(&self) -> (r: bool)
        requires
            self.wf(),
        ensures
            r == (self.remaining().len() == 0),
    {
        self.pos == self.toks.len()
    }

    /// The next token, if any.
    pub fn first(&self) -> (r: Option<&'a Token>)
        requires
            self.wf(),
    ensures
        match r {
            Some(t) => self.remaining().len() > 0 && t@ == self.remaining()[0],
            None => self.remaining().len() == 0,
        },
    {
        if self.pos < self.toks.len() {
            Some(&self.toks[self.pos])
        } else {
            None
        }
    }

    /// The offset, within the remaining tokens, of the first one of kind
    /// `ty`, or `None` if there is none.
    pub fn find_kind(&self, ty: TokenType) -> (r: Option<usize>)
        requires
            self.wf(),
        ensures
            match r {
                Some(i) => self.pos_int() + i < self.all().len() && self.remaining()[i as int].ty
                    == ty && (forall|k: int| 0 <= k < i ==> self.remaining()[k].ty != ty),
                None => forall|k: int|
                    0 <= k < self.remaining().len() ==> self.remaining()[k].ty != ty,
            },
    {
        let n = self.toks.len();
        let mut j: usize = self.pos;
        while j < n
            invariant
                self.wf(),
                self.pos <= j <= n,
                n == self.toks@.len(),
                forall|k: int| self.pos_int() <= k < j ==> self.all()[k].ty != ty,
            decreases n - j,
        {
            if self.toks[j].ty == ty {
                return Some(j - self.pos);
            }
            j = j + 1;
        }
        None
    }

    /// The cursor advanced past `n` tokens (O(1)).
    pub fn advance(&self, n: usize) -> (r: Self)
        requires
            self.wf(),
            self.pos_int() + n <= self.all().len(),
        ensures
            r.all() == self.all(),
            r.pos_int() == self.pos_int() + n,
            r.wf(),
    {
        let total = self.toks.len();
        proof {
            assert(self.all().len() == self.toks@.len());
        }
        Self { toks: self.toks, pos: self.pos + n }
    }
}

} // verus!
