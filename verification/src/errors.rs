//! Error model: structured, position-aware parse errors. A failure inside
//! the grammar carries the cursor position where it happened (`MatchErr`);
//! `ParseError::new` converts that position into a line number, a column and
//! the text of the offending source line, by scanning the token sequence.

use vstd::prelude::*;

use crate::tokenizer::{
    toks_view, tokens_text, lemma_tokens_text_push, Token, TokenList, TokenType, TokenV,
};

verus! {

/// What went wrong, one variant per failure category.
#[derive(Debug, Clone, PartialEq)]
pub enum ParseErrorType {
    /// An internal invariant was violated: an implementer bug marker.
    LogicalError(String),
    /// An unterminated construct; carries the missing closing tag.
    Unclosed(String),
    /// The input ran out in the middle of a construct.
    Incomplete,
    /// A generic syntax error.
    SyntaxError,
    /// A token of the wrong kind was found; carries the kind actually seen.
    TokenMismatch(TokenType),
    /// Pre-rendered text that bypasses position formatting.
    Custom(String),
}

impl Default for ParseErrorType {
    /// The generic category.
    fn default() -> (r: Self)
        ensures
            r@ == ErrTypeV::SyntaxError,
    {
        ParseErrorType::SyntaxError
    }
}

/// Mathematical model of `ParseErrorType`.
pub ghost enum ErrTypeV {
    LogicalError(Seq<char>),
    Unclosed(Seq<char>),
    Incomplete,
    SyntaxError,
    TokenMismatch(TokenType),
    Custom(Seq<char>),
}

impl View for ParseErrorType {
    type V = ErrTypeV;

    open spec fn view(&self) -> ErrTypeV {
        match self {
            ParseErrorType::LogicalError(s) => ErrTypeV::LogicalError(s@),
            ParseErrorType::Unclosed(s) => ErrTypeV::Unclosed(s@),
            ParseErrorType::Incomplete => ErrTypeV::Incomplete,
            ParseErrorType::SyntaxError => ErrTypeV::SyntaxError,
            ParseErrorType::TokenMismatch(t) => ErrTypeV::TokenMismatch(*t),
            ParseErrorType::Custom(s) => ErrTypeV::Custom(s@),
        }
    }
}

/// A grammar-level failure: its category and the cursor offset (into the
/// underlying token sequence) of the residual input at the failure point.
#[derive(Debug, Clone, PartialEq)]
pub struct MatchErr {
    pub ty: ParseErrorType,
    pub pos: usize,
}

/// Mathematical model of `MatchErr`.
pub ghost struct MatchErrV {
    pub ty: ErrTypeV,
    pub pos: int,
}

impl View for MatchErr {
    type V = MatchErrV;

    open spec fn view(&self) -> MatchErrV {
        MatchErrV { ty: self.ty@, pos: self.pos as int }
    }
}

impl MatchErr {
    /// A generic syntax error at the given cursor's position.
    pub fn new(inp: TokenList<'_>) -> (r: Self)
        ensures
            r@ == (MatchErrV { ty: ErrTypeV::SyntaxError, pos: inp.pos_int() }),
    {
        MatchErr { ty: ParseErrorType::SyntaxError, pos: inp.position() }
    }

    /// The same failure re-tagged with another category.
    pub fn ty(self, ty: ParseErrorType) -> (r: Self)
        ensures
            r@ == (MatchErrV { ty: ty@, pos: self@.pos }),
    {
        MatchErr { ty, pos: self.pos }
    }
}

/// Result of one grammar rule: the advanced cursor and the parsed value, or
/// a position-carrying failure.
pub type MatchRes<'a, T> = Result<(TokenList<'a>, T), MatchErr>;

/// A user-facing parse error: category, 1-based line and column, and the
/// text of the source line the failure happened on.
#[derive(Debug, Clone, PartialEq)]
pub struct ParseError {
    pub ty: ParseErrorType,
    pub line: usize,
    pub col: usize,
    pub linestr: String,
}

impl Default for ParseError {
    /// A generic error with empty position information.
    fn default() -> (r: Self)
        ensures
            r@ == (ParseErrorV {
                ty: ErrTypeV::SyntaxError,
                line: 0,
                col: 0,
                linestr: Seq::empty(),
            }),
    {
        ParseError {
            ty: ParseErrorType::SyntaxError,
            line: 0,
            col: 0,
            linestr: String::new(),
        }
    }
}

/// Mathematical model of `ParseError`.
pub ghost struct ParseErrorV {
    pub ty: ErrTypeV,
    pub line: int,
    pub col: int,
    pub linestr: Seq<char>,
}

impl View for ParseError {
    type V = ParseErrorV;

    open spec fn view(&self) -> ParseErrorV {
        ParseErrorV {
            ty: self.ty@,
            line: self.line as int,
            col: self.col as int,
            linestr: self.linestr@,
        }
    }
}

/// Number of NewLine tokens in `ts`.
pub open spec fn count_nl(ts: Seq<TokenV>) -> nat
    decreases ts.len(),
{
    if ts.len() == 0 {
        0
    } else {
        count_nl(ts.drop_last()) + if ts.last().ty == TokenType::NewLine {
            1nat
        } else {
            0nat
        }
    }
}

/// Index just after the last NewLine token of `ts` (0 if there is none):
/// where the current line starts.
pub open spec fn line_start(ts: Seq<TokenV>) -> int
    decreases ts.len(),
{
    if ts.len() == 0 {
        0
    } else if ts.last().ty == TokenType::NewLine {
        ts.len() as int
    } else {
        line_start(ts.drop_last())
    }
}

/// Index of the first NewLine token of `ts`, or its length if none.
pub open spec fn first_nl(ts: Seq<TokenV>) -> int
    decreases ts.len(),
{
    if ts.len() == 0 {
        0
    } else if ts[0].ty == TokenType::NewLine {
        0
    } else {
        1 + first_nl(ts.skip(1))
    }
}

/// Successor saturating at the largest machine integer.
pub open spec fn sat_succ(n: nat) -> nat {
    if n + 1 <= usize::MAX {
        (n + 1) as nat
    } else {
        usize::MAX as nat
    }
}

/// The error report derived from the full token sequence `all`, the cursor
/// offset `pos` of the residual input at the failure, and the category:
/// line is 1 + the NewLine count before `pos`; column is 1 + the text
/// length of the current line up to `pos`; the line text is rebuilt from
/// the line start through the next NewLine (or the end of input).
pub open spec fn spec_parse_error(all: Seq<TokenV>, pos: int, ty: ErrTypeV) -> ParseErrorV {
    let consumed = all.take(pos);
    let ls = line_start(consumed);
    let before = all.subrange(ls, pos);
    let rest = all.skip(pos);
    ParseErrorV {
        ty: ty,
        line: sat_succ(count_nl(consumed)) as int,
        col: sat_succ(tokens_text(before).len()) as int,
        linestr: tokens_text(before) + tokens_text(rest.take(first_nl(rest))),
    }
}

/// The decimal digit character for `d` (< 10).
pub open spec fn digit_char(d: nat) -> char {
    if d == 0 {
        '0'
    } else if d == 1 {
        '1'
    } else if d == 2 {
        '2'
    } else if d == 3 {
        '3'
    } else if d == 4 {
        '4'
    } else if d == 5 {
        '5'
    } else if d == 6 {
        '6'
    } else if d == 7 {
        '7'
    } else if d == 8 {
        '8'
    } else {
        '9'
    }
}

/// The decimal rendering of `n`, most significant digit first.
pub open spec fn spec_dec(n: nat) -> Seq<char>
    decreases n,
{
    if n < 10 {
        seq![digit_char(n)]
    } else {
        spec_dec(n / 10).push(digit_char(n % 10))
    }
}

/// `n` space characters.
pub open spec fn spaces(n: nat) -> Seq<char>
    decreases n,
{
    if n == 0 {
        Seq::empty()
    } else {
        spaces((n - 1) as nat) + " "@
    }
}

/// A caret right-aligned to width `w`, as the format `{: >w$}` renders it.
pub open spec fn pad_caret(w: nat) -> Seq<char> {
    if w <= 1 {
        "^"@
    } else {
        spaces((w - 1) as nat) + "^"@
    }
}

/// The name of a token kind, for diagnostics.
pub open spec fn token_type_name(t: TokenType) -> Seq<char> {
    match t {
        TokenType::NewLine => "NewLine"@,
        TokenType::WhiteSpace => "WhiteSpace"@,
        TokenType::Comment => "Comment"@,
        TokenType::AngleStart => "AngleStart"@,
        TokenType::AngleEnd => "AngleEnd"@,
        TokenType::At => "At"@,
        TokenType::Equal => "Equal"@,
        TokenType::Semicolon => "Semicolon"@,
        TokenType::Dash => "Dash"@,
        TokenType::Char => "Char"@,
    }
}

/// The human-readable description of each failure category.
pub open spec fn spec_message(t: ErrTypeV) -> Seq<char> {
    match t {
        ErrTypeV::LogicalError(v) => "LogicalError: "@ + v + ", please contact dev"@,
        ErrTypeV::Unclosed(s) => "Unclosed: Missing closing token \""@ + s + "\""@,
        ErrTypeV::Incomplete => "Incomplete: Parser ran out of inputs"@,
        ErrTypeV::SyntaxError => "SyntaxError: Invalid Syntax"@,
        ErrTypeV::TokenMismatch(k) => "TokenMismatch: "@ + token_type_name(k)
            + " unexpected here"@,
        ErrTypeV::Custom(m) => m,
    }
}

/// The view of an optional file name.
pub open spec fn opt_str_view(o: Option<&str>) -> Option<Seq<char>> {
    match o {
        Some(f) => Some(f@),
        None => None,
    }
}

/// The full user-facing report: a `Custom` error renders its text directly
/// (plus the file name if given); every other category renders the position
/// header, an optional file location, the source line, and a caret under
/// the failing column followed by the category's description.
pub open spec fn spec_user_msg(e: ParseErrorV, filename: Option<Seq<char>>) -> Seq<char> {
    match e.ty {
        ErrTypeV::Custom(m) => m + match filename {
            Some(f) => "  -> "@ + f + "\n"@,
            None => Seq::<char>::empty(),
        },
        _ => {
            let header = "Error: Parse Error at Line "@ + spec_dec(e.line as nat) + " Column "@
                + spec_dec(e.col as nat) + "\n"@;
            let floc = match filename {
                Some(f) => "  -> "@ + f + ":"@ + spec_dec(e.line as nat) + ":"@ + spec_dec(
                    e.col as nat,
                ) + "\n"@,
                None => Seq::<char>::empty(),
            };
            header + floc + "  "@ + e.linestr + "\n"@ + "  "@ + pad_caret(e.col as nat) + " "@
                + spec_message(e.ty)
        },
    }
}

fn digit_str(d: usize) -> (r: &'static str)
    requires
        d < 10,
    ensures
        r@ == seq![digit_char(d as nat)],
{
    proof {
        reveal_strlit("0");
        reveal_strlit("1");
        reveal_strlit("2");
        reveal_strlit("3");
        reveal_strlit("4");
        reveal_strlit("5");
        reveal_strlit("6");
        reveal_strlit("7");
        reveal_strlit("8");
        reveal_strlit("9");
    }
    let r = if d == 0 {
        "0"
    } else if d == 1 {
        "1"
    } else if d == 2 {
        "2"
    } else if d == 3 {
        "3"
    } else if d == 4 {
        "4"
    } else if d == 5 {
        "5"
    } else if d == 6 {
        "6"
    } else if d == 7 {
        "7"
    } else if d == 8 {
        "8"
    } else {
        "9"
    };
    proof {
        assert(r@ =~= seq![digit_char(d as nat)]);
    }
    r
}

/// Render `n` in decimal.
pub fn dec_str(n: usize) -> (r: String)
    ensures
        r@ == spec_dec(n as nat),
    decreases n,
{
    if n < 10 {
        digit_str(n).to_owned()
    } else {
        let s = dec_str(n / 10);
        let r = s.concat(digit_str(n % 10));
        proof {
            assert(r@ =~= spec_dec(n as nat));
        }
        r
    }
}

fn spaces_str(n: usize) -> (r: String)
    ensures
        r@ == spaces(n as nat),
{
    let mut s = String::new();
    let mut i: usize = 0;
    while i < n
        invariant
            i <= n,
            s@ == spaces(i as nat),
        decreases n - i,
    {
        s.append(" ");
        i = i + 1;
    }
    s
}

impl ParseErrorType {
    /// The human-readable description of the failure category.
    pub fn message(&self) -> (r: String)
        ensures
            r@ == spec_message(self@),
    {
        match self {
            Self::LogicalError(v) => {
                let mut s = "LogicalError: ".to_owned();
                s.append(v.as_str());
                s.append(", please contact dev");
                proof {
                    assert(s@ =~= spec_message(self@));
                }
                s
            },
            Self::Unclosed(t) => {
                let mut s = "Unclosed: Missing closing token \"".to_owned();
                s.append(t.as_str());
                s.append("\"");
                proof {
                    assert(s@ =~= spec_message(self@));
                }
                s
            },
            Self::Incomplete => "Incomplete: Parser ran out of inputs".to_owned(),
            Self::SyntaxError => "SyntaxError: Invalid Syntax".to_owned(),
            Self::TokenMismatch(k) => {
                let mut s = "TokenMismatch: ".to_owned();
                let name = match k {
                    TokenType::NewLine => "NewLine",
                    TokenType::WhiteSpace => "WhiteSpace",
                    TokenType::Comment => "Comment",
                    TokenType::AngleStart => "AngleStart",
                    TokenType::AngleEnd => "AngleEnd",
                    TokenType::At => "At",
                    TokenType::Equal => "Equal",
                    TokenType::Semicolon => "Semicolon",
                    TokenType::Dash => "Dash",
                    TokenType::Char => "Char",
                };
                s.append(name);
                s.append(" unexpected here");
                proof {
                    assert(s@ =~= spec_message(self@));
                }
                s
            },
            Self::Custom(m) => m.clone(),
        }
    }
}

proof fn lemma_line_start_le(ts: Seq<TokenV>)
    ensures
        0 <= line_start(ts) <= ts.len(),
    decreases ts.len(),
{
    if ts.len() > 0 && ts.last().ty != TokenType::NewLine {
        lemma_line_start_le(ts.drop_last());
    }
}

proof fn lemma_first_nl_le(ts: Seq<TokenV>)
    ensures
        0 <= first_nl(ts) <= ts.len(),
    decreases ts.len(),
{
    if ts.len() > 0 && ts[0].ty != TokenType::NewLine {
        lemma_first_nl_le(ts.skip(1));
    }
}

fn first_nl_at(v: &Vec<Token>, j: usize, n: usize) -> (r: usize)
    requires
        n == v@.len(),
        j <= n,
    ensures
        r as int == j + first_nl(toks_view(v@).skip(j as int)),
        j <= r <= n,
    decreases n - j,
{
    proof {
        lemma_first_nl_le(toks_view(v@).skip(j as int));
    }
    if j < n {
        if v[j].ty == TokenType::NewLine {
            j
        } else {
            let r = first_nl_at(v, j + 1, n);
            proof {
                assert(toks_view(v@).skip(j as int).skip(1) =~= toks_view(v@).skip(j + 1 as int));
            }
            r
        }
    } else {
        j
    }
}

impl ParseError {
    /// Derive the report for a failure: `tokens` is the cursor over the
    /// whole token sequence, `rest` the residual cursor at the failure.
    pub fn new(tokens: TokenList<'_>, rest: TokenList<'_>, ty: ParseErrorType) -> (r: Self)
        requires
            tokens.pos_int() == 0,
            rest.all() == tokens.all(),
            rest.wf(),
        ensures
            r@ == spec_parse_error(tokens.all(), rest.pos_int(), ty@),
    {
        let v: &Vec<Token> = tokens.internal();
        let ghost all = tokens.all();
        let pos = rest.position();
        let n = v.len();
        assert(pos <= n);

        // Scan the consumed tokens for the line number and the line start.
        let mut line: usize = 1;
        let mut lstart: usize = 0;
        let mut i: usize = 0;
        proof {
            assert(all.take(0) =~= Seq::<TokenV>::empty());
        }
        while i < pos
            invariant
                pos <= n,
                n == v@.len(),
                toks_view(v@) == all,
                i <= pos,
                line as nat == sat_succ(count_nl(all.take(i as int))),
                lstart <= i,
                lstart as int == line_start(all.take(i as int)),
            decreases pos - i,
        {
            proof {
                assert(all.take(i + 1 as int).drop_last() =~= all.take(i as int));
                assert(all.take(i + 1 as int).last() == all[i as int]);
            }
            if v[i].ty == TokenType::NewLine {
                if line < usize::MAX {
                    line = line + 1;
                }
                lstart = i + 1;
            }
            i = i + 1;
        }
        proof {
            assert(all.take(pos as int) =~= all.take(i as int));
        }

        // Rebuild the text of the current line: first the consumed part.
        let ghost consumed = all.take(pos as int);
        let ghost ls = line_start(consumed);
        let mut linestr = String::new();
        let mut j: usize = lstart;
        proof {
            assert(all.subrange(ls, ls) =~= Seq::<TokenV>::empty());
        }
        while j < pos
            invariant
                lstart <= j <= pos <= n,
                n == v@.len(),
                toks_view(v@) == all,
                ls == lstart as int,
                linestr@ == tokens_text(all.subrange(ls, j as int)),
            decreases pos - j,
        {
            linestr.append(v[j].text.as_str());
            proof {
                assert(all.subrange(ls, j + 1 as int) =~= all.subrange(ls, j as int).push(
                    all[j as int],
                ));
                lemma_tokens_text_push(all.subrange(ls, j as int), all[j as int]);
            }
            j = j + 1;
        }
        let ghost before = all.subrange(ls, pos as int);

        // The column is 1 + the length of the consumed part of the line.
        let pl = linestr.unicode_len();
        let col = if pl < usize::MAX {
            pl + 1
        } else {
            pl
        };

        // Then the residual part of the line, up to the next NewLine.
        let stop = first_nl_at(v, pos, n);
        let mut j2: usize = pos;
        proof {
            assert(all.subrange(pos as int, pos as int) =~= Seq::<TokenV>::empty());
            assert(tokens_text(before) + Seq::<char>::empty() =~= tokens_text(before));
        }
        while j2 < stop
            invariant
                pos <= j2 <= stop <= n,
                n == v@.len(),
                toks_view(v@) == all,
                linestr@ == tokens_text(before) + tokens_text(
                    all.subrange(pos as int, j2 as int),
                ),
            decreases stop - j2,
        {
            linestr.append(v[j2].text.as_str());
            proof {
                assert(all.subrange(pos as int, j2 + 1 as int) =~= all.subrange(
                    pos as int,
                    j2 as int,
                ).push(all[j2 as int]));
                lemma_tokens_text_push(all.subrange(pos as int, j2 as int), all[j2 as int]);
                assert(tokens_text(before) + (tokens_text(all.subrange(pos as int, j2 as int))
                    + all[j2 as int].text) =~= (tokens_text(before) + tokens_text(
                    all.subrange(pos as int, j2 as int),
                )) + all[j2 as int].text);
            }
            j2 = j2 + 1;
        }
        proof {
            let rest_toks = all.skip(pos as int);
            assert(rest_toks.take(first_nl(rest_toks)) =~= all.subrange(pos as int, stop as int));
        }

        Self { ty, line, col, linestr }
    }

    /// Render the error for the user, optionally naming the source file.
    #[verifier::rlimit(50)]
    pub fn user_msg(&self, filename: Option<&str>) -> (r: String)
        ensures
            r@ == spec_user_msg(self@, opt_str_view(filename)),
    {
        let mut msg = String::new();
        let is_custom = match &self.ty {
            ParseErrorType::Custom(_) => true,
            _ => false,
        };
        if is_custom {
            match &self.ty {
                ParseErrorType::Custom(m) => {
                    msg.append(m.as_str());
                },
                _ => {},
            }
            match filename {
                Some(f) => {
                    msg.append("  -> ");
                    msg.append(f);
                    msg.append("\n");
                },
                None => {},
            }
            proof {
                assert(msg@ =~= spec_user_msg(self@, opt_str_view(filename)));
            }
        } else {
            msg.append("Error: Parse Error at Line ");
            msg.append(dec_str(self.line).as_str());
            msg.append(" Column ");
            msg.append(dec_str(self.col).as_str());
            msg.append("\n");
            match filename {
                Some(f) => {
                    msg.append("  -> ");
                    msg.append(f);
                    msg.append(":");
                    msg.append(dec_str(self.line).as_str());
                    msg.append(":");
                    msg.append(dec_str(self.col).as_str());
                    msg.append("\n");
                },
                None => {},
            }
            msg.append("  ");
            msg.append(self.linestr.as_str());
            msg.append("\n");
            msg.append("  ");
            let caret = if self.col <= 1 {
                "^".to_owned()
            } else {
                spaces_str(self.col - 1).concat("^")
            };
            msg.append(caret.as_str());
            msg.append(" ");
            msg.append(self.ty.message().as_str());
            proof {
                assert(msg@ =~= spec_user_msg(self@, opt_str_view(filename)));
            }
        }
        msg
    }
}

} // verus!
