//! Combinator primitives: reusable low-level matchers over the token
//! cursor. Each primitive has a specification-level mirror over the token
//! sequence and the cursor offset; the executable function is proved to
//! return exactly what the mirror says, both on success and on failure.

use vstd::prelude::*;

use crate::errors::{ErrTypeV, MatchErr, MatchErrV, MatchRes, ParseErrorType};
use crate::tokenizer::{tokens_text, Token, TokenList, TokenType, TokenV};

verus! {

/// What consuming exactly one token of kind `ty` at `pos` yields: the
/// token and the advanced offset, `Incomplete` at the end of input, or
/// `TokenMismatch` with the kind actually found.
pub open spec fn spec_one_token(ts: Seq<TokenV>, pos: int, ty: TokenType) -> Result<
    (int, TokenV),
    MatchErrV,
> {
    if pos >= ts.len() {
        Err(MatchErrV { ty: ErrTypeV::Incomplete, pos })
    } else if ts[pos].ty == ty {
        Ok((pos + 1, ts[pos]))
    } else {
        Err(MatchErrV { ty: ErrTypeV::TokenMismatch(ts[pos].ty), pos })
    }
}

/// Consume exactly one token of the required kind.
pub fn one_token<'a>(inp: TokenList<'a>, ty: TokenType) -> (r: MatchRes<'a, &'a Token>)
    requires
        inp.wf(),
    ensures
        ({
            let sp = spec_one_token(inp.all(), inp.pos_int(), ty);
            match r {
                Ok((rest, t)) => sp == Ok::<(int, TokenV), MatchErrV>((rest.pos_int(), t@))
                    && rest.all() == inp.all() && rest.wf() && rest.pos_int() == inp.pos_int() + 1,
                Err(e) => sp == Err::<(int, TokenV), MatchErrV>(e@),
            }
        }),
{
    match inp.first() {
        Some(t) => {
            if t.ty == ty {
                Ok((inp.advance(1), t))
            } else {
                Err(MatchErr { ty: ParseErrorType::TokenMismatch(t.ty), pos: inp.position() })
            }
        },
        None => Err(MatchErr { ty: ParseErrorType::Incomplete, pos: inp.position() }),
    }
}

/// Where the maximal run of Char and WhiteSpace tokens starting at `pos`
/// ends.
pub open spec fn chars_run(ts: Seq<TokenV>, pos: int) -> int
    decreases ts.len() - pos,
{
    if pos < ts.len() && (ts[pos].ty == TokenType::Char || ts[pos].ty == TokenType::WhiteSpace) {
        chars_run(ts, pos + 1)
    } else {
        pos
    }
}

/// What accumulating one-or-more consecutive Char/WhiteSpace tokens at
/// `pos` yields: their concatenated text, stopping at the first token of
/// any other kind; failing as the Char matcher does if zero tokens match.
pub open spec fn spec_string_val(ts: Seq<TokenV>, pos: int) -> Result<(int, Seq<char>), MatchErrV> {
    let end = chars_run(ts, pos);
    if end > pos {
        Ok((end, tokens_text(ts.subrange(pos, end))))
    } else if pos >= ts.len() {
        Err(MatchErrV { ty: ErrTypeV::Incomplete, pos })
    } else {
        Err(MatchErrV { ty: ErrTypeV::TokenMismatch(ts[pos].ty), pos })
    }
}

fn string_val_tail<'a>(inp: TokenList<'a>) -> (r: (TokenList<'a>, String))
    requires
        inp.wf(),
    ensures
        r.0.all() == inp.all(),
        r.0.wf(),
        r.0.pos_int() == chars_run(inp.all(), inp.pos_int()),
        r.0.pos_int() >= inp.pos_int(),
        r.1@ == tokens_text(inp.all().subrange(inp.pos_int(), r.0.pos_int())),
    decreases inp.all().len() - inp.pos_int(),
{
    match inp.first() {
        Some(t) => {
            if t.ty == TokenType::Char || t.ty == TokenType::WhiteSpace {
                let first_text = t.text.clone();
                let (rest, tail) = string_val_tail(inp.advance(1));
                let s = first_text.concat(tail.as_str());
                proof {
                    let ts = inp.all();
                    let pos = inp.pos_int();
                    let end = rest.pos_int();
                    assert(ts.subrange(pos, end)[0] == ts[pos]);
                    assert(ts.subrange(pos, end).skip(1) =~= ts.subrange(pos + 1, end));
                    assert(s@ =~= tokens_text(ts.subrange(pos, end)));
                }
                (rest, s)
            } else {
                proof {
                    assert(inp.all().subrange(inp.pos_int(), inp.pos_int()) =~= Seq::<
                        TokenV,
                    >::empty());
                }
                (inp, String::new())
            }
        },
        None => {
            proof {
                assert(inp.all().subrange(inp.pos_int(), inp.pos_int()) =~= Seq::<TokenV>::empty());
            }
            (inp, String::new())
        },
    }
}

/// Accumulate one-or-more consecutive Char/WhiteSpace tokens into one
/// string; stop at the first token of any other kind.
pub fn string_val<'a>(inp: TokenList<'a>) -> (r: MatchRes<'a, String>)
    requires
        inp.wf(),
    ensures
        ({
            let sp = spec_string_val(inp.all(), inp.pos_int());
            match r {
                Ok((rest, s)) => sp == Ok::<(int, Seq<char>), MatchErrV>((rest.pos_int(), s@))
                    && rest.all() == inp.all() && rest.wf() && rest.pos_int() > inp.pos_int(),
                Err(e) => sp == Err::<(int, Seq<char>), MatchErrV>(e@) && e@.pos == inp.pos_int(),
            }
        }),
{
    let (rest, s) = string_val_tail(inp);
    if rest.position() > inp.position() {
        Ok((rest, s))
    } else {
        match inp.first() {
            Some(t) => Err(
                MatchErr { ty: ParseErrorType::TokenMismatch(t.ty), pos: inp.position() },
            ),
            None => Err(MatchErr { ty: ParseErrorType::Incomplete, pos: inp.position() }),
        }
    }
}

/// Where the run of zero-or-more WhiteSpace tokens at `pos` ends.
pub open spec fn spec_skip_spaces(ts: Seq<TokenV>, pos: int) -> int
    decreases ts.len() - pos,
{
    if pos < ts.len() && ts[pos].ty == TokenType::WhiteSpace {
        spec_skip_spaces(ts, pos + 1)
    } else {
        pos
    }
}

/// The Char/WhiteSpace run stays within the input.
pub proof fn lemma_chars_run_bounds(ts: Seq<TokenV>, pos: int)
    ensures
        chars_run(ts, pos) >= pos,
        pos <= ts.len() ==> chars_run(ts, pos) <= ts.len(),
    decreases ts.len() - pos,
{
    if pos < ts.len() && (ts[pos].ty == TokenType::Char || ts[pos].ty == TokenType::WhiteSpace) {
        lemma_chars_run_bounds(ts, pos + 1);
    }
}

/// On success `string_val` advances, within the input; a failure sits at
/// the start position.
pub proof fn lemma_string_val_bounds(ts: Seq<TokenV>, pos: int)
    ensures
        (spec_string_val(ts, pos) matches Ok(pv) ==> pos < pv.0 <= ts.len()),
        (spec_string_val(ts, pos) matches Err(e) ==> e.pos == pos),
{
    lemma_chars_run_bounds(ts, pos);
    if chars_run(ts, pos) > pos {
        assert(pos < ts.len());
    }
}

pub proof fn lemma_skip_spaces_bounds(ts: Seq<TokenV>, pos: int)
    ensures
        spec_skip_spaces(ts, pos) >= pos,
        pos <= ts.len() ==> spec_skip_spaces(ts, pos) <= ts.len(),
    decreases ts.len() - pos,
{
    if pos < ts.len() && ts[pos].ty == TokenType::WhiteSpace {
        lemma_skip_spaces_bounds(ts, pos + 1);
    }
}

/// Skip zero-or-more WhiteSpace tokens: the `maybe_space` discipline.
pub fn skip_spaces<'a>(inp: TokenList<'a>) -> (r: TokenList<'a>)
    requires
        inp.wf(),
    ensures
        r.all() == inp.all(),
        r.wf(),
        r.pos_int() == spec_skip_spaces(inp.all(), inp.pos_int()),
        r.pos_int() >= inp.pos_int(),
    decreases inp.all().len() - inp.pos_int(),
{
    match inp.first() {
        Some(t) => {
            if t.ty == TokenType::WhiteSpace {
                skip_spaces(inp.advance(1))
            } else {
                inp
            }
        },
        None => inp,
    }
}

/// Where the run of zero-or-more WhiteSpace/NewLine/Comment tokens at
/// `pos` ends.
pub open spec fn spec_skip_ws_nl(ts: Seq<TokenV>, pos: int) -> int
    decreases ts.len() - pos,
{
    if pos < ts.len() && (ts[pos].ty == TokenType::WhiteSpace || ts[pos].ty == TokenType::NewLine
        || ts[pos].ty == TokenType::Comment) {
        spec_skip_ws_nl(ts, pos + 1)
    } else {
        pos
    }
}

/// Skip zero-or-more WhiteSpace, NewLine or Comment tokens: tolerates
/// blank and comment-only lines before a rule (`maybe_newline`).
pub fn many0_newlines<'a>(inp: TokenList<'a>) -> (r: TokenList<'a>)
    requires
        inp.wf(),
    ensures
        r.all() == inp.all(),
        r.wf(),
        r.pos_int() == spec_skip_ws_nl(inp.all(), inp.pos_int()),
        r.pos_int() >= inp.pos_int(),
    decreases inp.all().len() - inp.pos_int(),
{
    match inp.first() {
        Some(t) => {
            if t.ty == TokenType::WhiteSpace || t.ty == TokenType::NewLine || t.ty
                == TokenType::Comment {
                many0_newlines(inp.advance(1))
            } else {
                inp
            }
        },
        None => inp,
    }
}

/// Where repeating (skip spaces, then one NewLine or Comment) from `pos`
/// ends; a trailing run of spaces not followed by a line end is left
/// unconsumed.
pub open spec fn spec_nl_run(ts: Seq<TokenV>, pos: int) -> int
    decreases ts.len() - pos,
    via spec_nl_run_dec
{
    let p2 = spec_skip_spaces(ts, pos);
    if p2 < ts.len() && (ts[p2].ty == TokenType::NewLine || ts[p2].ty == TokenType::Comment) {
        spec_nl_run(ts, p2 + 1)
    } else {
        pos
    }
}

#[via_fn]
proof fn spec_nl_run_dec(ts: Seq<TokenV>, pos: int) {
    lemma_skip_spaces_bounds(ts, pos);
}

/// What requiring one-or-more line terminators (each a NewLine or Comment,
/// optionally preceded by spaces) at `pos` yields: the offset after the
/// last terminator, or the failure of the first required terminator.
pub open spec fn spec_many1_newlines(ts: Seq<TokenV>, pos: int) -> Result<int, MatchErrV> {
    let p2 = spec_skip_spaces(ts, pos);
    if p2 < ts.len() && (ts[p2].ty == TokenType::NewLine || ts[p2].ty == TokenType::Comment) {
        Ok(spec_nl_run(ts, p2 + 1))
    } else if p2 >= ts.len() {
        Err(MatchErrV { ty: ErrTypeV::Incomplete, pos: p2 })
    } else {
        Err(MatchErrV { ty: ErrTypeV::TokenMismatch(ts[p2].ty), pos: p2 })
    }
}

/// The WhiteSpace/NewLine/Comment run stays within the input.
pub proof fn lemma_skip_ws_nl_bounds(ts: Seq<TokenV>, pos: int)
    ensures
        spec_skip_ws_nl(ts, pos) >= pos,
        pos <= ts.len() ==> spec_skip_ws_nl(ts, pos) <= ts.len(),
    decreases ts.len() - pos,
{
    if pos < ts.len() && (ts[pos].ty == TokenType::WhiteSpace || ts[pos].ty == TokenType::NewLine
        || ts[pos].ty == TokenType::Comment) {
        lemma_skip_ws_nl_bounds(ts, pos + 1);
    }
}

/// The line-terminator run stays within the input.
pub proof fn lemma_nl_run_bounds(ts: Seq<TokenV>, pos: int)
    ensures
        spec_nl_run(ts, pos) >= pos,
        pos <= ts.len() ==> spec_nl_run(ts, pos) <= ts.len(),
    decreases ts.len() - pos,
{
    lemma_skip_spaces_bounds(ts, pos);
    let p2 = spec_skip_spaces(ts, pos);
    if p2 < ts.len() && (ts[p2].ty == TokenType::NewLine || ts[p2].ty == TokenType::Comment) {
        lemma_nl_run_bounds(ts, p2 + 1);
    }
}

/// On success `many1_newlines` advances, within the input; a failure sits
/// at or after the start position.
pub proof fn lemma_many1_newlines_bounds(ts: Seq<TokenV>, pos: int)
    ensures
        (spec_many1_newlines(ts, pos) matches Ok(p) ==> pos < p <= ts.len()),
        (spec_many1_newlines(ts, pos) matches Err(e) ==> pos <= e.pos),
        pos <= ts.len() ==> (spec_many1_newlines(ts, pos) matches Err(e) ==> e.pos <= ts.len()),
{
    lemma_skip_spaces_bounds(ts, pos);
    let p2 = spec_skip_spaces(ts, pos);
    if p2 < ts.len() && (ts[p2].ty == TokenType::NewLine || ts[p2].ty == TokenType::Comment) {
        lemma_nl_run_bounds(ts, p2 + 1);
    }
}

fn nl_run<'a>(inp: TokenList<'a>) -> (r: TokenList<'a>)
    requires
        inp.wf(),
    ensures
        r.all() == inp.all(),
        r.wf(),
        r.pos_int() == spec_nl_run(inp.all(), inp.pos_int()),
        r.pos_int() >= inp.pos_int(),
    decreases inp.all().len() - inp.pos_int(),
{
    let p2c = skip_spaces(inp);
    match p2c.first() {
        Some(t) => {
            if t.ty == TokenType::NewLine || t.ty == TokenType::Comment {
                nl_run(p2c.advance(1))
            } else {
                inp
            }
        },
        None => inp,
    }
}

/// Require one-or-more line terminators: ends a logical line
/// (`newline_terminated`).
pub fn many1_newlines<'a>(inp: TokenList<'a>) -> (r: MatchRes<'a, ()>)
    requires
        inp.wf(),
    ensures
        ({
            let sp = spec_many1_newlines(inp.all(), inp.pos_int());
            match r {
                Ok((rest, _)) => sp == Ok::<int, MatchErrV>(rest.pos_int()) && rest.all()
                    == inp.all() && rest.wf() && rest.pos_int() > inp.pos_int(),
                Err(e) => sp == Err::<int, MatchErrV>(e@) && inp.pos_int() <= e@.pos
                    <= inp.all().len(),
            }
        }),
{
    let p2c = skip_spaces(inp);
    match p2c.first() {
        Some(t) => {
            if t.ty == TokenType::NewLine || t.ty == TokenType::Comment {
                let rest = nl_run(p2c.advance(1));
                Ok((rest, ()))
            } else {
                Err(MatchErr { ty: ParseErrorType::TokenMismatch(t.ty), pos: p2c.position() })
            }
        },
        None => Err(MatchErr { ty: ParseErrorType::Incomplete, pos: p2c.position() }),
    }
}

/// Re-tag a failure with a human-meaningful category, keeping its
/// position; a success passes through unchanged.
pub fn err_ctx<'a, T>(ty: ParseErrorType, r: MatchRes<'a, T>) -> (out: MatchRes<'a, T>)
    ensures
        (r matches Ok(v) ==> out == Ok::<(TokenList<'a>, T), MatchErr>(v)),
        (r matches Err(e) ==> out matches Err(e2) && e2@ == (MatchErrV { ty: ty@, pos: e@.pos })),
{
    match r {
        Ok(v) => Ok(v),
        Err(e) => Err(e.ty(ty)),
    }
}

} // verus!
