//! Grammar: the chapter-specific parsing rules, built from the combinator
//! primitives as plain recursive descent. Every rule consumes from a
//! cursor and returns the advanced cursor and a value, or a
//! position-carrying failure; each is proved to return exactly what its
//! specification-level mirror says.

use vstd::prelude::*;

use crate::components::{
    lemma_chars_run_bounds, lemma_many1_newlines_bounds, lemma_skip_spaces_bounds,
    lemma_skip_ws_nl_bounds, lemma_string_val_bounds, many0_newlines, many1_newlines, one_token,
    skip_spaces, spec_many1_newlines, spec_one_token, spec_skip_spaces, spec_skip_ws_nl,
    spec_string_val, string_val,
};
use crate::errors::{
    dec_str, spec_dec, spec_parse_error, MatchErr, MatchErrV, MatchRes, ParseError,
    ParseErrorType,
};
use crate::strmap::StrMap;
use crate::syntax::{
    Chapter, ChapterV, OrgFragV, OrgFragment, Sentence, SentenceV, Translation, TranslationV,
};
use crate::tokenizer::{get_tokens, spec_tokenize, TokenList, TokenType, TokenV};

verus! {

/// The characters `str_trimmed` strips from either end of a word.
pub open spec fn is_trim_char(c: char) -> bool {
    c == ' ' || c == '\t' || c == '\r' || c == '\n'
}

/// `s` without its leading whitespace characters.
pub open spec fn trim_start_of(s: Seq<char>) -> Seq<char>
    decreases s.len(),
{
    if s.len() > 0 && is_trim_char(s[0]) {
        trim_start_of(s.skip(1))
    } else {
        s
    }
}

/// `s` without its trailing whitespace characters.
pub open spec fn trim_end_of(s: Seq<char>) -> Seq<char>
    decreases s.len(),
{
    if s.len() > 0 && is_trim_char(s.last()) {
        trim_end_of(s.drop_last())
    } else {
        s
    }
}

/// `s` without leading and trailing whitespace characters.
pub open spec fn trim_of(s: Seq<char>) -> Seq<char> {
    trim_end_of(trim_start_of(s))
}

fn trim_lo(s: &str, i: usize, n: usize) -> (r: usize)
    requires
        n == s@.len(),
        i <= n,
    ensures
        i <= r <= n,
        trim_start_of(s@.skip(i as int)) == s@.skip(r as int),
    decreases n - i,
{
    if i < n {
        let c = s.get_char(i);
        if c == ' ' || c == '\t' || c == '\r' || c == '\n' {
            let r = trim_lo(s, i + 1, n);
            proof {
                assert(s@.skip(i as int).skip(1) =~= s@.skip(i + 1 as int));
            }
            r
        } else {
            i
        }
    } else {
        proof {
            assert(s@.skip(n as int) =~= Seq::<char>::empty());
        }
        i
    }
}

fn trim_hi(s: &str, lo: usize, j: usize, n: usize) -> (r: usize)
    requires
        n == s@.len(),
        lo <= j <= n,
    ensures
        lo <= r <= j,
        trim_end_of(s@.subrange(lo as int, j as int)) == s@.subrange(lo as int, r as int),
    decreases j,
{
    if j > lo {
        let c = s.get_char(j - 1);
        proof {
            assert(s@.subrange(lo as int, j as int).last() == s@[j - 1 as int]);
            assert(s@.subrange(lo as int, j as int).drop_last() =~= s@.subrange(
                lo as int,
                j - 1 as int,
            ));
        }
        if c == ' ' || c == '\t' || c == '\r' || c == '\n' {
            trim_hi(s, lo, j - 1, n)
        } else {
            j
        }
    } else {
        proof {
            assert(s@.subrange(lo as int, lo as int) =~= Seq::<char>::empty());
        }
        j
    }
}

/// `s` with leading and trailing whitespace characters removed.
pub fn trim_str(s: &String) -> (r: String)
    ensures
        r@ == trim_of(s@),
{
    let st = s.as_str();
    let n = st.unicode_len();
    let lo = trim_lo(st, 0, n);
    let hi = trim_hi(st, lo, n, n);
    proof {
        assert(st@.skip(0) =~= st@);
        assert(st@.skip(lo as int) =~= st@.subrange(lo as int, n as int));
    }
    st.substring_char(lo, hi).to_owned()
}

/// What `str_trimmed` yields: a `string_val` with the ends trimmed.
pub open spec fn spec_str_trimmed(ts: Seq<TokenV>, pos: int) -> Result<(int, Seq<char>), MatchErrV> {
    match spec_string_val(ts, pos) {
        Ok(pv) => Ok((pv.0, trim_of(pv.1))),
        Err(e) => Err(e),
    }
}

/// A `string_val`, trimmed of surrounding whitespace.
pub fn str_trimmed<'a>(inp: TokenList<'a>) -> (r: MatchRes<'a, String>)
    requires
        inp.wf(),
    ensures
        ({
            let sp = spec_str_trimmed(inp.all(), inp.pos_int());
            match r {
                Ok((rest, s)) => sp == Ok::<(int, Seq<char>), MatchErrV>((rest.pos_int(), s@))
                    && rest.all() == inp.all() && rest.wf() && rest.pos_int() > inp.pos_int(),
                Err(e) => sp == Err::<(int, Seq<char>), MatchErrV>(e@) && e@.pos == inp.pos_int(),
            }
        }),
{
    match string_val(inp) {
        Ok((rest, s)) => Ok((rest, trim_str(&s))),
        Err(e) => Err(e),
    }
}

/// What `key_val` yields: trimmed key, `=`, trimmed value.
pub open spec fn spec_key_val(ts: Seq<TokenV>, pos: int) -> Result<
    (int, (Seq<char>, Seq<char>)),
    MatchErrV,
> {
    match spec_str_trimmed(ts, pos) {
        Err(e) => Err(e),
        Ok(kv) => {
            let p2 = spec_skip_spaces(ts, kv.0);
            match spec_one_token(ts, p2, TokenType::Equal) {
                Err(e) => Err(e),
                Ok(eqv) => {
                    let p4 = spec_skip_spaces(ts, eqv.0);
                    match spec_str_trimmed(ts, p4) {
                        Err(e) => Err(e),
                        Ok(vv) => Ok((vv.0, (kv.1, vv.1))),
                    }
                },
            }
        },
    }
}

/// On success `key_val` advances, within the input.
pub proof fn lemma_key_val_bounds(ts: Seq<TokenV>, pos: int)
    ensures
        (spec_key_val(ts, pos) matches Ok(pv) ==> pos < pv.0 <= ts.len()),
        (spec_key_val(ts, pos) matches Err(e) ==> pos <= e.pos),
        pos <= ts.len() ==> (spec_key_val(ts, pos) matches Err(e) ==> e.pos <= ts.len()),
{
    lemma_string_val_bounds(ts, pos);
    match spec_str_trimmed(ts, pos) {
        Ok(kv) => {
            lemma_skip_spaces_bounds(ts, kv.0);
            let p2 = spec_skip_spaces(ts, kv.0);
            match spec_one_token(ts, p2, TokenType::Equal) {
                Ok(eqv) => {
                    lemma_skip_spaces_bounds(ts, eqv.0);
                    let p4 = spec_skip_spaces(ts, eqv.0);
                    lemma_string_val_bounds(ts, p4);
                },
                _ => {},
            }
        },
        _ => {},
    }
}

/// One `key = value` pair, one per logical line.
pub fn key_val<'a>(inp: TokenList<'a>) -> (r: MatchRes<'a, (String, String)>)
    requires
        inp.wf(),
    ensures
        ({
            let sp = spec_key_val(inp.all(), inp.pos_int());
            match r {
                Ok((rest, kv)) => sp == Ok::<(int, (Seq<char>, Seq<char>)), MatchErrV>(
                    (rest.pos_int(), (kv.0@, kv.1@)),
                ) && rest.all() == inp.all() && rest.wf() && rest.pos_int() > inp.pos_int(),
                Err(e) => sp == Err::<(int, (Seq<char>, Seq<char>)), MatchErrV>(e@)
                    && inp.pos_int() <= e@.pos <= inp.all().len(),
            }
        }),
{
    match str_trimmed(inp) {
        Err(e) => Err(e),
        Ok((c1, k)) => {
            let c2 = skip_spaces(c1);
            match one_token(c2, TokenType::Equal) {
                Err(e) => Err(e),
                Ok((c3, _)) => {
                    let c4 = skip_spaces(c3);
                    match str_trimmed(c4) {
                        Err(e) => Err(e),
                        Ok((c5, v)) => Ok((c5, (k, v))),
                    }
                },
            }
        },
    }
}

/// What `linetag` yields: `@`, optional spaces, a trimmed word, and a
/// mandatory line terminator; the word is the sentence's label.
pub open spec fn spec_linetag(ts: Seq<TokenV>, pos: int) -> Result<(int, Seq<char>), MatchErrV> {
    match spec_one_token(ts, pos, TokenType::At) {
        Err(e) => Err(e),
        Ok(atv) => {
            let p2 = spec_skip_spaces(ts, atv.0);
            match spec_str_trimmed(ts, p2) {
                Err(e) => Err(e),
                Ok(sv) => match spec_many1_newlines(ts, sv.0) {
                    Err(e) => Err(e),
                    Ok(p4) => Ok((p4, sv.1)),
                },
            }
        },
    }
}

/// On success `linetag` advances, within the input.
pub proof fn lemma_linetag_bounds(ts: Seq<TokenV>, pos: int)
    ensures
        (spec_linetag(ts, pos) matches Ok(pv) ==> pos < pv.0 <= ts.len()),
        (spec_linetag(ts, pos) matches Err(e) ==> pos <= e.pos),
        pos <= ts.len() ==> (spec_linetag(ts, pos) matches Err(e) ==> e.pos <= ts.len()),
{
    match spec_one_token(ts, pos, TokenType::At) {
        Ok(atv) => {
            lemma_skip_spaces_bounds(ts, atv.0);
            let p2 = spec_skip_spaces(ts, atv.0);
            lemma_string_val_bounds(ts, p2);
            match spec_str_trimmed(ts, p2) {
                Ok(sv) => {
                    lemma_many1_newlines_bounds(ts, sv.0);
                },
                _ => {},
            }
        },
        _ => {},
    }
}

/// The sentence tag line: `@label`.
pub fn linetag<'a>(inp: TokenList<'a>) -> (r: MatchRes<'a, String>)
    requires
        inp.wf(),
    ensures
        ({
            let sp = spec_linetag(inp.all(), inp.pos_int());
            match r {
                Ok((rest, s)) => sp == Ok::<(int, Seq<char>), MatchErrV>((rest.pos_int(), s@))
                    && rest.all() == inp.all() && rest.wf() && rest.pos_int() > inp.pos_int(),
                Err(e) => sp == Err::<(int, Seq<char>), MatchErrV>(e@) && inp.pos_int() <= e@.pos
                    <= inp.all().len(),
            }
        }),
{
    match one_token(inp, TokenType::At) {
        Err(e) => Err(e),
        Ok((c1, _)) => {
            let c2 = skip_spaces(c1);
            match str_trimmed(c2) {
                Err(e) => Err(e),
                Ok((c3, s)) => match many1_newlines(c3) {
                    Err(e) => Err(e),
                    Ok((c4, _)) => Ok((c4, s)),
                },
            }
        },
    }
}

/// Where the semicolon-separated continuation of a meaning list ends, and
/// the further meanings it contributes. A separator not followed by a
/// meaning is left unconsumed.
pub open spec fn spec_meanings_tail(ts: Seq<TokenV>, pos: int) -> (int, Seq<Seq<char>>)
    decreases ts.len() - pos,
    via spec_meanings_tail_dec
{
    let p1 = spec_skip_spaces(ts, pos);
    if p1 < ts.len() && ts[p1].ty == TokenType::Semicolon {
        let p2 = spec_skip_spaces(ts, p1 + 1);
        match spec_str_trimmed(ts, p2) {
            Ok(mv) => {
                let rest = spec_meanings_tail(ts, mv.0);
                (rest.0, seq![mv.1] + rest.1)
            },
            Err(_) => (pos, Seq::empty()),
        }
    } else {
        (pos, Seq::empty())
    }
}

#[via_fn]
proof fn spec_meanings_tail_dec(ts: Seq<TokenV>, pos: int) {
    lemma_skip_spaces_bounds(ts, pos);
    let p1 = spec_skip_spaces(ts, pos);
    lemma_skip_spaces_bounds(ts, p1 + 1);
    lemma_chars_run_bounds(ts, spec_skip_spaces(ts, p1 + 1));
}

proof fn lemma_meanings_tail_ge(ts: Seq<TokenV>, pos: int)
    ensures
        spec_meanings_tail(ts, pos).0 >= pos,
    decreases ts.len() - pos,
{
    lemma_skip_spaces_bounds(ts, pos);
    let p1 = spec_skip_spaces(ts, pos);
    if p1 < ts.len() && ts[p1].ty == TokenType::Semicolon {
        lemma_skip_spaces_bounds(ts, p1 + 1);
        let p2 = spec_skip_spaces(ts, p1 + 1);
        lemma_chars_run_bounds(ts, p2);
        match spec_str_trimmed(ts, p2) {
            Ok(mv) => {
                lemma_meanings_tail_ge(ts, mv.0);
            },
            Err(_) => {},
        }
    }
}

/// What an inline definition yields: trimmed word, `=`, one-or-more
/// semicolon-separated trimmed meanings.
pub open spec fn spec_dict_meaning(ts: Seq<TokenV>, pos: int) -> Result<(int, OrgFragV), MatchErrV> {
    match spec_str_trimmed(ts, pos) {
        Err(e) => Err(e),
        Ok(wv) => {
            let p2 = spec_skip_spaces(ts, wv.0);
            match spec_one_token(ts, p2, TokenType::Equal) {
                Err(e) => Err(e),
                Ok(eqv) => {
                    let p4 = spec_skip_spaces(ts, eqv.0);
                    let p5 = spec_skip_spaces(ts, p4);
                    match spec_str_trimmed(ts, p5) {
                        Err(e) => Err(e),
                        Ok(mv) => {
                            let rest = spec_meanings_tail(ts, mv.0);
                            Ok((rest.0, OrgFragV::Meaning(wv.1, seq![mv.1] + rest.1)))
                        },
                    }
                },
            }
        },
    }
}

proof fn lemma_dict_meaning_progress(ts: Seq<TokenV>, pos: int)
    ensures
        (spec_dict_meaning(ts, pos) matches Ok(pv) ==> pv.0 > pos),
{
    match spec_str_trimmed(ts, pos) {
        Ok(wv) => {
            lemma_skip_spaces_bounds(ts, wv.0);
            let p2 = spec_skip_spaces(ts, wv.0);
            match spec_one_token(ts, p2, TokenType::Equal) {
                Ok(eqv) => {
                    lemma_skip_spaces_bounds(ts, eqv.0);
                    let p4 = spec_skip_spaces(ts, eqv.0);
                    lemma_skip_spaces_bounds(ts, p4);
                    let p5 = spec_skip_spaces(ts, p4);
                    match spec_str_trimmed(ts, p5) {
                        Ok(mv) => {
                            lemma_meanings_tail_ge(ts, mv.0);
                        },
                        _ => {},
                    }
                },
                _ => {},
            }
        },
        _ => {},
    }
}

fn meanings_tail<'a>(inp: TokenList<'a>) -> (r: (TokenList<'a>, Vec<String>))
    requires
        inp.wf(),
    ensures
        r.0.all() == inp.all(),
        r.0.wf(),
        r.0.pos_int() == spec_meanings_tail(inp.all(), inp.pos_int()).0,
        r.1.deep_view() == spec_meanings_tail(inp.all(), inp.pos_int()).1,
        r.0.pos_int() >= inp.pos_int(),
    decreases inp.all().len() - inp.pos_int(),
{
    let c1 = skip_spaces(inp);
    match one_token(c1, TokenType::Semicolon) {
        Err(_) => {
            let v: Vec<String> = Vec::new();
            proof {
                assert(v.deep_view() =~= Seq::<Seq<char>>::empty());
            }
            (inp, v)
        },
        Ok((c2, _)) => {
            let c3 = skip_spaces(c2);
            match str_trimmed(c3) {
                Err(_) => {
                    let v: Vec<String> = Vec::new();
                    proof {
                        assert(v.deep_view() =~= Seq::<Seq<char>>::empty());
                    }
                    (inp, v)
                },
                Ok((c4, m)) => {
                    let (c5, mut ms) = meanings_tail(c4);
                    let ghost tail = ms.deep_view();
                    ms.insert(0, m);
                    proof {
                        assert(ms.deep_view() =~= seq![m@] + tail);
                    }
                    (c5, ms)
                },
            }
        },
    }
}

/// An inline glossary definition: `word = meaning; meaning; ...`.
pub fn dict_meaning<'a>(inp: TokenList<'a>) -> (r: MatchRes<'a, OrgFragment>)
    requires
        inp.wf(),
    ensures
        ({
            let sp = spec_dict_meaning(inp.all(), inp.pos_int());
            match r {
                Ok((rest, f)) => sp == Ok::<(int, OrgFragV), MatchErrV>((rest.pos_int(), f@))
                    && rest.all() == inp.all() && rest.wf() && rest.pos_int() > inp.pos_int(),
                Err(e) => sp == Err::<(int, OrgFragV), MatchErrV>(e@) && inp.pos_int() <= e@.pos,
            }
        }),
{
    match str_trimmed(inp) {
        Err(e) => Err(e),
        Ok((c1, w)) => {
            let c2 = skip_spaces(c1);
            match one_token(c2, TokenType::Equal) {
                Err(e) => Err(e),
                Ok((c3, _)) => {
                    let c4 = skip_spaces(c3);
                    let c5 = skip_spaces(c4);
                    match str_trimmed(c5) {
                        Err(e) => Err(e),
                        Ok((c6, m)) => {
                            let (c7, mut ms) = meanings_tail(c6);
                            let ghost tail = ms.deep_view();
                            ms.insert(0, m);
                            proof {
                                assert(ms.deep_view() =~= seq![m@] + tail);
                            }
                            Ok((c7, OrgFragment::Meaning(w, ms)))
                        },
                    }
                },
            }
        },
    }
}

/// What an annotation `<<...>>` yields: an inline definition, or a bare
/// trimmed word as a dictionary lookup. Where both readings fail, the
/// first reading's failure is reported.
pub open spec fn spec_org_frag_dict(ts: Seq<TokenV>, pos: int) -> Result<
    (int, OrgFragV),
    MatchErrV,
> {
    match spec_one_token(ts, pos, TokenType::AngleStart) {
        Err(e) => Err(e),
        Ok(av) => {
            let p2 = spec_skip_spaces(ts, av.0);
            let inner: Result<(int, OrgFragV), MatchErrV> = match spec_dict_meaning(ts, p2) {
                Ok(v) => Ok(v),
                Err(e1) => match spec_str_trimmed(ts, p2) {
                    Ok(sv) => Ok((sv.0, OrgFragV::DictLookup(sv.1))),
                    Err(_) => Err(e1),
                },
            };
            match inner {
                Err(e) => Err(e),
                Ok(fv) => {
                    let p4 = spec_skip_spaces(ts, fv.0);
                    match spec_one_token(ts, p4, TokenType::AngleEnd) {
                        Err(e) => Err(e),
                        Ok(ev) => Ok((ev.0, fv.1)),
                    }
                },
            }
        },
    }
}

proof fn lemma_org_frag_dict_progress(ts: Seq<TokenV>, pos: int)
    ensures
        (spec_org_frag_dict(ts, pos) matches Ok(pv) ==> pv.0 > pos),
{
    match spec_one_token(ts, pos, TokenType::AngleStart) {
        Ok(av) => {
            lemma_skip_spaces_bounds(ts, av.0);
            let p2 = spec_skip_spaces(ts, av.0);
            lemma_dict_meaning_progress(ts, p2);
            let inner: Result<(int, OrgFragV), MatchErrV> = match spec_dict_meaning(ts, p2) {
                Ok(v) => Ok(v),
                Err(e1) => match spec_str_trimmed(ts, p2) {
                    Ok(sv) => Ok((sv.0, OrgFragV::DictLookup(sv.1))),
                    Err(_) => Err(e1),
                },
            };
            match inner {
                Ok(fv) => {
                    lemma_skip_spaces_bounds(ts, fv.0);
                },
                _ => {},
            }
        },
        _ => {},
    }
}

/// An annotation: `<<` word `>>` or `<<` word `=` meanings `>>`.
pub fn org_frag_dict<'a>(inp: TokenList<'a>) -> (r: MatchRes<'a, OrgFragment>)
    requires
        inp.wf(),
    ensures
        ({
            let sp = spec_org_frag_dict(inp.all(), inp.pos_int());
            match r {
                Ok((rest, f)) => sp == Ok::<(int, OrgFragV), MatchErrV>((rest.pos_int(), f@))
                    && rest.all() == inp.all() && rest.wf() && rest.pos_int() > inp.pos_int(),
                Err(e) => sp == Err::<(int, OrgFragV), MatchErrV>(e@) && inp.pos_int() <= e@.pos
                    <= inp.all().len(),
            }
        }),
{
    match one_token(inp, TokenType::AngleStart) {
        Err(e) => Err(e),
        Ok((c1, _)) => {
            let c2 = skip_spaces(c1);
            let inner: MatchRes<'a, OrgFragment> = match dict_meaning(c2) {
                Ok(v) => Ok(v),
                Err(e1) => match str_trimmed(c2) {
                    Ok((c3, w)) => Ok((c3, OrgFragment::DictLookup(w))),
                    Err(_) => Err(e1),
                },
            };
            match inner {
                Err(e) => Err(e),
                Ok((c3, f)) => {
                    let c4 = skip_spaces(c3);
                    match one_token(c4, TokenType::AngleEnd) {
                        Err(e) => Err(e),
                        Ok((c5, _)) => Ok((c5, f)),
                    }
                },
            }
        },
    }
}

/// What a translation separator yields: `---`, optional spaces, an
/// optional trimmed label, and a mandatory line terminator.
pub open spec fn spec_lines_separator(ts: Seq<TokenV>, pos: int) -> Result<
    (int, Option<Seq<char>>),
    MatchErrV,
> {
    match spec_one_token(ts, pos, TokenType::Dash) {
        Err(e) => Err(e),
        Ok(dv) => {
            let p2 = spec_skip_spaces(ts, dv.0);
            let lp: (int, Option<Seq<char>>) = match spec_str_trimmed(ts, p2) {
                Ok(sv) => (sv.0, Some(sv.1)),
                Err(_) => (p2, None),
            };
            match spec_many1_newlines(ts, lp.0) {
                Err(e) => Err(e),
                Ok(p4) => Ok((p4, lp.1)),
            }
        },
    }
}

/// A translation separator line: `---` with an optional label.
pub fn lines_separator<'a>(inp: TokenList<'a>) -> (r: MatchRes<'a, Option<String>>)
    requires
        inp.wf(),
    ensures
        ({
            let sp = spec_lines_separator(inp.all(), inp.pos_int());
            match r {
                Ok((rest, l)) => ({
                    let lv = match l {
                        Some(s) => Some(s@),
                        None => None,
                    };
                    sp == Ok::<(int, Option<Seq<char>>), MatchErrV>((rest.pos_int(), lv))
                        && rest.all() == inp.all() && rest.wf() && rest.pos_int() > inp.pos_int()
                }),
                Err(e) => sp == Err::<(int, Option<Seq<char>>), MatchErrV>(e@) && inp.pos_int()
                    <= e@.pos <= inp.all().len(),
            }
        }),
{
    match one_token(inp, TokenType::Dash) {
        Err(e) => Err(e),
        Ok((c1, _)) => {
            let c2 = skip_spaces(c1);
            let (c3, label) = match str_trimmed(c2) {
                Ok((c3, s)) => (c3, Some(s)),
                Err(_) => (c2, None),
            };
            match many1_newlines(c3) {
                Err(e) => Err(e),
                Ok((c4, _)) => Ok((c4, label)),
            }
        },
    }
}

/// Where the run of original-line fragments (annotations and plain text)
/// starting at `pos` ends, and the fragments it yields.
pub open spec fn spec_org_frags(ts: Seq<TokenV>, pos: int) -> (int, Seq<OrgFragV>)
    decreases ts.len() - pos,
    via spec_org_frags_dec
{
    match spec_org_frag_dict(ts, pos) {
        Ok(fv) => {
            let rest = spec_org_frags(ts, fv.0);
            (rest.0, seq![fv.1] + rest.1)
        },
        Err(_) => match spec_string_val(ts, pos) {
            Ok(sv) => {
                let rest = spec_org_frags(ts, sv.0);
                (rest.0, seq![OrgFragV::Simple(sv.1)] + rest.1)
            },
            Err(_) => (pos, Seq::empty()),
        },
    }
}

#[via_fn]
proof fn spec_org_frags_dec(ts: Seq<TokenV>, pos: int) {
    lemma_org_frag_dict_progress(ts, pos);
    lemma_chars_run_bounds(ts, pos);
}

proof fn lemma_org_frags_ge(ts: Seq<TokenV>, pos: int)
    ensures
        spec_org_frags(ts, pos).0 >= pos,
    decreases ts.len() - pos,
{
    lemma_org_frag_dict_progress(ts, pos);
    lemma_chars_run_bounds(ts, pos);
    match spec_org_frag_dict(ts, pos) {
        Ok(fv) => {
            lemma_org_frags_ge(ts, fv.0);
        },
        Err(_) => {
            match spec_string_val(ts, pos) {
                Ok(sv) => {
                    lemma_org_frags_ge(ts, sv.0);
                },
                Err(_) => {},
            }
        },
    }
}

fn org_frags<'a>(inp: TokenList<'a>) -> (r: (TokenList<'a>, Vec<OrgFragment>))
    requires
        inp.wf(),
    ensures
        r.0.all() == inp.all(),
        r.0.wf(),
        r.0.pos_int() == spec_org_frags(inp.all(), inp.pos_int()).0,
        r.1.deep_view() == spec_org_frags(inp.all(), inp.pos_int()).1,
        r.0.pos_int() >= inp.pos_int(),
    decreases inp.all().len() - inp.pos_int(),
{
    match org_frag_dict(inp) {
        Ok((c1, f)) => {
            let (c2, mut fs) = org_frags(c1);
            let ghost tail = fs.deep_view();
            fs.insert(0, f);
            proof {
                assert(fs.deep_view() =~= seq![f@] + tail);
            }
            (c2, fs)
        },
        Err(_) => {
            match string_val(inp) {
                Ok((c1, s)) => {
                    let (c2, mut fs) = org_frags(c1);
                    let ghost tail = fs.deep_view();
                    fs.insert(0, OrgFragment::Simple(s));
                    proof {
                        assert(fs.deep_view() =~= seq![OrgFragV::Simple(s@)] + tail);
                    }
                    (c2, fs)
                },
                Err(_) => {
                    let v: Vec<OrgFragment> = Vec::new();
                    proof {
                        assert(v.deep_view() =~= Seq::<OrgFragV>::empty());
                    }
                    (inp, v)
                },
            }
        },
    }
}

/// What an original-language line yields: zero-or-more fragments up to a
/// mandatory line terminator; a line with no fragments is valid.
pub open spec fn spec_original_sentence(ts: Seq<TokenV>, pos: int) -> Result<
    (int, Seq<OrgFragV>),
    MatchErrV,
> {
    let fr = spec_org_frags(ts, pos);
    match spec_many1_newlines(ts, fr.0) {
        Err(e) => Err(e),
        Ok(p2) => Ok((p2, fr.1)),
    }
}

/// The original-language line of a sentence.
pub fn original_sentence<'a>(inp: TokenList<'a>) -> (r: MatchRes<'a, Vec<OrgFragment>>)
    requires
        inp.wf(),
    ensures
        ({
            let sp = spec_original_sentence(inp.all(), inp.pos_int());
            match r {
                Ok((rest, fs)) => sp matches Ok(pv) && pv.0 == rest.pos_int() && pv.1
                    == fs.deep_view() && rest.all() == inp.all() && rest.wf() && rest.pos_int()
                    > inp.pos_int(),
                Err(e) => sp == Err::<(int, Seq<OrgFragV>), MatchErrV>(e@) && inp.pos_int()
                    <= e@.pos <= inp.all().len(),
            }
        }),
{
    let (c1, fs) = org_frags(inp);
    match many1_newlines(c1) {
        Err(e) => Err(e),
        Ok((c2, _)) => Ok((c2, fs)),
    }
}

/// Left-to-right fold of key/value pairs over a mapping: a later pair with
/// an existing key overwrites the earlier value (last write wins).
pub open spec fn attrs_map_from(
    m: Map<Seq<char>, Seq<char>>,
    ps: Seq<(Seq<char>, Seq<char>)>,
) -> Map<Seq<char>, Seq<char>>
    decreases ps.len(),
{
    if ps.len() == 0 {
        m
    } else {
        attrs_map_from(m.insert(ps[0].0, ps[0].1), ps.skip(1))
    }
}

/// The mapping a pair sequence collects into, last write wins.
pub open spec fn attrs_map(ps: Seq<(Seq<char>, Seq<char>)>) -> Map<Seq<char>, Seq<char>> {
    attrs_map_from(Map::empty(), ps)
}

/// The view of an association vector as a pair sequence.
pub open spec fn pairs_view(v: Seq<(String, String)>) -> Seq<(Seq<char>, Seq<char>)> {
    v.map_values(|p: (String, String)| (p.0@, p.1@))
}

/// Where the run of attribute lines starting at `pos` ends, and the pairs
/// it yields in order. Each line tolerates leading blank/comment lines and
/// requires a terminator; the first line that fails either way is left
/// unconsumed, together with any blank lines before it.
pub open spec fn spec_attrs(ts: Seq<TokenV>, pos: int) -> (int, Seq<(Seq<char>, Seq<char>)>)
    decreases ts.len() - pos,
    via spec_attrs_dec
{
    let p1 = spec_skip_ws_nl(ts, pos);
    match spec_key_val(ts, p1) {
        Err(_) => (pos, Seq::empty()),
        Ok(kv) => match spec_many1_newlines(ts, kv.0) {
            Err(_) => (pos, Seq::empty()),
            Ok(p3) => {
                let rest = spec_attrs(ts, p3);
                (rest.0, seq![kv.1] + rest.1)
            },
        },
    }
}

#[via_fn]
proof fn spec_attrs_dec(ts: Seq<TokenV>, pos: int) {
    lemma_skip_ws_nl_bounds(ts, pos);
    let p1 = spec_skip_ws_nl(ts, pos);
    lemma_key_val_bounds(ts, p1);
    match spec_key_val(ts, p1) {
        Ok(kv) => {
            lemma_many1_newlines_bounds(ts, kv.0);
        },
        _ => {},
    }
}

/// `spec_attrs` stops exactly where one more attribute line cannot be
/// read: at its end position the next key/value or its terminator fails.
pub proof fn lemma_attrs_fixpoint(ts: Seq<TokenV>, pos: int)
    ensures
        ({
            let p = spec_attrs(ts, pos).0;
            let p1 = spec_skip_ws_nl(ts, p);
            match spec_key_val(ts, p1) {
                Err(_) => true,
                Ok(kv) => spec_many1_newlines(ts, kv.0) matches Err(_),
            }
        }),
    decreases ts.len() - pos,
{
    let p1 = spec_skip_ws_nl(ts, pos);
    match spec_key_val(ts, p1) {
        Err(_) => {},
        Ok(kv) => {
            match spec_many1_newlines(ts, kv.0) {
                Err(_) => {},
                Ok(p3) => {
                    lemma_skip_ws_nl_bounds(ts, pos);
                    lemma_key_val_bounds(ts, p1);
                    lemma_many1_newlines_bounds(ts, kv.0);
                    lemma_attrs_fixpoint(ts, p3);
                },
            }
        },
    }
}

/// `spec_attrs` advances (or stays) within the input.
pub proof fn lemma_attrs_bounds(ts: Seq<TokenV>, pos: int)
    ensures
        spec_attrs(ts, pos).0 >= pos,
        pos <= ts.len() ==> spec_attrs(ts, pos).0 <= ts.len(),
    decreases ts.len() - pos,
{
    lemma_skip_ws_nl_bounds(ts, pos);
    let p1 = spec_skip_ws_nl(ts, pos);
    lemma_key_val_bounds(ts, p1);
    match spec_key_val(ts, p1) {
        Err(_) => {},
        Ok(kv) => {
            lemma_many1_newlines_bounds(ts, kv.0);
            match spec_many1_newlines(ts, kv.0) {
                Err(_) => {},
                Ok(p3) => {
                    lemma_attrs_bounds(ts, p3);
                },
            }
        },
    }
}

fn attr_pairs<'a>(inp: TokenList<'a>) -> (r: (TokenList<'a>, Vec<(String, String)>))
    requires
        inp.wf(),
    ensures
        r.0.all() == inp.all(),
        r.0.wf(),
        r.0.pos_int() == spec_attrs(inp.all(), inp.pos_int()).0,
        pairs_view(r.1@) == spec_attrs(inp.all(), inp.pos_int()).1,
        r.0.pos_int() >= inp.pos_int(),
    decreases inp.all().len() - inp.pos_int(),
{
    let c1 = many0_newlines(inp);
    match key_val(c1) {
        Err(_) => {
            let v: Vec<(String, String)> = Vec::new();
            proof {
                assert(pairs_view(v@) =~= Seq::<(Seq<char>, Seq<char>)>::empty());
            }
            (inp, v)
        },
        Ok((c2, kv)) => {
            match many1_newlines(c2) {
                Err(_) => {
                    let v: Vec<(String, String)> = Vec::new();
                    proof {
                        assert(pairs_view(v@) =~= Seq::<(Seq<char>, Seq<char>)>::empty());
                    }
                    (inp, v)
                },
                Ok((c3, _)) => {
                    let (c4, mut ps) = attr_pairs(c3);
                    let ghost tail = pairs_view(ps@);
                    ps.insert(0, kv);
                    proof {
                        assert(pairs_view(ps@) =~= seq![(kv.0@, kv.1@)] + tail);
                    }
                    (c4, ps)
                },
            }
        },
    }
}

/// Zero-or-more `key = value` lines collected into a mapping; a later
/// occurrence of an existing key overwrites the earlier value. Never
/// fails: on the first unreadable line it stops consuming.
pub fn attrs<'a>(inp: TokenList<'a>) -> (r: (TokenList<'a>, StrMap<String>))
    requires
        inp.wf(),
    ensures
        r.0.all() == inp.all(),
        r.0.wf(),
        r.0.pos_int() == spec_attrs(inp.all(), inp.pos_int()).0,
        r.1@ == attrs_map(spec_attrs(inp.all(), inp.pos_int()).1),
        r.0.pos_int() >= inp.pos_int(),
{
    let (c1, ps) = attr_pairs(inp);
    let ghost all_pairs = pairs_view(ps@);
    let mut m: StrMap<String> = StrMap::new();
    let mut i: usize = 0;
    let n = ps.len();
    proof {
        assert(all_pairs.skip(0) =~= all_pairs);
    }
    while i < n
        invariant
            i <= n,
            n == ps@.len(),
            all_pairs == pairs_view(ps@),
            all_pairs.len() == n,
            attrs_map(all_pairs) == attrs_map_from(m@, all_pairs.skip(i as int)),
        decreases n - i,
    {
        let k = ps[i].0.clone();
        let v = ps[i].1.clone();
        m.insert(k, v);
        proof {
            assert(all_pairs.skip(i as int)[0] == all_pairs[i as int]);
            assert(all_pairs.skip(i as int).skip(1) =~= all_pairs.skip(i + 1 as int));
        }
        i = i + 1;
    }
    proof {
        assert(all_pairs.skip(n as int) =~= Seq::<(Seq<char>, Seq<char>)>::empty());
    }
    (c1, m)
}

/// What a translation line with its optional attribute block yields: a
/// line-terminated `string_val` as the content, then any following blank
/// lines and attribute lines.
pub open spec fn spec_tl_sentence(ts: Seq<TokenV>, pos: int) -> Result<(int, TranslationV), MatchErrV> {
    match spec_string_val(ts, pos) {
        Err(e) => Err(e),
        Ok(cv) => match spec_many1_newlines(ts, cv.0) {
            Err(e) => Err(e),
            Ok(p2) => {
                let p3 = spec_skip_ws_nl(ts, p2);
                let at = spec_attrs(ts, p3);
                Ok((at.0, TranslationV { content: cv.1, attrs: attrs_map(at.1) }))
            },
        },
    }
}

proof fn lemma_tl_sentence_bounds(ts: Seq<TokenV>, pos: int)
    ensures
        (spec_tl_sentence(ts, pos) matches Ok(pv) ==> pos < pv.0 <= ts.len()),
{
    lemma_string_val_bounds(ts, pos);
    match spec_string_val(ts, pos) {
        Ok(cv) => {
            lemma_many1_newlines_bounds(ts, cv.0);
            match spec_many1_newlines(ts, cv.0) {
                Ok(p2) => {
                    lemma_skip_ws_nl_bounds(ts, p2);
                    let p3 = spec_skip_ws_nl(ts, p2);
                    lemma_attrs_bounds(ts, p3);
                },
                _ => {},
            }
        },
        _ => {},
    }
}

/// One translation block: its text and its own attributes.
pub fn tl_sentence<'a>(inp: TokenList<'a>) -> (r: MatchRes<'a, Translation>)
    requires
        inp.wf(),
    ensures
        ({
            let sp = spec_tl_sentence(inp.all(), inp.pos_int());
            match r {
                Ok((rest, t)) => sp == Ok::<(int, TranslationV), MatchErrV>((rest.pos_int(), t@))
                    && rest.all() == inp.all() && rest.wf() && rest.pos_int() > inp.pos_int(),
                Err(e) => sp == Err::<(int, TranslationV), MatchErrV>(e@) && inp.pos_int() <= e@.pos
                    <= inp.all().len(),
            }
        }),
{
    match string_val(inp) {
        Err(e) => Err(e),
        Ok((c1, content)) => match many1_newlines(c1) {
            Err(e) => Err(e),
            Ok((c2, _)) => {
                let c3 = many0_newlines(c2);
                let (c4, am) = attrs(c3);
                Ok((c4, Translation { content, attrs: am }))
            },
        },
    }
}

proof fn lemma_lines_separator_bounds(ts: Seq<TokenV>, pos: int)
    ensures
        (spec_lines_separator(ts, pos) matches Ok(pv) ==> pos < pv.0 <= ts.len()),
{
    match spec_one_token(ts, pos, TokenType::Dash) {
        Ok(dv) => {
            lemma_skip_spaces_bounds(ts, dv.0);
            let p2 = spec_skip_spaces(ts, dv.0);
            lemma_string_val_bounds(ts, p2);
            let lp: (int, Option<Seq<char>>) = match spec_str_trimmed(ts, p2) {
                Ok(sv) => (sv.0, Some(sv.1)),
                Err(_) => (p2, None),
            };
            lemma_many1_newlines_bounds(ts, lp.0);
        },
        _ => {},
    }
}

/// The label a translation pair is filed under: the separator's label, or
/// the pair's 0-based occurrence index rendered in decimal.
pub open spec fn tl_label_key(l: Option<Seq<char>>, idx: int) -> Seq<char> {
    match l {
        Some(s) => s,
        None => spec_dec(idx as nat),
    }
}

/// Left-to-right fold of labelled translation pairs over a mapping,
/// numbering unlabelled pairs from `idx` up; a later pair with an existing
/// label overwrites the earlier one.
pub open spec fn tls_map_from(
    m: Map<Seq<char>, TranslationV>,
    ps: Seq<(Option<Seq<char>>, TranslationV)>,
    idx: int,
) -> Map<Seq<char>, TranslationV>
    decreases ps.len(),
{
    if ps.len() == 0 {
        m
    } else {
        tls_map_from(m.insert(tl_label_key(ps[0].0, idx), ps[0].1), ps.skip(1), idx + 1)
    }
}

/// The translations mapping a pair sequence collects into.
pub open spec fn tls_map(ps: Seq<(Option<Seq<char>>, TranslationV)>) -> Map<Seq<char>, TranslationV> {
    tls_map_from(Map::empty(), ps, 0)
}

/// Where the run of (separator, translation) blocks starting at `pos`
/// ends, and the labelled pairs it yields in order.
pub open spec fn spec_tl_pairs(ts: Seq<TokenV>, pos: int) -> (
    int,
    Seq<(Option<Seq<char>>, TranslationV)>,
)
    decreases ts.len() - pos,
    via spec_tl_pairs_dec
{
    let q1 = spec_skip_ws_nl(ts, pos);
    match spec_lines_separator(ts, q1) {
        Err(_) => (pos, Seq::empty()),
        Ok(sv) => {
            let q3 = spec_skip_ws_nl(ts, sv.0);
            match spec_tl_sentence(ts, q3) {
                Err(_) => (pos, Seq::empty()),
                Ok(tv) => {
                    let rest = spec_tl_pairs(ts, tv.0);
                    (rest.0, seq![(sv.1, tv.1)] + rest.1)
                },
            }
        },
    }
}

#[via_fn]
proof fn spec_tl_pairs_dec(ts: Seq<TokenV>, pos: int) {
    lemma_skip_ws_nl_bounds(ts, pos);
    let q1 = spec_skip_ws_nl(ts, pos);
    lemma_lines_separator_bounds(ts, q1);
    match spec_lines_separator(ts, q1) {
        Ok(sv) => {
            lemma_skip_ws_nl_bounds(ts, sv.0);
            lemma_tl_sentence_bounds(ts, spec_skip_ws_nl(ts, sv.0));
        },
        _ => {},
    }
}

proof fn lemma_tl_pairs_bounds(ts: Seq<TokenV>, pos: int)
    ensures
        spec_tl_pairs(ts, pos).0 >= pos,
        pos <= ts.len() ==> spec_tl_pairs(ts, pos).0 <= ts.len(),
    decreases ts.len() - pos,
{
    lemma_skip_ws_nl_bounds(ts, pos);
    let q1 = spec_skip_ws_nl(ts, pos);
    lemma_lines_separator_bounds(ts, q1);
    match spec_lines_separator(ts, q1) {
        Ok(sv) => {
            lemma_skip_ws_nl_bounds(ts, sv.0);
            let q3 = spec_skip_ws_nl(ts, sv.0);
            lemma_tl_sentence_bounds(ts, q3);
            match spec_tl_sentence(ts, q3) {
                Ok(tv) => {
                    lemma_tl_pairs_bounds(ts, tv.0);
                },
                _ => {},
            }
        },
        _ => {},
    }
}

/// The view of a labelled translation vector as a pair sequence.
pub open spec fn tl_pairs_view(v: Seq<(Option<String>, Translation)>) -> Seq<
    (Option<Seq<char>>, TranslationV),
> {
    v.map_values(
        |p: (Option<String>, Translation)|
            (
                match p.0 {
                    Some(s) => Some(s@),
                    None => None,
                },
                p.1@,
            ),
    )
}

fn tl_pairs<'a>(inp: TokenList<'a>) -> (r: (TokenList<'a>, Vec<(Option<String>, Translation)>))
    requires
        inp.wf(),
    ensures
        r.0.all() == inp.all(),
        r.0.wf(),
        r.0.pos_int() == spec_tl_pairs(inp.all(), inp.pos_int()).0,
        tl_pairs_view(r.1@) == spec_tl_pairs(inp.all(), inp.pos_int()).1,
        r.0.pos_int() >= inp.pos_int(),
    decreases inp.all().len() - inp.pos_int(),
{
    let c1 = many0_newlines(inp);
    match lines_separator(c1) {
        Err(_) => {
            let v: Vec<(Option<String>, Translation)> = Vec::new();
            proof {
                assert(tl_pairs_view(v@) =~= Seq::<(Option<Seq<char>>, TranslationV)>::empty());
            }
            (inp, v)
        },
        Ok((c2, lbl)) => {
            let c3 = many0_newlines(c2);
            match tl_sentence(c3) {
                Err(_) => {
                    let v: Vec<(Option<String>, Translation)> = Vec::new();
                    proof {
                        assert(tl_pairs_view(v@) =~= Seq::<
                            (Option<Seq<char>>, TranslationV),
                        >::empty());
                    }
                    (inp, v)
                },
                Ok((c4, t)) => {
                    let ghost lblv: Option<Seq<char>> = match lbl {
                        Some(ref s) => Some(s@),
                        None => None,
                    };
                    let ghost tv = t@;
                    let (c5, mut ps) = tl_pairs(c4);
                    let ghost tail = tl_pairs_view(ps@);
                    ps.insert(0, (lbl, t));
                    proof {
                        assert(tl_pairs_view(ps@) =~= seq![(lblv, tv)] + tail);
                    }
                    (c5, ps)
                },
            }
        },
    }
}

/// What a full sentence yields: its tag line, original line, attribute
/// block, and zero-or-more (separator, translation) pairs; an unlabelled
/// separator is filed under its 0-based occurrence index.
pub open spec fn spec_sentence(ts: Seq<TokenV>, pos: int) -> Result<(int, SentenceV), MatchErrV> {
    match spec_linetag(ts, pos) {
        Err(e) => Err(e),
        Ok(lv) => {
            let p2 = spec_skip_ws_nl(ts, lv.0);
            match spec_original_sentence(ts, p2) {
                Err(e) => Err(e),
                Ok(ov) => {
                    let p4 = spec_skip_ws_nl(ts, ov.0);
                    let at = spec_attrs(ts, p4);
                    let tp = spec_tl_pairs(ts, at.0);
                    Ok(
                        (
                            tp.0,
                            SentenceV {
                                label: lv.1,
                                original: ov.1,
                                orgattrs: attrs_map(at.1),
                                translations: tls_map(tp.1),
                            },
                        ),
                    )
                },
            }
        },
    }
}

/// On success `sentence` advances, within the input; a failure sits at or
/// after the start position, within the input.
pub proof fn lemma_sentence_bounds(ts: Seq<TokenV>, pos: int)
    ensures
        (spec_sentence(ts, pos) matches Ok(pv) ==> pos < pv.0 <= ts.len()),
        (spec_sentence(ts, pos) matches Err(e) ==> pos <= e.pos),
        pos <= ts.len() ==> (spec_sentence(ts, pos) matches Err(e) ==> e.pos <= ts.len()),
{
    lemma_linetag_bounds(ts, pos);
    match spec_linetag(ts, pos) {
        Ok(lv) => {
            lemma_skip_ws_nl_bounds(ts, lv.0);
            let p2 = spec_skip_ws_nl(ts, lv.0);
            lemma_org_frags_ge(ts, p2);
            lemma_chars_run_bounds(ts, p2);
            let fr = spec_org_frags(ts, p2);
            lemma_org_frags_le(ts, p2);
            lemma_many1_newlines_bounds(ts, fr.0);
            match spec_original_sentence(ts, p2) {
                Ok(ov) => {
                    lemma_skip_ws_nl_bounds(ts, ov.0);
                    let p4 = spec_skip_ws_nl(ts, ov.0);
                    lemma_attrs_bounds(ts, p4);
                    let at = spec_attrs(ts, p4);
                    lemma_tl_pairs_bounds(ts, at.0);
                },
                _ => {},
            }
        },
        _ => {},
    }
}

/// `spec_org_frags` stays within the input.
proof fn lemma_org_frags_le(ts: Seq<TokenV>, pos: int)
    ensures
        pos <= ts.len() ==> spec_org_frags(ts, pos).0 <= ts.len(),
    decreases ts.len() - pos,
{
    lemma_org_frag_dict_progress(ts, pos);
    lemma_chars_run_bounds(ts, pos);
    match spec_org_frag_dict(ts, pos) {
        Ok(fv) => {
            lemma_org_frags_le(ts, fv.0);
        },
        Err(_) => {
            match spec_string_val(ts, pos) {
                Ok(sv) => {
                    lemma_string_val_bounds(ts, pos);
                    lemma_org_frags_le(ts, sv.0);
                },
                Err(_) => {},
            }
        },
    }
}

/// One full sentence with its translations.
pub fn sentence<'a>(inp: TokenList<'a>) -> (r: MatchRes<'a, Sentence>)
    requires
        inp.wf(),
    ensures
        ({
            let sp = spec_sentence(inp.all(), inp.pos_int());
            match r {
                Ok((rest, s)) => sp matches Ok(pv) && pv.0 == rest.pos_int() && pv.1 == s@
                    && rest.all() == inp.all() && rest.wf() && rest.pos_int() > inp.pos_int(),
                Err(e) => sp == Err::<(int, SentenceV), MatchErrV>(e@) && inp.pos_int() <= e@.pos
                    <= inp.all().len(),
            }
        }),
{
    match linetag(inp) {
        Err(e) => Err(e),
        Ok((c1, label)) => {
            let c2 = many0_newlines(c1);
            match original_sentence(c2) {
                Err(e) => Err(e),
                Ok((c3, frags)) => {
                    let c4 = many0_newlines(c3);
                    let (c5, orgattrs) = attrs(c4);
                    let (c6, mut ps) = tl_pairs(c5);
                    let ghost allp = tl_pairs_view(ps@);
                    let mut tmap: StrMap<Translation> = StrMap::new();
                    let mut i: usize = 0;
                    let n0 = ps.len();
                    proof {
                        assert(allp.skip(0) =~= allp);
                    }
                    while ps.len() > 0
                        invariant
                            i + ps@.len() == n0,
                            allp.len() == n0,
                            tl_pairs_view(ps@) =~= allp.skip(i as int),
                            tls_map(allp) == tls_map_from(tmap@, allp.skip(i as int), i as int),
                        decreases ps@.len(),
                    {
                        let ghost psv = ps@;
                        let (lbl, t) = ps.remove(0);
                        let ghost tv = t@;
                        let key = match lbl {
                            Some(l) => l,
                            None => dec_str(i),
                        };
                        let ghost keyv = key@;
                        tmap.insert(key, t);
                        proof {
                            assert(ps@ =~= psv.skip(1));
                            assert(tl_pairs_view(psv)[0] == allp.skip(i as int)[0]);
                            assert(keyv == tl_label_key(allp.skip(i as int)[0].0, i as int));
                            assert(tv == allp.skip(i as int)[0].1);
                            assert(tl_pairs_view(psv.skip(1)) =~= tl_pairs_view(psv).skip(1));
                            assert(allp.skip(i as int).skip(1) =~= allp.skip(i + 1 as int));
                        }
                        i = i + 1;
                    }
                    proof {
                        assert(allp.skip(i as int) =~= Seq::<
                            (Option<Seq<char>>, TranslationV),
                        >::empty());
                        assert(tl_pairs_view(ps@).len() == 0);
                    }
                    Ok(
                        (
                            c6,
                            Sentence { label, original: frags, orgattrs, translations: tmap },
                        ),
                    )
                },
            }
        },
    }
}

/// Where the run of sentences starting at `pos` ends, and the sentences
/// it yields in order; each may be preceded by blank/comment lines.
pub open spec fn spec_sentences(ts: Seq<TokenV>, pos: int) -> (int, Seq<SentenceV>)
    decreases ts.len() - pos,
    via spec_sentences_dec
{
    let q1 = spec_skip_ws_nl(ts, pos);
    match spec_sentence(ts, q1) {
        Err(_) => (pos, Seq::empty()),
        Ok(sv) => {
            let rest = spec_sentences(ts, sv.0);
            (rest.0, seq![sv.1] + rest.1)
        },
    }
}

#[via_fn]
proof fn spec_sentences_dec(ts: Seq<TokenV>, pos: int) {
    lemma_skip_ws_nl_bounds(ts, pos);
    lemma_sentence_bounds(ts, spec_skip_ws_nl(ts, pos));
}

/// `spec_sentences` stops exactly where one more sentence cannot be read:
/// at its end position the next sentence parse fails.
pub proof fn lemma_sentences_fixpoint(ts: Seq<TokenV>, pos: int)
    ensures
        spec_sentence(ts, spec_skip_ws_nl(ts, spec_sentences(ts, pos).0)) matches Err(_),
    decreases ts.len() - pos,
{
    let q1 = spec_skip_ws_nl(ts, pos);
    match spec_sentence(ts, q1) {
        Err(_) => {},
        Ok(sv) => {
            lemma_skip_ws_nl_bounds(ts, pos);
            lemma_sentence_bounds(ts, q1);
            lemma_sentences_fixpoint(ts, sv.0);
        },
    }
}

fn sentences<'a>(inp: TokenList<'a>) -> (r: (TokenList<'a>, Vec<Sentence>))
    requires
        inp.wf(),
    ensures
        r.0.all() == inp.all(),
        r.0.wf(),
        r.0.pos_int() == spec_sentences(inp.all(), inp.pos_int()).0,
        r.1.deep_view() == spec_sentences(inp.all(), inp.pos_int()).1,
        r.0.pos_int() >= inp.pos_int(),
    decreases inp.all().len() - inp.pos_int(),
{
    let c1 = many0_newlines(inp);
    match sentence(c1) {
        Err(_) => {
            let v: Vec<Sentence> = Vec::new();
            proof {
                assert(v.deep_view() =~= Seq::<SentenceV>::empty());
            }
            (inp, v)
        },
        Ok((c2, s)) => {
            let (c3, mut ss) = sentences(c2);
            let ghost tail = ss.deep_view();
            ss.insert(0, s);
            proof {
                assert(ss.deep_view() =~= seq![s@] + tail);
            }
            (c3, ss)
        },
    }
}

/// Index of the first comma in `s`, or its length if none.
pub open spec fn first_comma(s: Seq<char>) -> int
    decreases s.len(),
{
    if s.len() == 0 {
        0
    } else if s[0] == ',' {
        0
    } else {
        1 + first_comma(s.skip(1))
    }
}

proof fn lemma_first_comma_le(s: Seq<char>)
    ensures
        0 <= first_comma(s) <= s.len(),
    decreases s.len(),
{
    if s.len() > 0 && s[0] != ',' {
        lemma_first_comma_le(s.skip(1));
    }
}

/// `s` split on commas, empty pieces kept: the comma-separated language
/// list of the `tranlations` metadata key.
pub open spec fn split_commas(s: Seq<char>) -> Seq<Seq<char>>
    decreases s.len(),
    via split_commas_dec
{
    let i = first_comma(s);
    if i == s.len() {
        seq![s]
    } else {
        seq![s.take(i)] + split_commas(s.skip(i + 1))
    }
}

#[via_fn]
proof fn split_commas_dec(s: Seq<char>) {
    lemma_first_comma_le(s);
}

fn first_comma_at(s: &str, j: usize, n: usize) -> (r: usize)
    requires
        n == s@.len(),
        j <= n,
    ensures
        r as int == j + first_comma(s@.skip(j as int)),
        j <= r <= n,
    decreases n - j,
{
    proof {
        lemma_first_comma_le(s@.skip(j as int));
    }
    if j < n {
        if s.get_char(j) == ',' {
            j
        } else {
            let r = first_comma_at(s, j + 1, n);
            proof {
                assert(s@.skip(j as int).skip(1) =~= s@.skip(j + 1 as int));
            }
            r
        }
    } else {
        j
    }
}

fn split_from(s: &str, i: usize, n: usize) -> (r: Vec<String>)
    requires
        n == s@.len(),
        i <= n,
    ensures
        r.deep_view() == split_commas(s@.skip(i as int)),
    decreases n - i,
{
    let c = first_comma_at(s, i, n);
    let piece = s.substring_char(i, c).to_owned();
    if c == n {
        let mut v: Vec<String> = Vec::new();
        v.push(piece);
        proof {
            assert(s@.skip(i as int).take(first_comma(s@.skip(i as int))) =~= s@.subrange(
                i as int,
                c as int,
            ));
            assert(s@.skip(i as int) =~= s@.subrange(i as int, c as int));
            assert(v.deep_view() =~= seq![s@.skip(i as int)]);
        }
        v
    } else {
        let mut v = split_from(s, c + 1, n);
        v.insert(0, piece);
        proof {
            let rem = s@.skip(i as int);
            assert(rem.take(first_comma(rem)) =~= s@.subrange(i as int, c as int));
            assert(rem.skip(first_comma(rem) + 1) =~= s@.skip(c + 1 as int));
            assert(v.deep_view() =~= seq![s@.subrange(i as int, c as int)] + split_commas(
                s@.skip(c + 1 as int),
            ));
        }
        v
    }
}

/// Split a string on commas, keeping empty pieces.
pub fn split_commas_str(s: &String) -> (r: Vec<String>)
    ensures
        r.deep_view() == split_commas(s@),
{
    let st = s.as_str();
    let n = st.unicode_len();
    let r = split_from(st, 0, n);
    proof {
        assert(st@.skip(0) =~= st@);
    }
    r
}

/// The chapter a leading attribute block and a sentence list describe.
/// Recognized metadata keys: `title`, `language`, `tranlations` (a
/// comma-separated language list; the spelling is preserved for
/// interoperability). The dictionary starts empty: the `dictionary` key
/// names a file the caller loads and parses separately. All keys stay
/// available in `attrs`.
pub open spec fn chapter_value(
    apairs: Seq<(Seq<char>, Seq<char>)>,
    ss: Seq<SentenceV>,
) -> ChapterV {
    let am = attrs_map(apairs);
    ChapterV {
        title: if am.contains_key("title"@) {
            am["title"@]
        } else {
            "Unnamed Chapter"@
        },
        language: if am.contains_key("language"@) {
            am["language"@]
        } else {
            "english"@
        },
        tl_languages: if am.contains_key("tranlations"@) {
            split_commas(am["tranlations"@])
        } else {
            Seq::empty()
        },
        dictionary: Map::empty(),
        sentences: ss,
        attrs: am,
    }
}

/// What the chapter rule yields: a leading attribute block, then
/// zero-or-more sentences. It never fails; unread residual input is the
/// caller's concern.
pub open spec fn spec_chapter(ts: Seq<TokenV>, pos: int) -> (int, ChapterV) {
    let at = spec_attrs(ts, pos);
    let sx = spec_sentences(ts, at.0);
    (sx.0, chapter_value(at.1, sx.1))
}

/// The whole chapter: file-level metadata and sentences.
pub fn chapter<'a>(inp: TokenList<'a>) -> (r: (TokenList<'a>, Chapter))
    requires
        inp.wf(),
    ensures
        r.0.all() == inp.all(),
        r.0.wf(),
        r.0.pos_int() == spec_chapter(inp.all(), inp.pos_int()).0,
        r.1@ == spec_chapter(inp.all(), inp.pos_int()).1,
        r.0.pos_int() >= inp.pos_int(),
{
    let (c1, am) = attrs(inp);
    let (c2, ss) = sentences(c1);
    let title = match am.get(&"title".to_owned()) {
        Some(v) => v.clone(),
        None => "Unnamed Chapter".to_owned(),
    };
    let language = match am.get(&"language".to_owned()) {
        Some(v) => v.clone(),
        None => "english".to_owned(),
    };
    let tl_languages = match am.get(&"tranlations".to_owned()) {
        Some(v) => split_commas_str(v),
        None => {
            let v: Vec<String> = Vec::new();
            proof {
                assert(v.deep_view() =~= Seq::<Seq<char>>::empty());
            }
            v
        },
    };
    let ch = Chapter {
        title,
        language,
        tl_languages,
        dictionary: StrMap::new(),
        sentences: ss,
        attrs: am,
    };
    proof {
        assert(ch@ =~~= spec_chapter(inp.all(), inp.pos_int()).1);
    }
    (c2, ch)
}

impl Chapter {
    /// Parse a whole chapter from text. The parse must consume the entire
    /// input; if tokens remain, the residual is re-parsed as one more
    /// sentence solely to surface a diagnostic at the exact failure point.
    pub fn from_text(s: &str) -> (r: Result<Chapter, ParseError>)
        ensures
            ({
                let ts = spec_tokenize(s@);
                let ch = spec_chapter(ts, 0);
                match r {
                    Ok(c) => ch.0 == ts.len() && c@ == ch.1,
                    Err(e) => ch.0 < ts.len() && (match spec_sentence(
                        ts,
                        spec_skip_ws_nl(ts, ch.0),
                    ) {
                        Err(me) => e@ == spec_parse_error(ts, me.pos, me.ty),
                        Ok(_) => false,
                    }),
                }
            }),
    {
        let tokens = get_tokens(s);
        let full = TokenList::new(&tokens);
        let (rest, ch) = chapter(full);
        if rest.is_empty() {
            Ok(ch)
        } else {
            let c1 = many0_newlines(rest);
            match sentence(c1) {
                Err(e) => {
                    let MatchErr { ty, pos } = e;
                    let errcur = full.advance(pos);
                    Err(ParseError::new(full, errcur, ty))
                },
                Ok(_) => {
                    proof {
                        lemma_sentences_fixpoint(full.all(), spec_attrs(full.all(), 0).0);
                        assert(false);
                    }
                    Err(ParseError::new(full, full, ParseErrorType::SyntaxError))
                },
            }
        }
    }
}

/// Left-to-right fold of key/value pairs into a dictionary: each value
/// becomes a one-meaning list; a later pair with an existing key
/// overwrites the earlier one.
pub open spec fn dict_map_from(
    m: Map<Seq<char>, Seq<Seq<char>>>,
    ps: Seq<(Seq<char>, Seq<char>)>,
) -> Map<Seq<char>, Seq<Seq<char>>>
    decreases ps.len(),
{
    if ps.len() == 0 {
        m
    } else {
        dict_map_from(m.insert(ps[0].0, seq![ps[0].1]), ps.skip(1))
    }
}

/// The dictionary a pair sequence collects into.
pub open spec fn dict_map(ps: Seq<(Seq<char>, Seq<char>)>) -> Map<Seq<char>, Seq<Seq<char>>> {
    dict_map_from(Map::empty(), ps)
}

/// Parse a dictionary file's text: `key = value` lines, blank and comment
/// lines tolerated, each pair one meaning. Errors are non-fatal: the pairs
/// read so far stand, and the diagnostic for the first unreadable line is
/// returned beside them.
pub fn parse_dictionary(src: &str) -> (r: (StrMap<Vec<String>>, Option<ParseError>))
    ensures
        ({
            let ts = spec_tokenize(src@);
            let at = spec_attrs(ts, 0);
            let p2 = spec_skip_ws_nl(ts, at.0);
            r.0@ == dict_map(at.1) && (match r.1 {
                None => p2 == ts.len(),
                Some(e) => p2 < ts.len() && (match spec_key_val(ts, p2) {
                    Err(me) => e@ == spec_parse_error(ts, me.pos, me.ty),
                    Ok(kv) => (match spec_many1_newlines(ts, kv.0) {
                        Err(me) => e@ == spec_parse_error(ts, me.pos, me.ty),
                        Ok(_) => false,
                    }),
                }),
            })
        }),
{
    let tokens = get_tokens(src);
    let full = TokenList::new(&tokens);
    let (c1, ps) = attr_pairs(full);
    let ghost allp = pairs_view(ps@);

    let mut dict: StrMap<Vec<String>> = StrMap::new();
    let mut i: usize = 0;
    let n = ps.len();
    proof {
        assert(allp.skip(0) =~= allp);
    }
    while i < n
        invariant
            i <= n,
            n == ps@.len(),
            allp == pairs_view(ps@),
            allp.len() == n,
            dict_map(allp) == dict_map_from(dict@, allp.skip(i as int)),
        decreases n - i,
    {
        let k = ps[i].0.clone();
        let v = ps[i].1.clone();
        let mut one: Vec<String> = Vec::new();
        one.push(v);
        let ghost onev = one.deep_view();
        dict.insert(k, one);
        proof {
            assert(onev =~= seq![allp[i as int].1]);
            assert(allp.skip(i as int)[0] == allp[i as int]);
            assert(allp.skip(i as int).skip(1) =~= allp.skip(i + 1 as int));
        }
        i = i + 1;
    }
    proof {
        assert(allp.skip(n as int) =~= Seq::<(Seq<char>, Seq<char>)>::empty());
    }

    let c2 = many0_newlines(c1);
    if c2.is_empty() {
        (dict, None)
    } else {
        proof {
            lemma_attrs_fixpoint(full.all(), 0);
        }
        match key_val(c2) {
            Err(e) => {
                let MatchErr { ty, pos } = e;
                let errcur = full.advance(pos);
                (dict, Some(ParseError::new(full, errcur, ty)))
            },
            Ok((c3, _)) => {
                match many1_newlines(c3) {
                    Err(e) => {
                        let MatchErr { ty, pos } = e;
                        let errcur = full.advance(pos);
                        (dict, Some(ParseError::new(full, errcur, ty)))
                    },
                    Ok(_) => {
                        proof {
                            assert(false);
                        }
                        (dict, None)
                    },
                }
            },
        }
    }
}

} // verus!
