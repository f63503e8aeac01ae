use interlinear::components::{err_ctx, many1_newlines, string_val};
use interlinear::errors::ParseErrorType;
use interlinear::parser::{attrs, dict_meaning, key_val, linetag, org_frag_dict, original_sentence};
use interlinear::syntax::OrgFragment;
use interlinear::tokenizer::{get_tokens, Token, TokenList, TokenType};

fn toks(txt: &str) -> Vec<Token> {
    get_tokens(txt)
}

#[test]
fn string_val_plain() {
    let tk = toks("my name is");
    let (rest, s) = string_val(TokenList::new(&tk)).unwrap();
    assert!(rest.is_empty());
    assert_eq!(s, "my name is");
}

#[test]
fn string_val_stops_at_tag() {
    let tk = toks("@what the hell");
    assert!(string_val(TokenList::new(&tk)).is_err());
}

#[test]
fn string_val_unicode() {
    let tk = toks("यो काम गर्छ र");
    let (rest, s) = string_val(TokenList::new(&tk)).unwrap();
    assert!(rest.is_empty());
    assert_eq!(s, "यो काम गर्छ र");
}

#[test]
fn string_val_empty_input_incomplete() {
    let tk = toks("");
    let e = string_val(TokenList::new(&tk)).unwrap_err();
    assert_eq!(e.ty, ParseErrorType::Incomplete);
    assert_eq!(e.pos, 0);
}

#[test]
fn string_val_mismatch_reports_found_kind() {
    let tk = toks("=x");
    let e = string_val(TokenList::new(&tk)).unwrap_err();
    assert_eq!(e.ty, ParseErrorType::TokenMismatch(TokenType::Equal));
}

#[test]
fn many1_newlines_requires_a_terminator() {
    let tk = toks("   ");
    assert!(many1_newlines(TokenList::new(&tk)).is_err());
    let tk2 = toks("  \n\n # c\n x");
    let (rest, _) = many1_newlines(TokenList::new(&tk2)).unwrap();
    // The trailing space before 'x' stays unconsumed.
    assert_eq!(rest.len(), 2);
}

#[test]
fn linetag_basic() {
    let tk = toks("@s1\n");
    let (rest, label) = linetag(TokenList::new(&tk)).unwrap();
    assert!(rest.is_empty());
    assert_eq!(label, "s1");
}

#[test]
fn linetag_trims_label() {
    let tk = toks("@  name \n");
    let (_, label) = linetag(TokenList::new(&tk)).unwrap();
    assert_eq!(label, "name");
}

#[test]
fn key_val_basic() {
    let tk = toks("a = b");
    let (rest, (k, v)) = key_val(TokenList::new(&tk)).unwrap();
    assert!(rest.is_empty());
    assert_eq!(k, "a");
    assert_eq!(v, "b");
}

#[test]
fn key_val_unicode_no_spaces() {
    let tk = toks("काम=work");
    let (rest, (k, v)) = key_val(TokenList::new(&tk)).unwrap();
    assert!(rest.is_empty());
    assert_eq!(k, "काम");
    assert_eq!(v, "work");
}

#[test]
fn dict_meaning_basic() {
    let tk = toks("a = b");
    let (rest, f) = dict_meaning(TokenList::new(&tk)).unwrap();
    assert!(rest.is_empty());
    assert_eq!(
        f,
        OrgFragment::Meaning(String::from("a"), vec![String::from("b")])
    );
}

#[test]
fn dict_meaning_needs_equal() {
    let tk = toks("a");
    assert!(dict_meaning(TokenList::new(&tk)).is_err());
}

#[test]
fn dict_meaning_unicode() {
    let tk = toks("काम=work");
    let (rest, f) = dict_meaning(TokenList::new(&tk)).unwrap();
    assert!(rest.is_empty());
    assert_eq!(
        f,
        OrgFragment::Meaning(String::from("काम"), vec![String::from("work")])
    );
}

#[test]
fn annotation_with_meanings() {
    let tk = toks("<<word = a;b>>");
    let (rest, f) = org_frag_dict(TokenList::new(&tk)).unwrap();
    assert!(rest.is_empty());
    assert_eq!(
        f,
        OrgFragment::Meaning(
            String::from("word"),
            vec![String::from("a"), String::from("b")]
        )
    );
}

#[test]
fn annotation_bare_word_is_lookup() {
    let tk = toks("<<word>>");
    let (rest, f) = org_frag_dict(TokenList::new(&tk)).unwrap();
    assert!(rest.is_empty());
    assert_eq!(f, OrgFragment::DictLookup(String::from("word")));
}

#[test]
fn annotation_rejects_leading_text() {
    let tk = toks("x <<a>>");
    assert!(org_frag_dict(TokenList::new(&tk)).is_err());
}

#[test]
fn org_frag_simple_forms() {
    for txt in ["<<abb>>", "<< ab b>>", "<< a = b>>", "<< a = b >>", "<<何か>>", "<<काम=work>>"] {
        let tk = toks(txt);
        let (rest, _) = org_frag_dict(TokenList::new(&tk)).unwrap();
        assert!(rest.is_empty(), "residual input for {txt}");
    }
}

#[test]
fn org_frag_spaced_lookup_trims() {
    let tk = toks("<< ab b>>");
    let (_, f) = org_frag_dict(TokenList::new(&tk)).unwrap();
    assert_eq!(f, OrgFragment::DictLookup(String::from("ab b")));
}

#[test]
fn original_sentence_plain() {
    let tk = toks("my name is\n");
    let (rest, frags) = original_sentence(TokenList::new(&tk)).unwrap();
    assert!(rest.is_empty());
    assert_eq!(frags, vec![OrgFragment::Simple(String::from("my name is"))]);
}

#[test]
fn original_sentence_needs_tagless_line() {
    let tk = toks("@what\n");
    assert!(original_sentence(TokenList::new(&tk)).is_err());
}

#[test]
fn original_sentence_mixed_fragments() {
    let tk = toks("Hello <<world>> out there\n");
    let (rest, frags) = original_sentence(TokenList::new(&tk)).unwrap();
    assert!(rest.is_empty());
    assert_eq!(
        frags,
        vec![
            OrgFragment::Simple(String::from("Hello ")),
            OrgFragment::DictLookup(String::from("world")),
            OrgFragment::Simple(String::from(" out there")),
        ]
    );
}

#[test]
fn original_sentence_empty_line_is_valid() {
    let tk = toks("\n");
    let (rest, frags) = original_sentence(TokenList::new(&tk)).unwrap();
    assert!(rest.is_empty());
    assert!(frags.is_empty());
}

#[test]
fn attrs_last_write_wins() {
    let tk = toks("a = 1\na = 2\n");
    let (rest, m) = attrs(TokenList::new(&tk));
    assert!(rest.is_empty());
    assert_eq!(m.get(&String::from("a")), Some(&String::from("2")));
    assert_eq!(m.get(&String::from("b")), None);
}

#[test]
fn attrs_tolerates_blank_and_comment_lines() {
    let tk = toks("\n# header\na = 1\n\n# mid\nb = 2\n");
    let (rest, m) = attrs(TokenList::new(&tk));
    assert!(rest.is_empty());
    assert_eq!(m.get(&String::from("a")), Some(&String::from("1")));
    assert_eq!(m.get(&String::from("b")), Some(&String::from("2")));
}

#[test]
fn err_ctx_retags_failures_only() {
    let tk = toks("x");
    let inp = TokenList::new(&tk);
    let failed = org_frag_dict(inp);
    let out = err_ctx(ParseErrorType::Unclosed(String::from(">>")), failed);
    let e = out.unwrap_err();
    assert_eq!(e.ty, ParseErrorType::Unclosed(String::from(">>")));
    assert_eq!(e.pos, 0);
    let tk2 = toks("<<a>>");
    let ok = err_ctx(
        ParseErrorType::SyntaxError,
        org_frag_dict(TokenList::new(&tk2)),
    );
    let (rest, f) = ok.unwrap();
    assert!(rest.is_empty());
    assert_eq!(f, OrgFragment::DictLookup(String::from("a")));
}

#[test]
fn cursor_find_kind() {
    let tk = toks("ab=c");
    let cur = TokenList::new(&tk);
    assert_eq!(cur.find_kind(TokenType::Equal), Some(2));
    assert_eq!(cur.find_kind(TokenType::At), None);
    assert_eq!(cur.advance(3).find_kind(TokenType::Equal), None);
}

#[test]
fn attrs_stops_before_non_pair() {
    let tk = toks("a = 1\n@s1\n");
    let (rest, m) = attrs(TokenList::new(&tk));
    assert_eq!(m.get(&String::from("a")), Some(&String::from("1")));
    assert!(!rest.is_empty());
}
