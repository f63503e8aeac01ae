use interlinear::tokenizer::{get_tokens, TokenType};

fn concat_texts(txt: &str) -> String {
    let toks = get_tokens(txt);
    let mut s = String::new();
    for t in &toks {
        s.push_str(&t.text);
    }
    s
}

#[test]
fn whitespace_single_space() {
    let toks = get_tokens(" ");
    assert_eq!(toks.len(), 1);
    assert_eq!(toks[0].ty, TokenType::WhiteSpace);
    assert_eq!(toks[0].text, " ");
}

#[test]
fn whitespace_tab() {
    let toks = get_tokens("\t");
    assert_eq!(toks.len(), 1);
    assert_eq!(toks[0].ty, TokenType::WhiteSpace);
}

#[test]
fn whitespace_run_is_one_token() {
    let toks = get_tokens("   \n");
    assert_eq!(toks.len(), 2);
    assert_eq!(toks[0].ty, TokenType::WhiteSpace);
    assert_eq!(toks[0].text, "   ");
    assert_eq!(toks[1].ty, TokenType::NewLine);
}

#[test]
fn comment_runs_to_end_of_input() {
    let toks = get_tokens("# comment");
    assert_eq!(toks.len(), 1);
    assert_eq!(toks[0].ty, TokenType::Comment);
    assert_eq!(toks[0].text, "# comment");
}

#[test]
fn comment_stops_at_newline() {
    let toks = get_tokens("# comment\n");
    assert_eq!(toks.len(), 2);
    assert_eq!(toks[0].ty, TokenType::Comment);
    assert_eq!(toks[0].text, "# comment");
    assert_eq!(toks[1].ty, TokenType::NewLine);
}

#[test]
fn comment_then_more_text() {
    let toks = get_tokens("# comment\n123");
    assert_eq!(toks[0].ty, TokenType::Comment);
    assert_eq!(toks[1].ty, TokenType::NewLine);
    assert_eq!(toks[2].ty, TokenType::Char);
    assert_eq!(toks.len(), 5);
}

#[test]
fn newline_unix() {
    let toks = get_tokens("\n");
    assert_eq!(toks.len(), 1);
    assert_eq!(toks[0].ty, TokenType::NewLine);
}

#[test]
fn newline_windows_is_one_token() {
    let toks = get_tokens("\r\n");
    assert_eq!(toks.len(), 1);
    assert_eq!(toks[0].ty, TokenType::NewLine);
    assert_eq!(toks[0].text, "\r\n");
}

#[test]
fn newline_reversed_pair_is_one_token() {
    let toks = get_tokens("\n\r");
    assert_eq!(toks.len(), 1);
    assert_eq!(toks[0].ty, TokenType::NewLine);
}

#[test]
fn lone_carriage_return_is_char() {
    let toks = get_tokens("\rx");
    assert_eq!(toks[0].ty, TokenType::Char);
    assert_eq!(toks[0].text, "\r");
}

#[test]
fn escaped_backslash_before_newline() {
    let toks = get_tokens("\\\n");
    assert_eq!(toks[0].ty, TokenType::Char);
    assert_eq!(toks[0].text, "\\");
    assert_eq!(toks[1].ty, TokenType::NewLine);
}

#[test]
fn symbols_classified() {
    let toks = get_tokens("<<>>@=;---");
    let kinds: Vec<TokenType> = toks.iter().map(|t| t.ty).collect();
    assert_eq!(
        kinds,
        vec![
            TokenType::AngleStart,
            TokenType::AngleEnd,
            TokenType::At,
            TokenType::Equal,
            TokenType::Semicolon,
            TokenType::Dash,
        ]
    );
}

#[test]
fn short_dash_runs_are_chars() {
    let toks = get_tokens("--");
    assert_eq!(toks.len(), 2);
    assert_eq!(toks[0].ty, TokenType::Char);
    assert_eq!(toks[1].ty, TokenType::Char);
}

#[test]
fn single_angle_is_char() {
    let toks = get_tokens("<a>");
    assert_eq!(toks[0].ty, TokenType::Char);
    assert_eq!(toks[1].ty, TokenType::Char);
    assert_eq!(toks[2].ty, TokenType::Char);
}

#[test]
fn plain_text_starts_with_char() {
    let toks = get_tokens("my name is");
    assert_eq!(toks[0].ty, TokenType::Char);
}

#[test]
fn at_sign_starts_tag() {
    let toks = get_tokens("@what the hell");
    assert_eq!(toks[0].ty, TokenType::At);
}

#[test]
fn unicode_text_is_chars() {
    let toks = get_tokens("何か?");
    assert_eq!(toks[0].ty, TokenType::Char);
    assert_eq!(toks[0].text, "何");
    assert_eq!(toks.len(), 3);
}

#[test]
fn devanagari_text_lexes() {
    let toks = get_tokens("यो काम गर्छ र");
    assert_eq!(toks[0].ty, TokenType::Char);
}

#[test]
fn lossless_plain() {
    let txt = "my name is";
    assert_eq!(concat_texts(txt), txt);
}

#[test]
fn lossless_mixed_symbols() {
    let txt = "title = Demo\n\n@s1\nHello <<world>>\n---\nBonjour\n# note\r\n\t --- -- ;";
    assert_eq!(concat_texts(txt), txt);
}

#[test]
fn lossless_unicode() {
    let txt = "यो काम गर्छ र\n何か?<<काम=work>>";
    assert_eq!(concat_texts(txt), txt);
}

#[test]
fn lossless_empty() {
    assert_eq!(concat_texts(""), "");
}
