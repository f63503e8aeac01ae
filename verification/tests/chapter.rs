use interlinear::errors::{MatchErr, ParseError, ParseErrorType};
use interlinear::parser::parse_dictionary;
use interlinear::syntax::{Chapter, OrgFragment};
use interlinear::tokenizer::{get_tokens, TokenList, TokenType};

#[test]
fn end_to_end_scenario() {
    let text = "title = Demo\n\n@s1\nHello <<world>>\n---\nBonjour\n";
    let chap = Chapter::from_text(text).unwrap();
    assert_eq!(chap.title, "Demo");
    assert_eq!(chap.language, "english");
    assert_eq!(chap.sentences.len(), 1);
    let s = &chap.sentences[0];
    assert_eq!(s.label, "s1");
    assert_eq!(
        s.original,
        vec![
            OrgFragment::Simple(String::from("Hello ")),
            OrgFragment::DictLookup(String::from("world")),
        ]
    );
    let tl = s.translations.get(&String::from("0")).unwrap();
    assert_eq!(tl.content, "Bonjour");
    assert!(tl.attrs.is_empty());
    assert_eq!(chap.attrs.get(&String::from("title")), Some(&String::from("Demo")));
}

#[test]
fn incomplete_input_diagnostic() {
    let e = Chapter::from_text("@s1\n").unwrap_err();
    assert_eq!(e.ty, ParseErrorType::Incomplete);
    assert_eq!(e.line, 2);
    assert_eq!(e.col, 1);
    assert_eq!(e.linestr, "");
}

#[test]
fn diagnostic_points_at_failing_column() {
    // The second sentence's annotation is never closed: the parse of the
    // residual reports the exact line of the failure.
    let e = Chapter::from_text("@s1\nok\n@s2\n<<x\n").unwrap_err();
    assert!(e.line >= 3);
}

#[test]
fn default_title_and_language() {
    let chap = Chapter::from_text("@s1\nhello\n").unwrap();
    assert_eq!(chap.title, "Unnamed Chapter");
    assert_eq!(chap.language, "english");
    assert!(chap.dictionary.is_empty());
}

#[test]
fn translation_language_list_is_split_on_commas() {
    let chap = Chapter::from_text("tranlations = fr,de, en\n").unwrap();
    assert_eq!(
        chap.tl_languages,
        vec![String::from("fr"), String::from("de"), String::from(" en")]
    );
}

#[test]
fn labelled_and_indexed_translations() {
    let text = "@s1\nhola\n--- formal\nHello\n---\nHi\n";
    let chap = Chapter::from_text(text).unwrap();
    let s = &chap.sentences[0];
    assert_eq!(
        s.translations.get(&String::from("formal")).unwrap().content,
        "Hello"
    );
    // The unlabelled separator is filed under its occurrence index.
    assert_eq!(s.translations.get(&String::from("1")).unwrap().content, "Hi");
}

#[test]
fn translation_attrs_block() {
    let text = "@s1\nhola\n---\nHello\nspeaker = bob\n";
    let chap = Chapter::from_text(text).unwrap();
    let tl = chap.sentences[0].translations.get(&String::from("0")).unwrap();
    assert_eq!(tl.content, "Hello");
    assert_eq!(tl.attrs.get(&String::from("speaker")), Some(&String::from("bob")));
}

#[test]
fn sentence_attrs_block() {
    let text = "@s1\nhola\nmood = formal\n";
    let chap = Chapter::from_text(text).unwrap();
    assert_eq!(
        chap.sentences[0].orgattrs.get(&String::from("mood")),
        Some(&String::from("formal"))
    );
}

#[test]
fn resolution_lookup_uses_dictionary() {
    let mut chap = Chapter::from_text("@s1\n<<x = m1>>\n@s2\n<<x>>\n").unwrap();
    chap.process();
    assert_eq!(
        chap.dictionary.get(&String::from("x")),
        Some(&vec![String::from("m1")])
    );
    assert_eq!(
        chap.sentences[1].original[0],
        OrgFragment::Meaning(String::from("x"), vec![String::from("m1")])
    );
}

#[test]
fn resolution_first_definition_wins() {
    let text = "@s1\n<<x = m1>>\n@s2\n<<x = m2>>\n@s3\n<<x>>\n";
    let mut chap = Chapter::from_text(text).unwrap();
    chap.process();
    // The dictionary keeps the first definition everywhere, including at
    // a lookup after the second, different definition.
    assert_eq!(
        chap.dictionary.get(&String::from("x")),
        Some(&vec![String::from("m1")])
    );
    assert_eq!(
        chap.sentences[2].original[0],
        OrgFragment::Meaning(String::from("x"), vec![String::from("m1")])
    );
}

#[test]
fn resolution_unknown_word_stays_lookup() {
    let mut chap = Chapter::from_text("@s1\n<<ghost>>\n").unwrap();
    chap.process();
    assert_eq!(
        chap.sentences[0].original[0],
        OrgFragment::DictLookup(String::from("ghost"))
    );
}

#[test]
fn resolution_is_idempotent() {
    let text = "title = T\n@s1\nHello <<x = m1>> and <<y>>\n@s2\n<<x>> again\n---\nhi\n";
    let mut once = Chapter::from_text(text).unwrap();
    once.process();
    let mut twice = once.clone();
    twice.process();
    assert_eq!(once, twice);
}

#[test]
fn dictionary_text_parses_pairs() {
    let (dict, err) = parse_dictionary("# glossary\nhola = hello\nmundo = world\n");
    assert!(err.is_none());
    assert_eq!(dict.get(&String::from("hola")), Some(&vec![String::from("hello")]));
    assert_eq!(dict.get(&String::from("mundo")), Some(&vec![String::from("world")]));
}

#[test]
fn dictionary_text_bad_line_is_reported_but_not_fatal() {
    let (dict, err) = parse_dictionary("hola = hello\n@@@\n");
    assert_eq!(dict.get(&String::from("hola")), Some(&vec![String::from("hello")]));
    let e = err.unwrap();
    assert_eq!(e.line, 2);
}

#[test]
fn dictionary_text_missing_terminator_is_reported() {
    let (dict, err) = parse_dictionary("a = b\nc = d");
    assert_eq!(dict.get(&String::from("a")), Some(&vec![String::from("b")]));
    assert!(err.is_some());
}

#[test]
fn parse_error_position_from_tokens() {
    let tk = get_tokens("ab\ncd ef\n");
    let full = TokenList::new(&tk);
    // Fail at the token for "e": line 2, after "cd " (3 characters).
    let mut pos: usize = 0;
    let mut seen: usize = 0;
    for (i, t) in tk.iter().enumerate() {
        if t.text == "e" {
            pos = i;
            seen += 1;
        }
    }
    assert_eq!(seen, 1);
    let rest = full.advance(pos);
    let e = ParseError::new(full, rest, ParseErrorType::SyntaxError);
    assert_eq!(e.line, 2);
    assert_eq!(e.col, 4);
    assert_eq!(e.linestr, "cd ef");
}

#[test]
fn user_msg_formats_position_and_caret() {
    let e = Chapter::from_text("@s1\n").unwrap_err();
    assert_eq!(
        e.user_msg(None),
        "Error: Parse Error at Line 2 Column 1\n  \n  ^ Incomplete: Parser ran out of inputs"
    );
    assert_eq!(
        e.user_msg(Some("chap.txt")),
        "Error: Parse Error at Line 2 Column 1\n  -> chap.txt:2:1\n  \n  ^ Incomplete: Parser ran out of inputs"
    );
}

#[test]
fn user_msg_custom_bypasses_position() {
    let e = ParseError {
        ty: ParseErrorType::Custom(String::from("just text")),
        line: 7,
        col: 9,
        linestr: String::from("ignored"),
    };
    assert_eq!(e.user_msg(None), "just text");
    assert_eq!(e.user_msg(Some("f")), "just text  -> f\n");
}

#[test]
fn error_messages_by_category() {
    assert_eq!(
        ParseErrorType::Incomplete.message(),
        "Incomplete: Parser ran out of inputs"
    );
    assert_eq!(ParseErrorType::SyntaxError.message(), "SyntaxError: Invalid Syntax");
    assert_eq!(
        ParseErrorType::TokenMismatch(TokenType::Char).message(),
        "TokenMismatch: Char unexpected here"
    );
    assert_eq!(
        ParseErrorType::Unclosed(String::from(">>")).message(),
        "Unclosed: Missing closing token \">>\""
    );
    assert_eq!(
        ParseErrorType::LogicalError(String::from("oops")).message(),
        "LogicalError: oops, please contact dev"
    );
    assert_eq!(ParseErrorType::Custom(String::from("hi")).message(), "hi");
}

#[test]
fn match_err_retagging() {
    let tk = get_tokens("x");
    let inp = TokenList::new(&tk);
    let e = MatchErr::new(inp);
    assert_eq!(e.ty, ParseErrorType::SyntaxError);
    assert_eq!(e.pos, 0);
    let e2 = e.ty(ParseErrorType::Incomplete);
    assert_eq!(e2.ty, ParseErrorType::Incomplete);
    assert_eq!(e2.pos, 0);
}

#[test]
fn comment_only_chapter_is_rejected() {
    // The attribute block backtracks over the comment line it skipped, so
    // the comment is residual input and the re-parse reports where a
    // sentence would have to start.
    let e = Chapter::from_text("# nothing here\n").unwrap_err();
    assert_eq!(e.ty, ParseErrorType::Incomplete);
    assert_eq!(e.line, 2);
    assert_eq!(e.col, 1);
}

#[test]
fn empty_input_is_empty_chapter() {
    let chap = Chapter::from_text("").unwrap();
    assert!(chap.sentences.is_empty());
    assert_eq!(chap.title, "Unnamed Chapter");
}

#[test]
fn windows_line_endings_accepted() {
    let chap = Chapter::from_text("title = W\r\n@s1\r\nhello\r\n").unwrap();
    assert_eq!(chap.title, "W");
    assert_eq!(chap.sentences[0].label, "s1");
}
