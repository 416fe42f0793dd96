use septic::document::{Attribute, Section, SyntaxError, SyntaxErrorKind, ValueKind};
use septic::layout::{roles, Role};
use septic::lexer::tokenize;
use septic::parser::{next_step, parse, Effect, Mode, Parser};
use septic::position::{
    advance_position, byte_offset_at, offset_at, position_at, step_position, width, Position,
};
use septic::text::{chars_of, same_range};
use septic::token::{Token, TokenKind};

fn kinds(input: &str) -> Vec<TokenKind> {
    tokenize(&chars_of(input)).iter().map(|t| t.kind).collect()
}

fn texts(input: &str) -> Vec<String> {
    let text = chars_of(input);
    tokenize(&text).iter().map(|t| text[t.start..t.end].iter().collect()).collect()
}

fn pos(line: usize, character: usize) -> Position {
    Position { line, character }
}

#[test]
fn every_kind_of_token_is_read() {
    assert_eq!(
        kinds("name \"s\" 12 { } [ ] = , // c\n/* b */ ^"),
        vec![
            TokenKind::Identifier,
            TokenKind::Str,
            TokenKind::Number,
            TokenKind::LeftBrace,
            TokenKind::RightBrace,
            TokenKind::LeftBracket,
            TokenKind::RightBracket,
            TokenKind::Equals,
            TokenKind::Comma,
            TokenKind::LineComment,
            TokenKind::BlockComment,
            TokenKind::Error,
        ]
    );
}

#[test]
fn tokens_carry_offsets_and_positions() {
    let text = chars_of("é = 1\n  b");
    let tokens = tokenize(&text);
    assert_eq!(
        tokens,
        vec![
            Token {
                kind: TokenKind::Error,
                trivia_start: 0,
                start: 0,
                end: 1,
                start_pos: pos(0, 0),
                end_pos: pos(0, 1),
            },
            Token {
                kind: TokenKind::Equals,
                trivia_start: 1,
                start: 2,
                end: 3,
                start_pos: pos(0, 2),
                end_pos: pos(0, 3),
            },
            Token {
                kind: TokenKind::Number,
                trivia_start: 3,
                start: 4,
                end: 5,
                start_pos: pos(0, 4),
                end_pos: pos(0, 5),
            },
            Token {
                kind: TokenKind::Identifier,
                trivia_start: 5,
                start: 8,
                end: 9,
                start_pos: pos(1, 2),
                end_pos: pos(1, 3),
            },
        ]
    );
}

#[test]
fn numbers_and_names() {
    assert_eq!(texts("12 -3 4.5 -6.25 7. .8 - a1_b _x 9z"), vec![
        "12", "-3", "4.5", "-6.25", "7", ".", ".", "8", "-", "a1_b", "_x", "9", "z"
    ]);
    assert_eq!(
        kinds("7. - a1_b"),
        vec![TokenKind::Number, TokenKind::Error, TokenKind::Error, TokenKind::Identifier]
    );
}

#[test]
fn strings_and_escapes() {
    assert_eq!(kinds("\"\" \"a b\" \"q\\\"q\" \"n\\n\\t\\r\\\\\""), vec![TokenKind::Str; 4]);
    assert_eq!(texts("\"a b\"x"), vec!["\"a b\"", "x"]);
}

#[test]
fn open_string_ends_with_its_line() {
    assert_eq!(texts("a = \"open x\nb = 1"), vec!["a", "=", "\"open x", "b", "=", "1"]);
    assert_eq!(
        kinds("a = \"open x\nb = 1"),
        vec![
            TokenKind::Identifier,
            TokenKind::Equals,
            TokenKind::Error,
            TokenKind::Identifier,
            TokenKind::Equals,
            TokenKind::Number,
        ]
    );
    assert_eq!(texts("\"open"), vec!["\"open"]);
    assert_eq!(kinds("\"open"), vec![TokenKind::Error]);
}

#[test]
fn unknown_escape_ends_with_its_line() {
    assert_eq!(texts("\"a\\qb\" c\nd"), vec!["\"a\\qb\" c", "d"]);
    assert_eq!(kinds("\"a\\qb\" c\nd"), vec![TokenKind::Error, TokenKind::Identifier]);
    assert_eq!(kinds("\"a\\"), vec![TokenKind::Error]);
}

#[test]
fn comments() {
    assert_eq!(texts("a // b c\nd /* e\nf */ g"), vec!["a", "// b c", "d", "/* e\nf */", "g"]);
    assert_eq!(kinds("/* open"), vec![TokenKind::Error]);
    assert_eq!(texts("/* open\nmore"), vec!["/* open\nmore"]);
    assert_eq!(kinds("/ /"), vec![TokenKind::Error, TokenKind::Error]);
    assert_eq!(kinds("/*/"), vec![TokenKind::Error]);
    assert_eq!(kinds("/**/"), vec![TokenKind::BlockComment]);
}

#[test]
fn empty_and_blank_texts_have_no_tokens() {
    assert!(tokenize(&chars_of("")).is_empty());
    assert!(tokenize(&chars_of(" \t\r\n ")).is_empty());
}

#[test]
fn positions_count_code_points() {
    let text = chars_of("aé\n✓b");
    assert_eq!(position_at(&text, 0), Some(pos(0, 0)));
    assert_eq!(position_at(&text, 2), Some(pos(0, 2)));
    assert_eq!(position_at(&text, 3), Some(pos(1, 0)));
    assert_eq!(position_at(&text, 5), Some(pos(1, 2)));
    assert_eq!(position_at(&text, 6), None);
    assert_eq!(offset_at(&text, pos(0, 0)), Some(0));
    assert_eq!(offset_at(&text, pos(0, 2)), Some(2));
    assert_eq!(offset_at(&text, pos(1, 1)), Some(4));
    assert_eq!(offset_at(&text, pos(1, 2)), Some(5));
    assert_eq!(offset_at(&text, pos(0, 3)), None);
    assert_eq!(offset_at(&text, pos(1, 3)), None);
    assert_eq!(offset_at(&text, pos(2, 0)), None);
}

#[test]
fn offsets_and_positions_convert_back() {
    let text = chars_of("ab\n\ncd\n");
    for offset in 0..=text.len() {
        let p = position_at(&text, offset).expect("inside the text");
        assert_eq!(offset_at(&text, p), Some(offset));
    }
    assert_eq!(position_at(&text, 7), Some(pos(3, 0)));
    assert_eq!(advance_position(&text, 1, 4, pos(0, 1)), pos(2, 0));
    assert_eq!(step_position(pos(4, 7), '\n'), pos(5, 0));
    assert_eq!(step_position(pos(4, 7), 'x'), pos(4, 8));
}

#[test]
fn stretches_of_text_compare() {
    let a = chars_of("xabcx");
    let b = chars_of("abc");
    assert!(same_range(&a, 1, 4, &b, 0, 3));
    assert!(!same_range(&a, 0, 3, &b, 0, 3));
    assert!(!same_range(&a, 1, 3, &b, 0, 3));
    assert!(same_range(&a, 2, 2, &b, 3, 3));
}

#[test]
fn a_document_is_an_arena() {
    let doc = parse(&tokenize(&chars_of("A main { x = 1, y = [a, 2] B { z = \"s\" } } C {}")));
    assert!(doc.errors.is_empty());
    assert_eq!(
        doc.sections,
        vec![
            Section {
                kind: 0,
                name: 1,
                open: 2,
                close: Some(20),
                parent: None,
                depth: 0,
                has_comment: false,
            },
            Section {
                kind: 14,
                name: 14,
                open: 15,
                close: Some(19),
                parent: Some(0),
                depth: 1,
                has_comment: false,
            },
            Section {
                kind: 21,
                name: 21,
                open: 22,
                close: Some(23),
                parent: None,
                depth: 0,
                has_comment: false,
            },
        ]
    );
    assert_eq!(
        doc.attributes,
        vec![
            Attribute { section: 0, key: 3, value: ValueKind::Number, first: 5, last: 5 },
            Attribute { section: 0, key: 7, value: ValueKind::List, first: 9, last: 13 },
            Attribute { section: 1, key: 16, value: ValueKind::Str, first: 18, last: 18 },
        ]
    );
}

#[test]
fn comments_mark_their_section() {
    let doc = parse(&tokenize(&chars_of("// top\nA { B { /* in */ } } C { x = y }")));
    assert!(doc.errors.is_empty());
    let marks: Vec<bool> = doc.sections.iter().map(|s| s.has_comment).collect();
    assert_eq!(marks, vec![false, true, false]);
}

#[test]
fn the_parser_goes_on_behind_an_error() {
    let doc = parse(&tokenize(&chars_of("A { a = = 1 b = 2 } B { { x } c = 3 } D E F { }")));
    assert_eq!(
        doc.errors,
        vec![
            SyntaxError { token: 4, kind: SyntaxErrorKind::UnexpectedToken },
            SyntaxError { token: 12, kind: SyntaxErrorKind::UnexpectedToken },
            SyntaxError { token: 21, kind: SyntaxErrorKind::UnexpectedToken },
        ]
    );
    let keys: Vec<usize> = doc.attributes.iter().map(|a| a.key).collect();
    assert_eq!(keys, vec![6, 15]);
    assert_eq!(doc.sections.len(), 3);
    assert_eq!(doc.sections[2].kind, 21);
    assert_eq!(doc.sections[2].close, Some(23));
}

#[test]
fn lists_need_commas() {
    let errors = |input: &str| parse(&tokenize(&chars_of(input))).errors;
    assert!(errors("A { v = [] w = [1] x = [1, 2,] }").is_empty());
    assert_eq!(
        errors("A { v = [1 2] }"),
        vec![SyntaxError { token: 6, kind: SyntaxErrorKind::UnexpectedToken }]
    );
    assert_eq!(
        errors("A { v = [,] }"),
        vec![
            SyntaxError { token: 5, kind: SyntaxErrorKind::UnexpectedToken },
            SyntaxError { token: 6, kind: SyntaxErrorKind::UnexpectedToken },
        ]
    );
    assert_eq!(
        errors("A { v = [[1]] }"),
        vec![SyntaxError { token: 5, kind: SyntaxErrorKind::UnexpectedToken }]
    );
}

#[test]
fn the_end_of_the_text_closes_nothing() {
    let doc = parse(&tokenize(&chars_of("A { B { x = [1,")));
    assert_eq!(
        doc.errors,
        vec![
            SyntaxError { token: 4, kind: SyntaxErrorKind::UnexpectedEnd },
            SyntaxError { token: 1, kind: SyntaxErrorKind::MissingBrace },
            SyntaxError { token: 3, kind: SyntaxErrorKind::MissingBrace },
        ]
    );
    assert_eq!(doc.sections[0].close, None);
    assert_eq!(doc.sections[1].close, None);
    assert!(doc.attributes.is_empty());
}

#[test]
fn the_parser_steps_token_by_token() {
    let step = next_step(Mode::Item, TokenKind::Identifier, 3, false);
    assert_eq!(step.mode, Mode::Head { first: 3 });
    assert_eq!(step.error, None);
    assert_eq!(step.effect, Effect::Nothing);
    let step = next_step(Mode::Head { first: 3 }, TokenKind::LeftBrace, 4, false);
    assert_eq!(step.effect, Effect::Open { kind: 3, name: 3 });
    let step = next_step(Mode::Head { first: 3 }, TokenKind::Equals, 4, false);
    assert_eq!(step.error, Some(SyntaxErrorKind::AttributeOutsideSection));
    assert_eq!(step.mode, Mode::Recover { nested: 0 });
    let step = next_step(Mode::Assign { key: 3 }, TokenKind::LineComment, 5, true);
    assert_eq!(step.mode, Mode::Assign { key: 3 });
    assert_eq!(step.effect, Effect::Comment);
    let step = next_step(Mode::Recover { nested: 2 }, TokenKind::RightBrace, 9, true);
    assert_eq!(step.mode, Mode::Recover { nested: 1 });
    assert_eq!(step.effect, Effect::Nothing);
    let step = next_step(Mode::Recover { nested: 0 }, TokenKind::RightBrace, 9, true);
    assert_eq!(step.mode, Mode::Item);
    assert_eq!(step.effect, Effect::Close);

    let mut parser = Parser::new();
    parser.feed(TokenKind::Identifier, 0);
    parser.feed(TokenKind::LeftBrace, 1);
    assert_eq!(parser.stack, vec![0]);
    parser.feed(TokenKind::RightBrace, 2);
    assert!(parser.stack.is_empty());
    let doc = parser.finish(3);
    assert_eq!(doc.sections.len(), 1);
    assert_eq!(doc.sections[0].close, Some(2));
}

#[test]
fn roles_follow_the_document() {
    let tokens = tokenize(&chars_of("A { x = 1 B { } } C { /* c */ }"));
    let doc = parse(&tokens);
    let table = roles(&doc, tokens.len());
    let items: Vec<usize> = (0..table.len()).filter(|&i| table[i].item).collect();
    let inline: Vec<usize> = (0..table.len()).filter(|&i| table[i].inline).collect();
    assert_eq!(items, vec![0, 2, 5, 9]);
    assert_eq!(inline, vec![6]);
    assert_eq!(table[1], Role { item: false, inline: false });
}

#[test]
fn byte_offsets_follow_the_encoding() {
    let s = "aé✓𝄞\nz";
    let text = chars_of(s);
    for c in s.chars() {
        assert_eq!(width(c), c.len_utf8());
    }
    assert_eq!(width('\u{7f}'), 1);
    assert_eq!(width('\u{80}'), 2);
    assert_eq!(width('\u{7ff}'), 2);
    assert_eq!(width('\u{800}'), 3);
    assert_eq!(width('\u{ffff}'), 3);
    assert_eq!(width('\u{10000}'), 4);
    let offsets: Vec<usize> = s.char_indices().map(|(i, _)| i).collect();
    for (k, byte) in offsets.iter().enumerate() {
        assert_eq!(byte_offset_at(&text, k), Some(*byte));
    }
    assert_eq!(byte_offset_at(&text, 0), Some(0));
    assert_eq!(byte_offset_at(&text, 4), Some(10));
    assert_eq!(byte_offset_at(&text, text.len()), Some(s.len()));
    assert_eq!(byte_offset_at(&text, text.len() + 1), None);
}

#[test]
fn sections_and_attributes_are_listed_in_order() {
    let doc = parse(&tokenize(&chars_of(
        "A { x = 1 B { y = 2 } z = 3 C { D { } w = 4 } } E { } F { v = 5 }",
    )));
    assert!(doc.errors.is_empty());
    assert_eq!(doc.children_of(None), vec![0, 4, 5]);
    assert_eq!(doc.children_of(Some(0)), vec![1, 2]);
    assert_eq!(doc.children_of(Some(2)), vec![3]);
    assert_eq!(doc.children_of(Some(1)), Vec::<usize>::new());
    assert_eq!(doc.children_of(Some(99)), Vec::<usize>::new());
    assert_eq!(doc.attributes_of(0), vec![0, 2]);
    assert_eq!(doc.attributes_of(1), vec![1]);
    assert_eq!(doc.attributes_of(2), vec![3]);
    assert_eq!(doc.attributes_of(3), Vec::<usize>::new());
    assert_eq!(doc.attributes_of(5), vec![4]);
}

#[test]
fn a_section_encloses_what_lies_in_it() {
    let tokens = tokenize(&chars_of("A { x = [1, 2] B { y = 2 C { } } } D { E { } }"));
    let doc = parse(&tokens);
    assert!(doc.errors.is_empty());
    for section in &doc.sections {
        let close = section.close.expect("closed");
        assert!(section.kind <= section.name && section.name < section.open);
        assert!(section.open < close && close < tokens.len());
        if let Some(p) = section.parent {
            let outer = doc.sections[p];
            assert!(outer.open < section.kind);
            assert!(close < outer.close.expect("closed"));
            assert_eq!(section.depth, outer.depth + 1);
        } else {
            assert_eq!(section.depth, 0);
        }
    }
    for attribute in &doc.attributes {
        let section = doc.sections[attribute.section];
        assert!(section.open < attribute.key);
        assert!(attribute.key < attribute.first && attribute.first <= attribute.last);
        assert!(attribute.last < section.close.expect("closed"));
    }
}
