use septic::diagnostic::{
    comes_before, insert_sorted, sort_diagnostics, Code, Diagnostic, Level,
};
use septic::document::ValueKind;
use septic::lexer::tokenize;
use septic::lint::{absorb, check, lint_text, KeyRule, Outcome, Rule, Schema};
use septic::parser::parse;
use septic::position::{offset_at, Position};
use septic::text::chars_of;

fn diag(code: Code, level: Level, sl: usize, sc: usize, el: usize, ec: usize) -> Diagnostic {
    Diagnostic {
        level,
        code,
        start_line: sl,
        start_character: sc,
        end_line: el,
        end_character: ec,
    }
}

fn rule(section: &str, key: &str, expected: Option<ValueKind>, deprecated: bool) -> KeyRule {
    KeyRule { section: chars_of(section), key: chars_of(key), expected, deprecated }
}

fn schema() -> Schema {
    Schema {
        rules: vec![
            rule("System", "name", Some(ValueKind::Str), false),
            rule("System", "rate", Some(ValueKind::Number), false),
            rule("System", "tags", Some(ValueKind::List), false),
            rule("System", "mode", Some(ValueKind::Identifier), false),
            rule("System", "legacy", None, true),
        ],
    }
}

#[test]
fn empty_input_has_no_diagnostics() {
    let r = septic::engine::lint("");
    assert_eq!(r.total_count, 0);
    assert!(r.success);
    assert!(r.diagnostics.is_empty());
}

#[test]
fn clean_input_has_no_diagnostics() {
    let r = septic::engine::lint("Foo { a = 1, b = [x, \"y\", 2] }\nBar baz { Qux { c = d } }\n");
    assert!(r.success);
    assert_eq!(r.total_count, 0);
}

#[test]
fn second_of_two_equal_keys_is_reported() {
    let r = septic::engine::lint("Foo{a=1,a=2}");
    assert_eq!(r.total_count, 1);
    assert!(!r.success);
    assert_eq!(
        r.diagnostics,
        vec![diag(Code::DuplicateAttribute, Level::Error, 0, 8, 0, 11)]
    );
}

#[test]
fn every_later_occurrence_of_a_key_is_reported() {
    let r = septic::engine::lint("Foo {\n  a = 1\n  b = 2\n  a = 3\n  a = [4]\n}\n");
    assert_eq!(
        r.diagnostics,
        vec![
            diag(Code::DuplicateAttribute, Level::Error, 3, 2, 3, 7),
            diag(Code::DuplicateAttribute, Level::Error, 4, 2, 4, 9),
        ]
    );
}

#[test]
fn equal_keys_in_different_sections_are_fine() {
    let r = septic::engine::lint("A { x = 1 B { x = 2 } x2 = 3 }\nA { x = 4 }");
    assert!(r.success);
    let r = septic::engine::lint("A { x = 1 B { x = 2 } x = 3 }");
    assert_eq!(
        r.diagnostics,
        vec![diag(Code::DuplicateAttribute, Level::Error, 0, 22, 0, 27)]
    );
}

#[test]
fn unterminated_string_is_a_syntax_diagnostic() {
    let r = septic::engine::lint("Foo{a=\"x}\nBar{b=1,b=2}");
    assert!(!r.success);
    assert_eq!(
        r.diagnostics,
        vec![
            diag(Code::MissingBrace, Level::Error, 0, 3, 0, 4),
            diag(Code::InvalidToken, Level::Error, 0, 6, 0, 9),
            diag(Code::DuplicateAttribute, Level::Error, 1, 8, 1, 11),
        ]
    );
    assert!(r.diagnostics[1].code.order() <= 5);
    let f = septic::engine::format("Foo{a=\"x}\nBar{b=1,b=2}");
    assert!(f.is_formatted);
    assert_eq!(f.formatted_content, "Foo{a=\"x}\nBar{b=1,b=2}");
}

#[test]
fn count_and_success_follow_the_list() {
    for input in ["", "Foo{a=1,a=2}", "}{", "A { a = 1 }", "A { a = \"", "x x x x"] {
        let r = septic::engine::lint(input);
        assert_eq!(r.total_count, r.diagnostics.len());
        assert_eq!(r.success, r.total_count == 0);
    }
}

#[test]
fn diagnostics_are_in_text_order() {
    let input = "A { z = 1, z = 2 }\n}\nB { q = , r = 1, r = 2\nC = 3\n\"open\n";
    let r = septic::engine::lint_with(input, &schema());
    assert!(r.total_count >= 4);
    for pair in r.diagnostics.windows(2) {
        let a = (pair[0].start_line, pair[0].start_character);
        let b = (pair[1].start_line, pair[1].start_character);
        assert!(a <= b);
        assert_ne!(pair[0], pair[1]);
    }
}

#[test]
fn each_syntax_error_has_its_code() {
    let first = |input: &str| septic::engine::lint(input).diagnostics[0];
    assert_eq!(first("A { a = ^ }"), diag(Code::InvalidToken, Level::Error, 0, 8, 0, 9));
    assert_eq!(first("A { = }"), diag(Code::UnexpectedToken, Level::Error, 0, 4, 0, 5));
    assert_eq!(first("A { }\n}"), diag(Code::UnmatchedBrace, Level::Error, 1, 0, 1, 1));
    assert_eq!(first("a = 1"), diag(Code::AttributeOutsideSection, Level::Error, 0, 2, 0, 3));
    assert_eq!(
        septic::engine::lint("A { a =").diagnostics,
        vec![
            diag(Code::MissingBrace, Level::Error, 0, 2, 0, 3),
            diag(Code::UnexpectedEnd, Level::Error, 0, 4, 0, 5),
        ]
    );
    assert_eq!(first("A {\n B {"), diag(Code::MissingBrace, Level::Error, 0, 2, 0, 3));
    let all = septic::engine::lint("A {\n B {").diagnostics;
    assert_eq!(all.len(), 2);
    assert_eq!(all[1], diag(Code::MissingBrace, Level::Error, 1, 3, 1, 4));
}

#[test]
fn one_bad_section_does_not_hide_the_next() {
    let r = septic::engine::lint("A { a = = 1 }\nB { b = 1, b = 2 }");
    assert_eq!(
        r.diagnostics,
        vec![
            diag(Code::UnexpectedToken, Level::Error, 0, 8, 0, 9),
            diag(Code::DuplicateAttribute, Level::Error, 1, 11, 1, 16),
        ]
    );
}

#[test]
fn unknown_key_in_a_known_kind_is_a_warning() {
    let r = septic::engine::lint_with("System { name = \"x\", colour = 1 }", &schema());
    assert_eq!(
        r.diagnostics,
        vec![diag(Code::UnknownAttribute, Level::Warning, 0, 21, 0, 27)]
    );
    let r = septic::engine::lint_with("Other { colour = 1 }", &schema());
    assert!(r.success);
}

#[test]
fn value_of_the_wrong_form_is_an_error() {
    let r = septic::engine::lint_with(
        "System { name = 5, rate = \"fast\", tags = x, mode = [a] }",
        &schema(),
    );
    assert_eq!(
        r.diagnostics,
        vec![
            diag(Code::TypeMismatch, Level::Error, 0, 16, 0, 17),
            diag(Code::TypeMismatch, Level::Error, 0, 26, 0, 32),
            diag(Code::TypeMismatch, Level::Error, 0, 41, 0, 42),
            diag(Code::TypeMismatch, Level::Error, 0, 51, 0, 54),
        ]
    );
    let r = septic::engine::lint_with(
        "System { name = \"n\", rate = -2.5, tags = [a, b], mode = on }",
        &schema(),
    );
    assert!(r.success);
}

#[test]
fn deprecated_key_is_an_info() {
    let r = septic::engine::lint_with("System main { legacy = 1 }", &schema());
    assert_eq!(r.diagnostics, vec![diag(Code::Deprecated, Level::Info, 0, 14, 0, 20)]);
}

#[test]
fn rules_report_together() {
    let r = septic::engine::lint_with("System { legacy = 1, legacy = 2, zip = 0 }", &schema());
    assert_eq!(
        r.diagnostics,
        vec![
            diag(Code::Deprecated, Level::Info, 0, 9, 0, 15),
            diag(Code::Deprecated, Level::Info, 0, 21, 0, 27),
            diag(Code::DuplicateAttribute, Level::Error, 0, 21, 0, 31),
            diag(Code::UnknownAttribute, Level::Warning, 0, 33, 0, 36),
        ]
    );
    assert_eq!(r.total_count, 4);
}

#[test]
fn a_fault_becomes_one_internal_diagnostic() {
    let text = chars_of("A { a = [1, 2] }");
    let tokens = tokenize(&text);
    let doc = parse(&tokens);
    let mut out = Vec::new();
    absorb(&mut out, Outcome::Fault, &tokens, &doc, 0);
    assert_eq!(out, vec![diag(Code::InternalRuleError, Level::Error, 0, 4, 0, 14)]);
    absorb(&mut out, Outcome::Clear, &tokens, &doc, 0);
    assert_eq!(out.len(), 1);
    let finding = diag(Code::Deprecated, Level::Info, 0, 4, 0, 5);
    absorb(&mut out, Outcome::Finding(finding), &tokens, &doc, 0);
    assert_eq!(out.len(), 2);
    assert_eq!(out[1], finding);
}

#[test]
fn rules_answer_one_by_one() {
    let text = chars_of("System { name = 1, name = \"x\" }");
    let tokens = tokenize(&text);
    let doc = parse(&tokens);
    let s = schema();
    assert_eq!(check(Rule::DuplicateAttribute, &text, &tokens, &doc, &s, 0), Outcome::Clear);
    assert_eq!(
        check(Rule::DuplicateAttribute, &text, &tokens, &doc, &s, 1),
        Outcome::Finding(diag(Code::DuplicateAttribute, Level::Error, 0, 19, 0, 29))
    );
    assert_eq!(
        check(Rule::TypeMismatch, &text, &tokens, &doc, &s, 0),
        Outcome::Finding(diag(Code::TypeMismatch, Level::Error, 0, 16, 0, 17))
    );
    assert_eq!(check(Rule::TypeMismatch, &text, &tokens, &doc, &s, 1), Outcome::Clear);
    assert_eq!(check(Rule::UnknownAttribute, &text, &tokens, &doc, &s, 0), Outcome::Clear);
    assert_eq!(check(Rule::Deprecated, &text, &tokens, &doc, &s, 0), Outcome::Clear);
}

#[test]
fn sorting_orders_and_drops_repeats() {
    let a = diag(Code::UnexpectedToken, Level::Error, 2, 0, 2, 1);
    let b = diag(Code::DuplicateAttribute, Level::Error, 0, 5, 0, 9);
    let c = diag(Code::Deprecated, Level::Info, 0, 5, 0, 9);
    let d = diag(Code::InvalidToken, Level::Error, 0, 5, 0, 6);
    let sorted = sort_diagnostics(&vec![a, b, c, a, d, b]);
    assert_eq!(sorted, vec![d, b, c, a]);
    assert!(comes_before(d, b));
    assert!(!comes_before(b, d));
    assert!(!comes_before(a, a));
    let mut v = vec![d, a];
    insert_sorted(&mut v, b);
    insert_sorted(&mut v, d);
    assert_eq!(v, vec![d, b, a]);
}

#[test]
fn codes_and_levels_have_names() {
    assert_eq!(Code::InvalidToken.as_str(), "E001");
    assert_eq!(Code::DuplicateAttribute.as_str(), "E101");
    assert_eq!(Code::UnknownAttribute.as_str(), "W101");
    assert_eq!(Code::Deprecated.as_str(), "I101");
    assert_eq!(Code::InternalRuleError.as_str(), "E999");
    assert_eq!(Level::Error.as_str(), "error");
    assert_eq!(Level::Warning.as_str(), "warning");
    assert_eq!(Level::Info.as_str(), "info");
    assert_eq!(Code::UnknownAttribute.level(), Level::Warning);
    assert_eq!(Code::MissingBrace.level(), Level::Error);
    assert_eq!(Code::DuplicateAttribute.message(), "this key is already set in this section");
}

#[test]
fn very_deep_nesting_is_linted() {
    let depth = 100_000;
    let input = "a{".repeat(depth) + &"}".repeat(depth);
    let r = septic::engine::lint(&input);
    assert!(r.success);
    let open = "a{".repeat(depth);
    let r = lint_text(&chars_of(&open), &Schema::empty());
    assert_eq!(r.total_count, depth);
    assert_eq!(r.diagnostics[0].code, Code::MissingBrace);
}

#[test]
fn garbage_is_linted() {
    let r = septic::engine::lint("\u{0}\u{1}%%% ~~ \\ \"\n\t@@");
    assert!(!r.success);
    assert_eq!(r.total_count, r.diagnostics.len());
}

#[test]
fn diagnostics_lie_inside_the_text() {
    let input = "A { z = 1, z = [\n2] }\n}\nB { q = , r = \"é\", r = 2\n\"open\n";
    let text = chars_of(input);
    let r = septic::engine::lint_with(input, &schema());
    assert!(!r.success);
    for d in &r.diagnostics {
        let from = offset_at(&text, Position { line: d.start_line, character: d.start_character })
            .expect("start inside the text");
        let to = offset_at(&text, Position { line: d.end_line, character: d.end_character })
            .expect("end inside the text");
        assert!(from <= to);
        assert!(to <= text.len());
    }
}

#[test]
fn unreadable_text_is_reported_behind_another_error() {
    let r = septic::engine::lint("A { = \"open\n  ^ b = 1 }");
    assert_eq!(
        r.diagnostics,
        vec![
            diag(Code::UnexpectedToken, Level::Error, 0, 4, 0, 5),
            diag(Code::InvalidToken, Level::Error, 0, 6, 0, 11),
            diag(Code::InvalidToken, Level::Error, 1, 2, 1, 3),
        ]
    );
    let r = septic::engine::lint("{ { \"x ");
    assert_eq!(
        r.diagnostics,
        vec![
            diag(Code::UnexpectedToken, Level::Error, 0, 0, 0, 1),
            diag(Code::InvalidToken, Level::Error, 0, 4, 0, 7),
        ]
    );
}
