use septic::cli::{plan_format, plan_lint, FormatPlan, FormatReport, LintPlan, LintReport};
use septic::format::{format_text, same_structure};
use septic::lexer::tokenize;
use septic::render::apply_edits;
use septic::text::{chars_of, string_of};

fn formatted(input: &str) -> String {
    septic::engine::format(input).formatted_content
}

#[test]
fn inline_section_gets_canonical_spacing() {
    let r = septic::engine::format("Foo{a=1,b=2}");
    assert_eq!(r.formatted_content, "Foo { a = 1, b = 2 }");
    assert!(r.edit_count > 0);
    assert_eq!(r.edit_count, 8);
    assert!(!r.is_formatted);
}

#[test]
fn empty_input_is_formatted() {
    let r = septic::engine::format("");
    assert!(r.is_formatted);
    assert_eq!(r.formatted_content, "");
    assert_eq!(r.edit_count, 0);
}

#[test]
fn whitespace_only_input_becomes_empty() {
    let r = septic::engine::format("  \n ");
    assert_eq!(r.formatted_content, "");
    assert_eq!(r.edit_count, 1);
    assert!(!r.is_formatted);
}

#[test]
fn canonical_text_needs_no_edit() {
    let r = septic::engine::format("Foo { a = 1, b = 2 }");
    assert!(r.is_formatted);
    assert_eq!(r.edit_count, 0);
    assert_eq!(r.formatted_content, "Foo { a = 1, b = 2 }");
}

#[test]
fn formatting_twice_changes_nothing() {
    let inputs = [
        "Foo{a=1,b=2}",
        "A{b=1 C{d=2}}",
        "// top\nA{a=1}// tail\n\n\n\nB  {  }\n",
        "A{v=[1,2 , 3]  /* c */ w = \"x y\"}",
        "Foo{a=",
        "",
    ];
    for input in inputs {
        let once = septic::engine::format(input);
        let twice = septic::engine::format(&once.formatted_content);
        assert_eq!(twice.edit_count, 0, "input {:?}", input);
        assert!(twice.is_formatted);
        assert_eq!(twice.formatted_content, once.formatted_content);
    }
}

#[test]
fn formatting_keeps_the_tokens() {
    let input = "A{b=1 C{d=\"x\" ,e=[1,-2.5,f]}}// done";
    let text = chars_of(input);
    let out = format_text(&text);
    assert_ne!(out.text, text);
    let before = tokenize(&text);
    let after = tokenize(&out.text);
    assert_eq!(before.len(), after.len());
    for (x, y) in before.iter().zip(after.iter()) {
        assert_eq!(x.kind, y.kind);
        assert_eq!(text[x.start..x.end], out.text[y.start..y.end]);
    }
}

#[test]
fn nested_sections_are_laid_out_as_blocks() {
    assert_eq!(formatted("A{b=1 C{d=2}}"), "A {\n  b = 1\n  C { d = 2 }\n}");
    assert_eq!(
        formatted("A{B{C{x=1}}}\n"),
        "A {\n  B {\n    C { x = 1 }\n  }\n}\n"
    );
}

#[test]
fn top_level_sections_start_their_own_line() {
    assert_eq!(formatted("A{}B{}"), "A {}\nB {}");
}

#[test]
fn blank_lines_collapse_to_one() {
    assert_eq!(formatted("A{}\n\n\n\nB{}"), "A {}\n\nB {}");
    assert_eq!(formatted("A{}\nB{}"), "A {}\nB {}");
}

#[test]
fn trailing_line_break_is_kept_once() {
    assert_eq!(formatted("A{}\n\n\n"), "A {}\n");
    assert_eq!(formatted("A{}   "), "A {}");
}

#[test]
fn comments_are_kept() {
    let input = "// top\nA { a = 1 } // tail\n";
    let r = septic::engine::format(input);
    assert_eq!(r.formatted_content, input);
    assert!(r.is_formatted);
    assert_eq!(
        formatted("A{ // first\na=1 /* mid */ b=2}"),
        "A { // first\n  a = 1 /* mid */\n  b = 2\n}"
    );
}

#[test]
fn lists_strings_numbers_and_names() {
    assert_eq!(formatted("A{v=[1,2 , 3]}"), "A { v = [1, 2, 3] }");
    assert_eq!(formatted("A{v=[ ]}"), "A { v = [] }");
    assert_eq!(formatted("A{s=\"a b\\\"c\"}"), "A { s = \"a b\\\"c\" }");
    assert_eq!(formatted("A{n=-1.5,m=x}"), "A { n = -1.5, m = x }");
    assert_eq!(formatted("Controller   main{x=1}"), "Controller main { x = 1 }");
}

#[test]
fn attribute_order_is_kept() {
    assert_eq!(formatted("A{z=1,a=2,m=3}"), "A { z = 1, a = 2, m = 3 }");
}

#[test]
fn text_with_a_syntax_error_comes_back_unchanged() {
    for input in ["Foo{a=\"x}", "Foo{a=1", "= = =", "Foo{a=1}}", "a = 1", "Foo { a = 1 ^ }"] {
        let r = septic::engine::format(input);
        assert!(r.is_formatted, "input {:?}", input);
        assert_eq!(r.edit_count, 0);
        assert_eq!(r.formatted_content, input);
    }
}

#[test]
fn multibyte_text_is_kept() {
    assert_eq!(formatted("A{s=\"héllo ✓\"}"), "A { s = \"héllo ✓\" }");
}

#[test]
fn edits_rebuild_the_formatted_text() {
    for input in ["Foo{a=1,b=2}", "A{b=1 C{d=2}}\n\n", "  A { }  ", "A { a = 1 }"] {
        let text = chars_of(input);
        let out = format_text(&text);
        let rebuilt = apply_edits(&text, &out.edits).expect("edits fit");
        assert_eq!(rebuilt, out.text);
        assert_eq!(out.edits.is_empty(), out.text == text);
    }
}

#[test]
fn edits_that_overlap_are_refused() {
    let text = chars_of("Foo{a=1,b=2}");
    let out = format_text(&text);
    let mut edits = out.edits.clone();
    edits.reverse();
    assert!(apply_edits(&text, &edits).is_none());
    let mut beyond = out.edits.clone();
    beyond[0].end = 100;
    assert!(apply_edits(&text, &beyond).is_none());
}

#[test]
fn strings_convert_both_ways() {
    let s = "aé\n✓b";
    let v = chars_of(s);
    assert_eq!(v, vec!['a', 'é', '\n', '✓', 'b']);
    assert_eq!(string_of(&v), s);
    assert_eq!(string_of(&Vec::new()), "");
}

#[test]
fn deep_nesting_is_formatted() {
    let depth = 300;
    let input = "a{".repeat(depth) + &"}".repeat(depth);
    let r = septic::engine::format(&input);
    assert!(!r.is_formatted);
    let again = septic::engine::format(&r.formatted_content);
    assert!(again.is_formatted);
    assert!(r.formatted_content.starts_with("a {\n  a {\n    a {"));
}

#[test]
fn format_plan_follows_the_result() {
    let changed = septic::engine::format("Foo{a=1}");
    let clean = septic::engine::format("Foo { a = 1 }");
    assert_eq!(
        plan_format(true, &changed),
        FormatPlan { write: false, report: FormatReport::NeedsFormatting, exit_code: 1 }
    );
    assert_eq!(
        plan_format(true, &clean),
        FormatPlan { write: false, report: FormatReport::Correct, exit_code: 0 }
    );
    assert_eq!(
        plan_format(false, &changed),
        FormatPlan { write: true, report: FormatReport::Formatted { edits: 5 }, exit_code: 0 }
    );
    assert_eq!(
        plan_format(false, &clean),
        FormatPlan { write: true, report: FormatReport::AlreadyFormatted, exit_code: 0 }
    );
}

#[test]
fn lint_plan_follows_the_result() {
    let clean = septic::engine::lint("Foo { a = 1 }");
    let dirty = septic::engine::lint("Foo { a = 1, a = 2, a = 3 }");
    assert_eq!(plan_lint(&clean), LintPlan { report: LintReport::Clean, exit_code: 0 });
    assert_eq!(
        plan_lint(&dirty),
        LintPlan { report: LintReport::Issues { count: 2 }, exit_code: 1 }
    );
}

#[test]
fn formatting_keeps_the_structure() {
    let inputs = [
        "Foo{a=1,b=2}",
        "A{b=1 C{d=\"x\" ,e=[1,-2.5,f]}}// done",
        "/* head */A   main{\n\n\n x=1,\n y = [ a , b ]\n B{}\n}\n\n\nC{}",
        "A{x=1a=2}",
        "A { x = y z = w }",
        "",
    ];
    for input in inputs {
        let text = chars_of(input);
        let out = format_text(&text);
        assert!(same_structure(&text, &out.text), "input {:?}", input);
        assert!(septic::engine::lint(&string_of(&out.text)).success);
    }
}

#[test]
fn structure_sets_whitespace_aside() {
    let same = |a: &str, b: &str| same_structure(&chars_of(a), &chars_of(b));
    assert!(same("A{x=1}", " A {\n x   = 1 }\n"));
    assert!(same("", "  \n"));
    assert!(!same("A{x=1}", "A{x=2}"));
    assert!(!same("A{x=1}", "A{x=1,}"));
    assert!(!same("A{x=1}", "A{x=\"1\"}"));
    assert!(!same("A{x=ab}", "A{x=a b}"));
    assert!(!same("A{}", "A{} // c"));
}

#[test]
fn adjacent_tokens_are_kept_apart() {
    assert_eq!(formatted("A{x=1a=2}"), "A { x = 1 a = 2 }");
    assert_eq!(formatted("A{x=\"s\"y=-1}"), "A { x = \"s\" y = -1 }");
    assert_eq!(formatted("A{x=[a,-1,\"s\",]}"), "A { x = [a, -1, \"s\",] }");
    assert_eq!(formatted("A{x=y/**/z=w}"), "A {\n  x = y /**/\n  z = w\n}");
    assert_eq!(formatted("A{x=1//c\n}"), "A {\n  x = 1 //c\n}");
    assert_eq!(formatted("A{}//c"), "A {} //c");
}
