//! Tests of the text transformations: normalization, heading shifting,
//! field parsing, and CommonMark assembly.

use nixdoc::collect::{parse_doc_comment, LocationMap};
use nixdoc::commonmark::{
    get_identifier, get_title, reference_link_fn, Argument, ManualEntry, SingleArg,
};
use nixdoc::format::{
    dedent, get_fence, handle_heading, handle_indentation, shift_headings,
    trim_leading_whitespace,
};
use nixdoc::frontmatter::{frontmatter_import_decision, FrontmatterError, FrontmatterErrorKind};

#[test]
fn test_empty_prefix() {
    let test_entry = ManualEntry {
        args: vec![],
        category: "test".to_string(),
        location: None,
        description: vec![],
        example: None,
        fn_type: None,
        name: "mapSimple'".to_string(),
        prefix: "".to_string(),
    };

    let (ident, title) = test_entry.get_ident_title();

    assert_eq!(ident, "test.mapSimple-prime");
    assert_eq!(title, "test.mapSimple'");
}

#[test]
fn test_identifier_and_title() {
    let p = String::from("lib");
    let c = String::from("strings");
    let n = String::from("concat'");
    assert_eq!(get_identifier(&p, &c, &n), "lib.strings.concat-prime");
    assert_eq!(get_title(&p, &c, &n), "lib.strings.concat'");
    let empty = String::from("");
    assert_eq!(get_identifier(&empty, &c, &n), "strings.concat-prime");
    assert_eq!(get_title(&empty, &empty, &n), "concat'");
}

#[test]
fn test_handle_indentation_dedents() {
    let raw = "foo is\n  the value:\n    10";
    assert_eq!(
        handle_indentation(raw),
        Some(String::from("foo is\nthe value:\n  10"))
    );
}

#[test]
fn test_handle_indentation_empty_is_absent() {
    assert_eq!(handle_indentation(""), None);
    assert_eq!(handle_indentation("   \n  \n"), None);
}

#[test]
fn test_dedent_idempotence() {
    let x = "  alpha\n    beta\n  gamma";
    let once = dedent(x);
    let twice = dedent(&once);
    assert_eq!(once, twice);
    assert_eq!(once, "alpha\n  beta\ngamma");

    let y = "\t deep\n\t  deeper\n\n\t deep again";
    let once = dedent(y);
    assert_eq!(dedent(&once), once);
}

#[test]
fn test_handle_indentation_idempotent_case() {
    let x = "first\n   indented\n     more";
    let once = handle_indentation(x).expect("nonempty");
    let twice = handle_indentation(&once).expect("nonempty");
    assert_eq!(once, twice);
}

#[test]
fn test_heading_clamp() {
    assert_eq!(handle_heading("# Heading", 1), "## Heading");
    assert_eq!(handle_heading("#### Heading", 3), "###### Heading");
    assert_eq!(handle_heading("###### Heading", 2), "###### Heading");
    assert_eq!(handle_heading("####### Heading", 0), "###### Heading");
}

#[test]
fn test_shift_headings_basic() {
    assert_eq!(shift_headings("# Heading\n", 1), "## Heading\n");
    assert_eq!(
        shift_headings("## A\ntext\n### B\n", 2),
        "#### A\ntext\n##### B\n"
    );
}

#[test]
fn test_shift_headings_indented_heading() {
    // Up to three leading spaces still count as a heading, and the
    // rewrite drops them.
    assert_eq!(shift_headings("   # H\n", 1), "## H\n");
    // Four or more do not.
    assert_eq!(shift_headings("    # H\n", 1), "    # H\n");
}

#[test]
fn test_fence_immunity() {
    let text = "```\n# not a heading\n```\n";
    assert_eq!(shift_headings(text, 5), text);
    let tildes = "~~~\n# not a heading\n~~~\n# heading\n";
    assert_eq!(shift_headings(tildes, 1), "~~~\n# not a heading\n~~~\n## heading\n");
}

#[test]
fn test_fence_with_info_string() {
    let text = "```python\n# comment\n```\n# heading\n";
    assert_eq!(shift_headings(text, 1), "```python\n# comment\n```\n## heading\n");
}

#[test]
fn test_fence_shorter_close_does_not_close() {
    let text = "````\n```\n# still code\n````\n";
    assert_eq!(shift_headings(text, 3), text);
}

#[test]
fn test_fence_other_char_does_not_close() {
    let text = "```\n~~~\n# still code\n```\n";
    assert_eq!(shift_headings(text, 2), text);
}

#[test]
fn test_get_fence() {
    assert_eq!(get_fence("```rust", true), Some((3, '`')));
    assert_eq!(get_fence("```rust", false), None);
    assert_eq!(get_fence("~~~~", false), Some((4, '~')));
    assert_eq!(get_fence("text", true), None);
    assert_eq!(get_fence("", true), None);
}

#[test]
fn test_trim_leading_whitespace() {
    assert_eq!(trim_leading_whitespace("    x", 3), " x");
    assert_eq!(trim_leading_whitespace("  x", 3), "x");
    assert_eq!(trim_leading_whitespace("x", 3), "x");
}

#[test]
fn test_empty_field_suppression() {
    let parsed = parse_doc_comment("Type: a -> a");
    assert_eq!(parsed.doc, "");
    assert_eq!(parsed.doc_type, Some(String::from("a -> a")));
    assert_eq!(parsed.example, None);
}

#[test]
fn test_field_parsing_is_sticky() {
    let parsed = parse_doc_comment(
        "Summary line\nType: int\n  continued type\nExample:\n  f 1\nstill example",
    );
    assert_eq!(parsed.doc, "Summary line");
    assert_eq!(parsed.doc_type, Some(String::from("int\ncontinued type")));
    assert_eq!(parsed.example, Some(String::from("f 1\nstill example")));
}

#[test]
fn test_field_parsing_plain_doc() {
    let parsed = parse_doc_comment("Just a description.\n\nSecond paragraph.");
    assert_eq!(parsed.doc, "Just a description.\n\nSecond paragraph.");
    assert_eq!(parsed.doc_type, None);
    assert_eq!(parsed.example, None);
}

#[test]
fn test_format_argument_flat() {
    let arg = Argument::Flat(SingleArg {
        name: String::from("x"),
        doc: None,
    });
    assert_eq!(arg.format_argument(), "`x`\n\n: Function argument\n\n");

    let documented = Argument::Flat(SingleArg {
        name: String::from("y"),
        doc: Some(String::from("the input\nsecond line")),
    });
    assert_eq!(
        documented.format_argument(),
        "`y`\n\n: the input\n  second line\n\n"
    );
}

#[test]
fn test_format_argument_pattern() {
    let arg = Argument::Pattern(vec![
        SingleArg {
            name: String::from("a"),
            doc: None,
        },
        SingleArg {
            name: String::from("b"),
            doc: None,
        },
    ]);
    assert_eq!(
        arg.format_argument(),
        "structured function argument\n\n: `a`\n\n  : Function argument\n\n  `b`\n\n  : Function argument\n\n"
    );
}

#[test]
fn test_write_section() {
    let entry = ManualEntry {
        prefix: String::from("lib"),
        category: String::from("strings"),
        location: Some(String::from("lib/strings.nix:42")),
        name: String::from("concat"),
        fn_type: Some(String::from("a -> a")),
        description: vec![String::from("Para one."), String::from("Para two.")],
        example: Some(String::from("concat a b")),
        args: vec![],
    };
    let mut output = String::new();
    let copy = entry.write_section("function-library-", &mut output);
    let expected = "## `lib.strings.concat` {#function-library-lib.strings.concat}\n\n\
**Type**: `a -> a`\n\n\
Para one.\n\n\
Para two.\n\n\
::: {.example #function-library-example-lib.strings.concat}\n\
# `lib.strings.concat` usage example\n\n\
```nix\nconcat a b\n```\n:::\n\n\
Located at lib/strings.nix:42.\n\n";
    assert_eq!(output, expected);
    assert_eq!(copy, expected);
}

#[test]
fn test_write_section_multiline_type() {
    let entry = ManualEntry {
        prefix: String::from(""),
        category: String::from(""),
        location: None,
        name: String::from("f"),
        fn_type: Some(String::from("a ->\nb")),
        description: vec![],
        example: None,
        args: vec![],
    };
    let mut output = String::new();
    entry.write_section("", &mut output);
    assert_eq!(output, "## `f` {#f}\n\n**Type**:\n```\na ->\nb\n```\n\n");
}

#[test]
fn test_frontmatter_decision() {
    assert_eq!(frontmatter_import_decision(None, true), Ok(None));
    assert_eq!(frontmatter_import_decision(None, false), Ok(None));
    assert_eq!(
        frontmatter_import_decision(Some(String::from("./doc.md")), false),
        Ok(Some(String::from("./doc.md")))
    );
    assert_eq!(
        frontmatter_import_decision(Some(String::from("./doc.md")), true),
        Err(FrontmatterErrorKind::DocLocationConflictWithContent)
    );
}

#[test]
fn test_frontmatter_error_describe() {
    let e = FrontmatterError {
        message: String::from("bad block"),
        kind: FrontmatterErrorKind::InvalidYaml,
    };
    assert_eq!(e.describe(), "FrontmatterError: bad block");
}

#[test]
fn test_location_map_last_binding_wins() {
    let mut locs = LocationMap::new();
    locs.insert(String::from("lib.f"), String::from("old.nix:1"));
    locs.insert(String::from("lib.f"), String::from("new.nix:2"));
    assert_eq!(locs.get("lib.f"), Some(String::from("new.nix:2")));
    assert_eq!(locs.get("lib.g"), None);
}

#[test]
fn test_reference_link() {
    let r = reference_link_fn("lib.strings.foo", "");
    assert_eq!(
        r,
        Some((
            String::from("#function-library-lib.strings.foo"),
            String::from("lib.strings.foo")
        ))
    );
}

#[test]
fn test_render_document() {
    let entry = ManualEntry {
        prefix: String::from("lib"),
        category: String::from("t"),
        location: None,
        name: String::from("id"),
        fn_type: None,
        description: vec![String::from("Identity.")],
        example: None,
        args: vec![],
    };
    let out = nixdoc::collect::render_document("# T {#sec-t}\n", vec![entry], "fn-");
    assert_eq!(
        out,
        "# T {#sec-t}\n\n## `lib.t.id` {#fn-lib.t.id}\n\nIdentity.\n\n"
    );
}

#[test]
fn test_shift_by_zero_is_identity() {
    let text = "# One\n## Two\ntext body\n```\n   # fenced\n```\n###### Six\n";
    assert_eq!(shift_headings(text, 0), text);
}
