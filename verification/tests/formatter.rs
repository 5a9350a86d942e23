use light_nix::formatter::{apply_edits, edits_to_formatted, format_edits, format_source, FormatError, TextEdit};

#[test]
fn statements_are_grouped_and_claims_sorted_by_path() {
    let input = r#"programs.zsh.enable = true
type Firefox { enable: Bool }
import { programs } from "@lnix/nixos"
let value = 1
programs.firefox.enable = true
"#;
    let formatted = format_source(input).unwrap();
    assert_eq!(
        formatted,
        r#"import { programs } from "@lnix/nixos"

type Firefox { enable: Bool }

let value = 1

programs.firefox.enable = true
programs.zsh.enable = true
"#
    );
}

#[test]
fn formatting_is_idempotent() {
    let input = r#"
let b = 2
let a = 1
audio.pulseaudio = true
audio.pipewire = false
"#;
    let once = format_source(input).unwrap();
    let twice = format_source(&once).unwrap();
    assert_eq!(once, twice);
}

#[test]
fn binding_order_is_preserved_for_lexical_scoping() {
    let input = r#"let first = 1
let second = first
"#;
    let formatted = format_source(input).unwrap();
    assert!(formatted.find("let first").unwrap() < formatted.find("let second").unwrap());
}

#[test]
fn unparseable_input_is_left_untouched() {
    assert!(matches!(format_source("let = = ="), Err(FormatError::Parse { .. })));
}

#[test]
fn canonical_input_produces_no_edits() {
    let input = "programs.firefox.enable = true\n";
    assert_eq!(format_edits(input).unwrap(), Vec::new());
}

#[test]
fn edits_reproduce_the_formatted_output() {
    let input = "let a = 1\nprograms.zsh.enable = true\nprograms.firefox.enable = true\n";
    let edits = format_edits(input).unwrap();
    assert_eq!(apply_edits(input, &edits), format_source(input).unwrap());
}

#[test]
fn unparseable_input_produces_no_edits() {
    assert!(matches!(format_edits("let = = ="), Err(FormatError::Parse { .. })));
}

#[test]
fn empty_input_formats_to_empty_text() {
    assert_eq!(format_source("").unwrap(), "");
    assert_eq!(format_source("\n\n;\n").unwrap(), "");
}

#[test]
fn uses_and_imports_are_sorted_by_text() {
    let input = "use [b]\nimport \"z\"\nuse [a]\nimport \"a\"\n";
    let formatted = format_source(input).unwrap();
    assert_eq!(formatted, "import \"a\"\nimport \"z\"\n\nuse [a]\nuse [b]\n");
}

#[test]
fn claim_keys_ignore_white_space_and_nested_claims_follow_plain_ones() {
    let input = "a.b = { c = 1 }\na .b = 2\na.a = 3\n";
    let formatted = format_source(input).unwrap();
    assert_eq!(formatted, "a.a = 3\na .b = 2\na.b = { c = 1 }\n");
}

#[test]
fn control_flow_comes_last_in_source_order() {
    let input = "if x { a = 1 }\nlet y = 2\nreturn y\n";
    let formatted = format_source(input).unwrap();
    assert_eq!(formatted, "let y = 2\n\nif x { a = 1 }\nreturn y\n");
}

#[test]
fn statement_text_is_trimmed_but_otherwise_verbatim() {
    let input = "let   x  =  1   \n";
    assert_eq!(format_source(input).unwrap(), "let   x  =  1\n");
}

#[test]
fn minimal_edit_keeps_common_prefix_and_suffix() {
    let input = "let a = 1\n\n\nlet b = 2\n";
    let edits = format_edits(input).unwrap();
    assert_eq!(edits.len(), 1);
    assert_eq!(edits[0], TextEdit { range: 10..12, text: String::new() });
    assert_eq!(apply_edits(input, &edits), "let a = 1\nlet b = 2\n");
}

#[test]
fn edits_are_applied_back_to_front() {
    let input = "abcdef";
    let edits = vec![
        TextEdit { range: 0..1, text: "X".to_string() },
        TextEdit { range: 4..6, text: "YZW".to_string() },
        TextEdit { range: 2..2, text: "-".to_string() },
    ];
    assert_eq!(apply_edits(input, &edits), "Xb-cdYZW");
}

#[test]
fn multibyte_text_edits_stay_on_character_boundaries() {
    let input = "let é = 1\nlet à = 2\n\n";
    let edits = format_edits(input).unwrap();
    assert_eq!(apply_edits(input, &edits), format_source(input).unwrap());
}

#[test]
fn edits_to_formatted_pass_the_error_on() {
    let error = FormatError::Parse { messages: vec!["bad".to_string()] };
    assert_eq!(edits_to_formatted("let = =", Err(error.clone())), Err(error));
}

#[test]
fn edits_to_formatted_replace_the_changed_part() {
    let edits = edits_to_formatted("let a = 1\n\n", Ok("let a = 1\n".to_string())).unwrap();
    assert_eq!(edits, vec![TextEdit { range: 10..11, text: String::new() }]);
    assert_eq!(edits_to_formatted("let a = 1\n", Ok("let a = 1\n".to_string())).unwrap(), Vec::new());
}

#[test]
fn a_statement_is_never_formatted_away() {
    let formatted = format_source("let a = 1").unwrap();
    assert!(!formatted.is_empty());
    assert_eq!(formatted, "let a = 1\n");
}
