use unindent::unindent;

use skeptic::document::{create_test_input, get_lines, markdown_files_of_directory};
use skeptic::names::{get_line_number_from_test_name, sanitize_test_name};
use skeptic::text::is_space_char;

#[test]
fn test_omitted_lines() {
    let lines = unindent(
        r###"
        # use std::collections::BTreeMap as Map;
        #
        #[allow(dead_code)]
        fn main() {
            let map = Map::new();
            #
            # let _ = map;
        }"###,
    );

    let expected = unindent(
        r###"
        use std::collections::BTreeMap as Map;

        #[allow(dead_code)]
        fn main() {
            let map = Map::new();

        let _ = map;
        }
        "###,
    );

    assert_eq!(create_test_input(&get_lines(lines)), expected);
}

#[test]
fn test_markdown_files_of_directory() {
    let files = [
        "../testing/tests/hashtag-test.md",
        "../testing/tests/section-names.md",
        "../testing/tests/should-panic-test.md",
        "../testing/tests/two-rand-versions-real.md",
    ];
    let files: Vec<String> = files.iter().map(|f| f.to_string()).collect();
    let listing: Vec<String> = [
        "../testing/tests/",
        "../testing/tests/hashtag-test.md",
        "../testing/tests/section-names.md",
        "../testing/tests/should-panic-test.md",
        "../testing/tests/tests.rs",
        "../testing/tests/two-rand-versions-real.md",
    ]
    .iter()
    .map(|f| f.to_string())
    .collect();
    assert_eq!(markdown_files_of_directory(&listing), files);
}

#[test]
fn test_sanitization_of_testnames() {
    assert_eq!(sanitize_test_name("My_Fun"), "my_fun");
    assert_eq!(sanitize_test_name("__my_fun_"), "my_fun");
    assert_eq!(sanitize_test_name("^$@__my@#_fun#$@"), "my_fun");
    assert_eq!(
        sanitize_test_name("my_long__fun___name___with____a_____lot______of_______spaces",),
        "my_long_fun_name_with_a_lot_of_spaces"
    );
    assert_eq!(sanitize_test_name("L\u{f6}we \u{8001}\u{864e} L\u{e9}opard"), "l_we_l_opard");
}

#[test]
fn names_are_made_once() {
    for text in ["", "___", "A", "a_b", " 9 Lives! ", "x__Y"] {
        let name = sanitize_test_name(text);
        assert_eq!(sanitize_test_name(&name), name);
    }
    assert_eq!(sanitize_test_name("___"), "");
    assert_eq!(sanitize_test_name(" 9 Lives! "), "9_lives");
}

#[test]
fn line_number_stands_behind_the_last_underscore() {
    assert_eq!(get_line_number_from_test_name("blah_sect_x_line_21"), "21");
    assert_eq!(get_line_number_from_test_name("blah"), "blah");
    assert_eq!(get_line_number_from_test_name("blah_"), "");
}

#[test]
fn lines_get_their_ends_back() {
    assert_eq!(get_lines("a\nb".to_string()), vec!["a\n", "b\n"]);
    assert_eq!(get_lines("a\r\n".to_string()), vec!["a\r\n", "\n"]);
    assert_eq!(get_lines(String::new()), vec!["\n"]);
    let text = "x\n\ny \n";
    assert_eq!(get_lines(text.to_string()).concat(), format!("{}\n", text));
}

fn input_of(line: &str) -> String {
    create_test_input(&vec![line.to_string()])
}

#[test]
fn only_marks_are_taken_out() {
    assert_eq!(input_of("  # x = 1;\n"), "x = 1;\n");
    assert_eq!(input_of("  #\r\n"), "\r\n");
    assert_eq!(input_of("#"), "");
    assert_eq!(input_of("# "), "");
    assert_eq!(input_of("##\n"), "##\n");
    assert_eq!(input_of("  #[test]\n"), "  #[test]\n");
    assert_eq!(input_of(" a # b\n"), " a # b\n");
    assert_eq!(input_of("   \n"), "   \n");
    assert_eq!(create_test_input(&Vec::new()), "");
}

#[test]
fn white_space_is_that_of_unicode() {
    for code in 0..=0x10ffffu32 {
        if let Some(c) = char::from_u32(code) {
            assert_eq!(is_space_char(c), c.is_whitespace());
        }
    }
}
