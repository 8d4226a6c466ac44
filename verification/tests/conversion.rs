use lcov_to_checkstyle::group::group_consecutive_lines;
use lcov_to_checkstyle::parse::{parse_lcov, ParseError};
use lcov_to_checkstyle::run::lcov_to_checkstyle;
use lcov_to_checkstyle::text::parse_u32;

fn convert(input: &str) -> String {
    let bytes = lcov_to_checkstyle(input.as_bytes()).unwrap();
    String::from_utf8(bytes).unwrap()
}

const FIXTURE: &str = "TN:\n\
SF:/path/to/project/src/main.rs\n\
DA:3,0\n\
DA:4,0\n\
DA:7,0\n\
BRDA:3,0,0,-\n\
BRDA:3,0,1,-\n\
BRDA:7,0,0,-\n\
end_of_record\n\
TN:\n\
SF:/path/to/project/src/lib.rs\n\
DA:2,0\n\
DA:3,0\n\
DA:6,0\n\
BRDA:2,0,0,-\n\
BRDA:2,0,1,-\n\
BRDA:6,0,0,-\n\
end_of_record\n";

const EXPECTED_OUTPUT: &str = "\n\
<checkstyle version=\"4.3\">\n\
    <file name=\"/path/to/project/src/lib.rs\">\n\
        <error line=\"3\" severity=\"warning\" message=\"Lines 2-3 are not covered\" source=\"coverage\"/>\n\
        <error line=\"6\" severity=\"warning\" message=\"Line 6 is not covered\" source=\"coverage\"/>\n\
        <error line=\"2\" severity=\"warning\" message=\"Line 2 has 2 uncovered branches\" source=\"coverage\"/>\n\
        <error line=\"6\" severity=\"warning\" message=\"Line 6 has 1 uncovered branches\" source=\"coverage\"/>\n\
    </file>\n\
    <file name=\"/path/to/project/src/main.rs\">\n\
        <error line=\"4\" severity=\"warning\" message=\"Lines 3-4 are not covered\" source=\"coverage\"/>\n\
        <error line=\"7\" severity=\"warning\" message=\"Line 7 is not covered\" source=\"coverage\"/>\n\
        <error line=\"3\" severity=\"warning\" message=\"Line 3 has 2 uncovered branches\" source=\"coverage\"/>\n\
        <error line=\"7\" severity=\"warning\" message=\"Line 7 has 1 uncovered branches\" source=\"coverage\"/>\n\
    </file>\n\
</checkstyle>\n";

#[test]
fn test_lcov_parsing_and_output() {
    let output_str = convert(FIXTURE);
    assert_eq!(
        output_str.replace(" ", "").replace("\n", ""),
        EXPECTED_OUTPUT.replace(" ", "").replace("\n", "")
    );
}

#[test]
fn test_lcov_parsing_and_output_from_stdin() {
    // The same content handed over as one in-memory string, as the
    // standard-input path of the tool does, yields byte-identical output.
    let from_file = lcov_to_checkstyle(FIXTURE.as_bytes()).unwrap();
    let from_stdin = lcov_to_checkstyle(String::from(FIXTURE).as_bytes()).unwrap();
    assert_eq!(from_file, from_stdin);
    let output_str = String::from_utf8(from_stdin).unwrap();
    assert_eq!(
        output_str.replace(" ", "").replace("\n", ""),
        EXPECTED_OUTPUT.replace(" ", "").replace("\n", "")
    );
}

#[test]
fn test_no_directives_yields_empty_checkstyle() {
    assert_eq!(convert(""), "<checkstyle version=\"4.3\">\n</checkstyle>");
    assert_eq!(
        convert("TN:\nsome unknown directive\nend_of_record\n"),
        "<checkstyle version=\"4.3\">\n</checkstyle>"
    );
}

#[test]
fn test_fully_covered_file_emits_no_file_element() {
    let out = convert("SF:/src/covered.rs\nDA:1,5\nDA:2,1\nBRDA:1,0,0,3\nend_of_record\n");
    assert_eq!(out, "<checkstyle version=\"4.3\">\n</checkstyle>");
}

#[test]
fn test_grouping_concatenation_reproduces_input() {
    let lines: Vec<u32> = vec![3, 4, 7, 9, 10, 11];
    let groups = group_consecutive_lines(&lines);
    assert_eq!(groups, vec![vec![3, 4], vec![7], vec![9, 10, 11]]);
    let mut flat: Vec<u32> = Vec::new();
    for g in &groups {
        assert!(!g.is_empty());
        flat.extend_from_slice(g);
    }
    assert_eq!(flat, lines);
}

#[test]
fn test_grouping_single_and_empty() {
    let empty: Vec<u32> = Vec::new();
    assert!(group_consecutive_lines(&empty).is_empty());
    assert_eq!(group_consecutive_lines(&vec![5]), vec![vec![5]]);
}

#[test]
fn test_emitting_twice_is_byte_identical() {
    let a = lcov_to_checkstyle(FIXTURE.as_bytes()).unwrap();
    let b = lcov_to_checkstyle(FIXTURE.as_bytes()).unwrap();
    assert_eq!(a, b);
}

#[test]
fn test_file_order_is_lexicographic_regardless_of_input_order() {
    let input = "SF:/z/last.rs\nDA:1,0\nSF:/a/first.rs\nDA:1,0\nSF:/m/mid.rs\nDA:1,0\n";
    let out = convert(input);
    let a = out.find("/a/first.rs").unwrap();
    let m = out.find("/m/mid.rs").unwrap();
    let z = out.find("/z/last.rs").unwrap();
    assert!(a < m && m < z);
}

#[test]
fn test_scenario_line_groups() {
    let input = "SF:/path/to/project/src/main.rs\n\
DA:3,0\n\
DA:4,0\n\
DA:7,0\n\
SF:/path/to/project/src/lib.rs\n\
DA:2,0\n\
DA:3,0\n\
DA:6,0\n";
    let expected = "<checkstyle version=\"4.3\">\n    <file name=\"/path/to/project/src/lib.rs\">\n        <error line=\"3\" severity=\"warning\" message=\"Lines 2-3 are not covered\" source=\"coverage\"/>\n        <error line=\"6\" severity=\"warning\" message=\"Line 6 is not covered\" source=\"coverage\"/>\n    </file>\n    <file name=\"/path/to/project/src/main.rs\">\n        <error line=\"4\" severity=\"warning\" message=\"Lines 3-4 are not covered\" source=\"coverage\"/>\n        <error line=\"7\" severity=\"warning\" message=\"Line 7 is not covered\" source=\"coverage\"/>\n    </file>\n</checkstyle>";
    assert_eq!(convert(input), expected);
}

#[test]
fn test_scenario_branch_errors_follow_line_errors() {
    let input = "SF:/path/to/project/src/lib.rs\n\
DA:2,0\n\
DA:3,0\n\
DA:6,0\n\
BRDA:2,0,0,-\n\
BRDA:2,0,1,-\n";
    let expected = "<checkstyle version=\"4.3\">\n    <file name=\"/path/to/project/src/lib.rs\">\n        <error line=\"3\" severity=\"warning\" message=\"Lines 2-3 are not covered\" source=\"coverage\"/>\n        <error line=\"6\" severity=\"warning\" message=\"Line 6 is not covered\" source=\"coverage\"/>\n        <error line=\"2\" severity=\"warning\" message=\"Line 2 has 2 uncovered branches\" source=\"coverage\"/>\n    </file>\n</checkstyle>";
    assert_eq!(convert(input), expected);
}

#[test]
fn test_scenario_taken_branch_emits_no_error() {
    let out = convert("SF:/src/a.rs\nDA:2,0\nBRDA:2,0,0,1\n");
    assert!(!out.contains("uncovered branches"));
    assert!(out.contains("Line 2 is not covered"));
}

#[test]
fn test_taken_zero_is_not_recorded() {
    // An instrumented branch executed zero times carries taken = 0, not
    // the "-" marker, and is not reported.
    let out = convert("SF:/src/a.rs\nDA:2,0\nBRDA:2,0,0,0\n");
    assert!(!out.contains("uncovered branches"));
}

#[test]
fn test_taken_minus_one_literal_is_recorded() {
    let out = convert("SF:/src/a.rs\nBRDA:2,0,0,-1\n");
    assert!(out.contains("Line 2 has 1 uncovered branches"));
}

#[test]
fn test_taken_negative_number_is_recorded() {
    // Any taken field that is not a valid non-negative integer is read as
    // the "never executed" marker.
    let out = convert("SF:/src/a.rs\nBRDA:1,0,0,-5\n");
    assert!(out.contains("Line 1 has 1 uncovered branches"));
}

#[test]
fn test_taken_large_or_signed_nonnegative_is_not_recorded() {
    // A valid non-negative integer of any size counts as executed, and a
    // leading plus sign is part of a valid number.
    let out = convert("SF:/src/a.rs\nBRDA:1,0,0,2147483648\n");
    assert_eq!(out, "<checkstyle version=\"4.3\">\n</checkstyle>");
    let out2 = convert("SF:/src/a.rs\nBRDA:1,0,0,+7\n");
    assert_eq!(out2, "<checkstyle version=\"4.3\">\n</checkstyle>");
}

#[test]
fn test_malformed_da_fields_are_fatal() {
    assert_eq!(
        parse_lcov(b"SF:/a\nDA:x,0\n").unwrap_err(),
        ParseError::MalformedField
    );
    assert_eq!(
        parse_lcov(b"SF:/a\nDA:3\n").unwrap_err(),
        ParseError::MalformedField
    );
    assert_eq!(
        parse_lcov(b"SF:/a\nDA:3,\n").unwrap_err(),
        ParseError::MalformedField
    );
    assert_eq!(
        parse_lcov(b"SF:/a\nDA:4294967296,0\n").unwrap_err(),
        ParseError::MalformedField
    );
}

#[test]
fn test_malformed_brda_required_fields_are_fatal() {
    assert_eq!(
        parse_lcov(b"SF:/a\nBRDA:1,0,0\n").unwrap_err(),
        ParseError::MalformedField
    );
    assert_eq!(
        parse_lcov(b"SF:/a\nBRDA:1,zero,0,-\n").unwrap_err(),
        ParseError::MalformedField
    );
    // The taken field never aborts: an unparseable marker means "never
    // executed".
    let out = convert("SF:/a\nBRDA:1,0,0,junk\n");
    assert!(out.contains("Line 1 has 1 uncovered branches"));
}

#[test]
fn test_da_fields_are_parsed_even_without_current_file() {
    assert_eq!(
        parse_lcov(b"DA:x,0\nSF:/a\n").unwrap_err(),
        ParseError::MalformedField
    );
    // Well-formed data before the first SF: is attributed to no file.
    assert_eq!(
        convert("DA:1,0\nBRDA:1,0,0,-\n"),
        "<checkstyle version=\"4.3\">\n</checkstyle>"
    );
}

#[test]
fn test_repeated_sf_blocks_accumulate() {
    let out = convert("SF:/src/a.rs\nDA:1,0\nend_of_record\nSF:/src/a.rs\nDA:2,0\n");
    let expected = "<checkstyle version=\"4.3\">\n    <file name=\"/src/a.rs\">\n        <error line=\"2\" severity=\"warning\" message=\"Lines 1-2 are not covered\" source=\"coverage\"/>\n    </file>\n</checkstyle>";
    assert_eq!(out, expected);
}

#[test]
fn test_sf_path_is_trimmed_and_crlf_stripped() {
    let out = convert("SF:  /src/a.rs \t\r\nDA:1,0\r\n");
    assert!(out.contains("<file name=\"/src/a.rs\">"));
}

#[test]
fn test_sf_path_unicode_whitespace_trimmed() {
    let out = convert("SF:\u{a0}\u{2009}/src/a.rs\u{3000}\u{2028}\nDA:1,0\n");
    assert!(out.contains("<file name=\"/src/a.rs\">"));
}

#[test]
fn test_path_with_xml_specials_is_escaped() {
    let out = convert("SF:/src/a&b<c>\"d'.rs\nDA:1,0\n");
    assert!(out.contains("<file name=\"/src/a&amp;b&lt;c&gt;&quot;d&apos;.rs\">"));
}

#[test]
fn test_hit_count_nonzero_not_reported() {
    let out = convert("SF:/src/a.rs\nDA:1,2\nDA:2,0\n");
    assert!(out.contains("Line 2 is not covered"));
    assert!(!out.contains("Line 1 is not covered"));
}

#[test]
fn test_parse_u32_grammar() {
    assert_eq!(parse_u32(b"0"), Some(0));
    assert_eq!(parse_u32(b"+17"), Some(17));
    assert_eq!(parse_u32(b"4294967295"), Some(4294967295));
    assert_eq!(parse_u32(b"4294967296"), None);
    assert_eq!(parse_u32(b""), None);
    assert_eq!(parse_u32(b"+"), None);
    assert_eq!(parse_u32(b"-1"), None);
    assert_eq!(parse_u32(b" 1"), None);
}

#[test]
fn test_plus_signed_da_line_number() {
    let out = convert("SF:/src/a.rs\nDA:+5,0\n");
    assert!(out.contains("line=\"5\""));
    assert!(out.contains("Line 5 is not covered"));
}
