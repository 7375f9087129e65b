//! Writing a profile down.

use drmkit::json::{escape, pretty, Json};

#[test]
fn a_brace_inside_a_string_is_not_a_nesting_level() {
    // A device-tree model can contain anything. A formatter that split on
    // every brace would corrupt the line and, worse, make the baseline
    // diff unreadable exactly when the hardware changed.
    let compact = r#"{"model":"Board {rev A}","n":1}"#;
    let out = pretty(compact);
    assert!(out.contains(r#""model": "Board {rev A}""#), "{out}");
    // Open brace, the comma between the two fields, and the close: three.
    assert_eq!(
        out.matches('\n').count(),
        3,
        "two fields, one object: {out}"
    );
}

#[test]
fn an_escaped_quote_does_not_end_the_string() {
    let compact = r#"{"a":"say \"hi\"","b":2}"#;
    let out = pretty(compact);
    assert!(out.contains(r#""a": "say \"hi\"""#), "{out}");
    assert!(out.contains(r#""b": 2"#), "{out}");
}

#[test]
fn every_escape_is_the_one_json_wants() {
    assert_eq!(escape("plain"), "plain");
    assert_eq!(escape("a\"b\\c"), "a\\\"b\\\\c");
    assert_eq!(escape("\n\r\t"), "\\n\\r\\t");
    assert_eq!(escape("\u{1}\u{1f}\u{20}"), "\\u0001\\u001f ");
    assert_eq!(escape("\u{e9}\u{1f600}"), "\u{e9}\u{1f600}");
}

#[test]
fn fields_and_values_are_separated() {
    let mut object = Json::object();
    assert_eq!(object.body, "{");
    object.string("na\"me", "x\ny");
    object.number("n", 18_446_744_073_709_551_615);
    object.bool("yes", true);
    object.bool("no", false);
    object.raw("list", "[1]");
    assert_eq!(
        object.finish(),
        r#"{"na\"me":"x\ny","n":18446744073709551615,"yes":true,"no":false,"list":[1]}"#
    );

    let mut array = Json::array();
    array.push("1");
    array.push("{}");
    assert_eq!(array.finish(), "[1,{}]");
    assert_eq!(Json::array().finish(), "[]");
    assert_eq!(Json::object().finish(), "{}");
}

#[test]
fn indentation_follows_the_nesting() {
    assert_eq!(
        pretty(r#"{"a":[1,{"b":""}]}"#),
        "{\n  \"a\": [\n    1,\n    {\n      \"b\": \"\"\n    }\n  ]\n}"
    );
    assert_eq!(pretty("}"), "\n}", "an unmatched bracket stays at the margin");
}

#[test]
fn indenting_changes_nothing_but_white_space() {
    let compact = r#"{"a":"x , y","b":[true,{"c":3}]}"#;
    let strip = |text: &str| -> String {
        let mut out = String::new();
        let mut in_string = false;
        for c in text.chars() {
            if c == '"' {
                in_string = !in_string;
            }
            if in_string || !c.is_whitespace() {
                out.push(c);
            }
        }
        out
    };
    assert_eq!(strip(&pretty(compact)), strip(compact));
    assert_eq!(strip(&pretty(&pretty(compact))), strip(compact));
}
