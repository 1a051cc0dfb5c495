use std::borrow::Cow;
use std::collections::HashMap;
use xml_escape::escape::{escape_str, Context};
use xml_escape::{escape_str_attribute, escape_str_pcdata};

fn is_borrowed_from(r: &Cow<'_, str>, s: &str) -> bool {
    match r {
        Cow::Borrowed(b) => std::ptr::eq(*b, s),
        Cow::Owned(_) => false,
    }
}

#[test]
fn test_escape_multibyte_code_points() {
    assert_eq!(escape_str_attribute("☃<", &HashMap::new()), "☃&lt;");
    assert_eq!(escape_str_pcdata("☃<", &HashMap::new()), "☃&lt;");
    assert_eq!(
        escape_str_attribute("☃<.", &HashMap::from([('.', "&period;")])),
        "☃&lt;&period;"
    );
    assert_eq!(
        escape_str_pcdata("☃<.", &HashMap::from([('.', "&period;")])),
        "☃&lt;&period;"
    );
}

#[test]
fn attribute_escapes_newline() {
    let r = escape_str_attribute("line1\nline2", &HashMap::new());
    assert_eq!(r, "line1&#xA;line2");
    assert!(matches!(r, Cow::Owned(_)));
}

#[test]
fn attribute_plain_text_is_borrowed() {
    let s = "plain text";
    let r = escape_str_attribute(s, &HashMap::new());
    assert_eq!(r, "plain text");
    assert!(is_borrowed_from(&r, s));
}

#[test]
fn pcdata_keeps_greater_than() {
    let s = "a>b";
    let r = escape_str_pcdata(s, &HashMap::new());
    assert_eq!(r, "a>b");
    assert!(is_borrowed_from(&r, s));
}

#[test]
fn attribute_escapes_greater_than() {
    let r = escape_str_attribute("a>b", &HashMap::new());
    assert_eq!(r, "a&gt;b");
}

#[test]
fn attribute_escapes_every_fixed_character() {
    let r = escape_str_attribute("<>\"'&\n\r", &HashMap::new());
    assert_eq!(r, "&lt;&gt;&quot;&apos;&amp;&#xA;&#xD;");
}

#[test]
fn pcdata_escapes_only_lt_and_amp() {
    let r = escape_str_pcdata("<>\"'&\n\r", &HashMap::new());
    assert_eq!(r, "&lt;>\"'&amp;\n\r");
}

#[test]
fn empty_input_is_borrowed() {
    let s = "";
    let a = escape_str_attribute(s, &HashMap::new());
    let p = escape_str_pcdata(s, &HashMap::new());
    assert_eq!(a, "");
    assert_eq!(p, "");
    assert!(is_borrowed_from(&a, s));
    assert!(is_borrowed_from(&p, s));
}

#[test]
fn unmatched_extra_keeps_input_borrowed() {
    let s = "snow ☃ and café";
    let extra = HashMap::from([('#', "&num;")]);
    let a = escape_str_attribute(s, &extra);
    let p = escape_str_pcdata(s, &extra);
    assert_eq!(a, s);
    assert_eq!(p, s);
    assert!(is_borrowed_from(&a, s));
    assert!(is_borrowed_from(&p, s));
}

#[test]
fn escaping_twice_escapes_the_ampersand_again() {
    let once = escape_str_pcdata("&", &HashMap::new()).into_owned();
    assert_eq!(once, "&amp;");
    let twice = escape_str_pcdata(&once, &HashMap::new());
    assert_eq!(twice, "&amp;amp;");
    let twice_attr = escape_str_attribute(&once, &HashMap::new());
    assert_eq!(twice_attr, "&amp;amp;");
}

#[test]
fn extra_cannot_override_fixed_escapes() {
    let extra = HashMap::from([('<', "&custom;"), ('&', "&other;"), ('>', "&big;")]);
    assert_eq!(escape_str_attribute("<", &extra), "&lt;");
    assert_eq!(escape_str_pcdata("<", &extra), "&lt;");
    assert_eq!(escape_str_attribute("a&b", &extra), "a&amp;b");
    assert_eq!(escape_str_pcdata("a&b", &extra), "a&amp;b");
    assert_eq!(escape_str_attribute(">", &extra), "&gt;");
    assert_eq!(escape_str_pcdata(">", &extra), "&big;");
}

#[test]
fn multibyte_characters_stay_whole() {
    let extra = HashMap::from([('☃', "&snow;")]);
    assert_eq!(escape_str_pcdata("é€☃x", &extra), "é€&snow;x");
    assert_eq!(escape_str_attribute("日本<語", &HashMap::new()), "日本&lt;語");
    assert_eq!(escape_str_pcdata("𝄞&𝄞", &HashMap::new()), "𝄞&amp;𝄞");
}

#[test]
fn kept_characters_follow_the_first_replacement() {
    let r = escape_str_pcdata("<abc ü>", &HashMap::new());
    assert_eq!(r, "&lt;abc ü>");
}

#[test]
fn extra_mapping_applies_in_both_contexts() {
    let extra = HashMap::from([('.', "&period;"), ('©', "&copy;")]);
    assert_eq!(escape_str_attribute("a.b©", &extra), "a&period;b&copy;");
    assert_eq!(escape_str_pcdata("a.b©", &extra), "a&period;b&copy;");
}

#[test]
fn escape_str_follows_the_context() {
    assert_eq!(escape_str("'x'", Context::Attribute, &HashMap::new()), "&apos;x&apos;");
    assert_eq!(escape_str("'x'", Context::Pcdata, &HashMap::new()), "'x'");
    assert_eq!(escape_str("\r", Context::Attribute, &HashMap::new()), "&#xD;");
}
