use vis_municipality_votes::map_page::render_map_page;
use vis_municipality_votes::text::{parse_i32, replace_all, str_eq};

#[test]
fn parse_i32_accepts_signed_decimals() {
    assert_eq!(parse_i32("42"), Some(42));
    assert_eq!(parse_i32("-7"), Some(-7));
    assert_eq!(parse_i32("+5"), Some(5));
    assert_eq!(parse_i32("007"), Some(7));
    assert_eq!(parse_i32("2147483647"), Some(i32::MAX));
    assert_eq!(parse_i32("-2147483648"), Some(i32::MIN));
}

#[test]
fn parse_i32_rejects_what_std_rejects() {
    assert_eq!(parse_i32(""), None);
    assert_eq!(parse_i32("-"), None);
    assert_eq!(parse_i32("+"), None);
    assert_eq!(parse_i32("12a"), None);
    assert_eq!(parse_i32(" 1"), None);
    assert_eq!(parse_i32("1 "), None);
    assert_eq!(parse_i32("2147483648"), None);
    assert_eq!(parse_i32("-2147483649"), None);
    assert_eq!(parse_i32("99999999999999999999"), None);
    assert_eq!(parse_i32("99999999999999999999x"), None);
    assert_eq!(parse_i32("--1"), None);
    assert_eq!(parse_i32("١٢"), None);
}

#[test]
fn parse_i32_agrees_with_std() {
    let samples = [
        "0", "-0", "+0", "1", "-1", "10", "123456789", "-123456789", "2147483646",
        "2147483647", "2147483648", "-2147483647", "-2147483648", "-2147483649", "4294967296",
        "12x", "x12", "", "+-1", "-+1", "1.5", "1e3", "0x10", "٣",
    ];
    for s in samples.iter() {
        assert_eq!(parse_i32(s), s.parse::<i32>().ok(), "input {:?}", s);
    }
}

#[test]
fn replace_all_agrees_with_std() {
    let cases = [
        ("hello world", "o", "0"),
        ("aaaa", "aa", "b"),
        ("aaa", "aa", "b"),
        ("abc", "", "x"),
        ("", "", "x"),
        ("", "a", "x"),
        ("{{A}}{{A}}", "{{A}}", "{{A}}{{A}}"),
        ("no match here", "zz", "yy"),
        ("Leipzig_Stadtratswahl_2024", "_", " "),
        ("äöü_ß", "_", "--"),
    ];
    for (s, from, to) in cases.iter() {
        assert_eq!(replace_all(s, from, to), s.replace(from, to), "case {:?}", (s, from, to));
    }
}

#[test]
fn str_eq_compares_characters() {
    assert!(str_eq("abc", "abc"));
    assert!(str_eq("", ""));
    assert!(!str_eq("abc", "abd"));
    assert!(!str_eq("abc", "ab"));
    assert!(!str_eq("ä", "a"));
}

#[test]
fn map_page_fills_script_and_title() {
    let template = "<h1>{{DATA_TITLE}}</h1><script>{{JAVASCRIPT}}</script>";
    let page = render_map_page(template, "draw();", "Leipzig_Europawahl_2024");
    assert_eq!(
        page,
        "<h1>Leipzig Europawahl 2024</h1><script>const DATA_SOURCE = 'Leipzig_Europawahl_2024';draw();</script>"
    );
}

#[test]
fn map_page_without_placeholders_is_the_template() {
    let template = "<p>static page</p>";
    assert_eq!(render_map_page(template, "draw();", "A_B"), template);
}

#[test]
fn map_page_fills_every_placeholder() {
    let template = "{{DATA_TITLE}}|{{DATA_TITLE}}|{{JAVASCRIPT}}";
    assert_eq!(
        render_map_page(template, "", "x_y_z"),
        "x y z|x y z|const DATA_SOURCE = 'x_y_z';"
    );
}
