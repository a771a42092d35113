use black_sea::admin::{
    get_anchors, html_escape, read_rows, save_anchors, serve_dashboard, serve_editor, AnchorLatLon,
    Stats, StoredAnchor,
};
use black_sea::float::F64;
use black_sea::text::{decimal_text, replace_all, signed_decimal_text};

fn stored(name: &str, x: u32, y: u32, note: &str) -> StoredAnchor {
    StoredAnchor { name: name.to_string(), x, y, note: note.to_string() }
}

#[test]
fn html_escape_replaces_markup() {
    assert_eq!(html_escape("a & b"), "a &amp; b");
    assert_eq!(html_escape("<b>\"x\"</b>"), "&lt;b&gt;&quot;x&quot;&lt;/b&gt;");
    assert_eq!(html_escape("&lt;"), "&amp;lt;");
    assert_eq!(html_escape("Möja"), "Möja");
    assert_eq!(html_escape(""), "");
}

#[test]
fn the_dashboard_fills_its_template() {
    let template = "{ACTIVE}/{TOTAL} {ANCHOR_COUNT} {PREFIX}/x {ANCHOR_ROWS}{PREFIX}";
    let stats = Stats { active_connections: -1, total_connections: 12 };
    let anchors = vec![stored("A<B", 1, 20, ""), stored("C", 300, 4, "x&y")];
    let page = serve_dashboard(template, stats, &anchors, "/admin");
    assert_eq!(
        page,
        "-1/12 2 /admin/x \
         <tr><td>A&lt;B</td><td>1</td><td>20</td><td>—</td></tr>\
         <tr><td>C</td><td>300</td><td>4</td><td>x&amp;y</td></tr>\
         /admin"
    );
    assert_eq!(serve_editor("<a href=\"{PREFIX}/\">", "/admin"), "<a href=\"/admin/\">");
}

#[test]
fn texts_are_replaced_from_the_left() {
    assert_eq!(replace_all("aaa", "aa", "b"), "ba");
    assert_eq!(replace_all("abcabc", "bc", ""), "aa");
    assert_eq!(replace_all("abc", "abcd", "x"), "abc");
    assert_eq!(replace_all("aXa", "X", "XX"), "aXXa");
    for (s, pat, with) in [("abab", "ab", "ba"), ("", "a", "b"), ("xyxyx", "xyx", "-")] {
        assert_eq!(replace_all(s, pat, with), s.replace(pat, with));
    }
}

#[test]
fn numbers_in_digits() {
    assert_eq!(decimal_text(0), "0");
    assert_eq!(decimal_text(u64::MAX), u64::MAX.to_string());
    assert_eq!(signed_decimal_text(i64::MIN), i64::MIN.to_string());
    assert_eq!(signed_decimal_text(70), "70");
}

#[test]
fn anchors_on_the_globe_and_back() {
    let globe = get_anchors(vec![stored("Sandhamn", 4794, 2812, "x"), stored("Corner", 0, 0, "")]);
    assert_eq!(globe[0].name, "Sandhamn");
    assert_eq!(globe[0].note, "x");
    let lat = f64::from_bits(globe[0].lat.to_bits());
    let lon = f64::from_bits(globe[0].lon.to_bits());
    assert_eq!(lat, 59.80 - (2812.0 / 5500.0) * (59.80 - 58.80));
    assert_eq!(lon, 17.50 + (4794.0 / 8500.0) * (20.00 - 17.50));
    let back = save_anchors(globe);
    assert_eq!((back[0].x, back[0].y), (4794, 2812));
    assert_eq!((back[1].x, back[1].y), (0, 0));
    assert_eq!(back[0].name, "Sandhamn");
    // Places west and north of the map come to its corner.
    let off = AnchorLatLon {
        name: "Far".to_string(),
        lat: F64::from_bits(61.0_f64.to_bits()),
        lon: F64::from_bits(3.0_f64.to_bits()),
        note: String::new(),
    };
    let tiles = save_anchors(vec![off]);
    assert_eq!((tiles[0].x, tiles[0].y), (0, 0));
}

#[test]
fn rows_that_cannot_be_read_are_left_out() {
    let rows = read_rows(vec![Some(stored("A", 1, 2, "")), None, Some(stored("B", 3, 4, ""))]);
    let names: Vec<&str> = rows.iter().map(|a| a.name.as_str()).collect();
    assert_eq!(names, vec!["A", "B"]);
}
