use game_cluster::decimal::{parse_i32_chars, push_int_decimal, push_nat_decimal, str_chars};
use game_cluster::map_tool::{
    get_cover_map_by_scope, get_field_id_from_len_or_pos, map_tag_from_cells, world_map_tags, MapTag,
};

fn tag(field_id: char, x_len: i32, y_len: i32) -> MapTag {
    MapTag { field_id, x_len, y_len }
}

fn parse(s: &str) -> Option<i32> {
    let cs = str_chars(s);
    parse_i32_chars(&cs, 0, cs.len())
}

#[test]
fn decimal_text_of_integers() {
    let mut s = String::new();
    push_int_decimal(&mut s, -3);
    assert_eq!(s, "-3");
    let mut s = String::from("x=");
    push_int_decimal(&mut s, 2147483647);
    assert_eq!(s, "x=2147483647");
    let mut s = String::new();
    push_int_decimal(&mut s, i64::MIN);
    assert_eq!(s, "-9223372036854775808");
    let mut s = String::new();
    push_nat_decimal(&mut s, 0);
    assert_eq!(s, "0");
    let mut s = String::new();
    push_nat_decimal(&mut s, 65535);
    assert_eq!(s, "65535");
}

#[test]
fn parsing_integers_as_str_parse_does() {
    assert_eq!(parse("123"), Some(123));
    assert_eq!(parse("+5"), Some(5));
    assert_eq!(parse("-42"), Some(-42));
    assert_eq!(parse("007"), Some(7));
    assert_eq!(parse("-2147483648"), Some(i32::MIN));
    assert_eq!(parse("2147483647"), Some(i32::MAX));
    assert_eq!(parse("2147483648"), None);
    assert_eq!(parse("-2147483649"), None);
    assert_eq!(parse("99999999999999999999"), None);
    assert_eq!(parse(""), None);
    assert_eq!(parse("-"), None);
    assert_eq!(parse("+"), None);
    assert_eq!(parse("1a"), None);
    assert_eq!(parse(" 1"), None);
    for v in [0, 1, -1, 9, 10, -10, 12345, -99999, i32::MAX, i32::MIN] {
        assert_eq!(parse(&v.to_string()), Some(v));
    }
}

#[test]
fn map_tag_text_form() {
    assert_eq!(tag('A', -3, 2).to_string(), "A:-3:2");
    assert_eq!(tag('D', 5, -5).to_string(), "D:5:-5");
    assert_eq!(MapTag::from_string("A:-3:2"), tag('A', -3, 2));
    assert_eq!(MapTag::from_string("B:+4:05"), tag('B', 4, 5));
    // only the first character of the first piece counts, and extra pieces are ignored
    assert_eq!(MapTag::from_string("Bx:1:2:3"), tag('B', 1, 2));
}

#[test]
fn map_tag_text_that_does_not_parse() {
    assert_eq!(MapTag::try_from_string("A:1"), None);
    assert_eq!(MapTag::try_from_string("A"), None);
    assert_eq!(MapTag::try_from_string(":1:2"), None);
    assert_eq!(MapTag::try_from_string("A:x:2"), None);
    assert_eq!(MapTag::try_from_string("A:1:"), None);
    assert_eq!(MapTag::try_from_string("A:1:2"), Some(tag('A', 1, 2)));
}

#[test]
fn map_tag_round_trip() {
    for t in [tag('A', 1, 1), tag('C', -5, -5), tag('é', i32::MIN, i32::MAX), tag('-', 0, -7)] {
        assert_eq!(MapTag::try_from_string(&t.to_string()), Some(t));
    }
    // a colon as quadrant letter does not read back
    assert_eq!(MapTag::try_from_string(&tag(':', 1, 1).to_string()), None);
}

#[test]
fn quadrant_letters() {
    assert_eq!(get_field_id_from_len_or_pos((0, 0)), 'A');
    assert_eq!(get_field_id_from_len_or_pos((0, 1)), 'A');
    assert_eq!(get_field_id_from_len_or_pos((-1, 1)), 'A');
    assert_eq!(get_field_id_from_len_or_pos((1, 1)), 'B');
    assert_eq!(get_field_id_from_len_or_pos((1, 0)), 'B');
    assert_eq!(get_field_id_from_len_or_pos((-1, -1)), 'C');
    assert_eq!(get_field_id_from_len_or_pos((-1, 0)), 'C');
    assert_eq!(get_field_id_from_len_or_pos((1, -1)), 'D');
    assert_eq!(get_field_id_from_len_or_pos((0, -1)), 'D');
}

#[test]
fn cells_of_positions() {
    assert_eq!(map_tag_from_cells('A', 0, 0), tag('A', 1, 1));
    assert_eq!(map_tag_from_cells('B', 7, 3), tag('B', 5, 3));
    assert_eq!(map_tag_from_cells('C', -9, 0), tag('C', -9, 1));
    assert_eq!(map_tag_from_cells('A', -2, 2), tag('A', -2, 2));
}

#[test]
fn test_get_cover_map_by_scope() {
    // the corners (-790010, 400000) and (-300000, 190000) lie in the cells (-4, 2) and (-2, 1)
    let r = get_cover_map_by_scope(tag('A', -4, 2), tag('A', -2, 1));
    assert_eq!(
        r,
        vec![
            tag('A', -4, 2),
            tag('A', -4, 1),
            tag('A', -3, 2),
            tag('A', -3, 1),
            tag('A', -2, 2),
            tag('A', -2, 1)
        ]
    );
}

#[test]
fn test_full_scope_get_cover_map() {
    // the corners of the whole world lie in the cells (-5, 5) and (5, -5)
    let r = get_cover_map_by_scope(tag('A', -5, 5), tag('D', 5, -5));
    assert_eq!(r.len(), 100);
    assert_eq!(r[0], tag('A', -5, 5));
    assert_eq!(r[99], tag('D', 5, -5));
    assert!(!r.iter().any(|t| t.x_len == 0 || t.y_len == 0));
}

#[test]
fn cover_across_the_axes() {
    let r = get_cover_map_by_scope(tag('A', -1, 1), tag('D', 1, -1));
    assert_eq!(r, vec![tag('A', -1, 1), tag('C', -1, -1), tag('B', 1, 1), tag('D', 1, -1)]);
    // a rectangle whose corners are out of order covers nothing
    assert_eq!(get_cover_map_by_scope(tag('B', 3, 1), tag('B', 2, 1)), vec![]);
}

#[test]
fn the_maps_of_a_world() {
    let r = world_map_tags();
    assert_eq!(r.len(), 100);
    assert_eq!(r[0], tag('C', -5, -5));
    assert_eq!(r[4], tag('C', -5, -1));
    assert_eq!(r[5], tag('A', -5, 1));
    assert_eq!(r[99], tag('B', 5, 5));
}
