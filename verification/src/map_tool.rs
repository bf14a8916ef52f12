//! The world's map grid: map tags, their text form, the quadrant of a cell,
//! and the tags that a rectangle or the whole world covers.
use vstd::prelude::*;
use crate::decimal::{
    int_decimal, lemma_int_decimal_no_colon, lemma_parse_int_decimal, parse_i32_chars,
    parse_i32_spec, push_char, push_int_decimal, str_chars,
};

verus! {

/// The identity of one map of the world: its quadrant letter and its cell
/// coordinates (`x_len`, `y_len` in `-5..=5`, never zero, for the maps of a world).
#[derive(Clone, Copy, Debug, PartialEq, Eq, Structural, Hash, PartialOrd, Ord)]
pub struct MapTag {
    pub field_id: char,
    pub x_len: i32,
    pub y_len: i32,
}

/// A vertex of a rectangle.
#[derive(Clone, Copy, Debug, PartialEq, Eq, Structural)]
pub enum VertexTag {
    LeftUp,
    LeftDown,
    RightUp,
    RightDown,
}

/// The text of a tag: `field_id:x_len:y_len`.
pub open spec fn map_tag_text(t: MapTag) -> Seq<char> {
    seq![t.field_id, ':'] + int_decimal(t.x_len as int) + seq![':'] + int_decimal(t.y_len as int)
}

/// `i` is the position of the first colon of `s`.
pub open spec fn is_first_colon(s: Seq<char>, i: int) -> bool {
    &&& 0 <= i < s.len()
    &&& s[i] == ':'
    &&& forall|j: int| 0 <= j < i ==> s[j] != ':'
}

/// `s` holds a colon.
pub open spec fn has_colon(s: Seq<char>) -> bool {
    exists|i: int| is_first_colon(s, i)
}

/// The position of the first colon of `s`.
pub open spec fn first_colon(s: Seq<char>) -> int {
    choose|i: int| is_first_colon(s, i)
}

/// What comes before the first colon of `s` (all of `s` when it has none):
/// the first piece that `split(':')` yields.
pub open spec fn first_piece(s: Seq<char>) -> Seq<char> {
    if has_colon(s) {
        s.take(first_colon(s))
    } else {
        s
    }
}

/// What comes after the first colon of `s`.
pub open spec fn after_first_colon(s: Seq<char>) -> Seq<char> {
    s.skip(first_colon(s) + 1)
}

/// How `MapTag::from_string` reads a text: it splits it at its colons, takes
/// the first character of the first piece as the quadrant and parses the
/// second and third pieces as `i32`; it has no result (it panics) when there
/// are fewer than three pieces, the first is empty or a number does not parse.
pub open spec fn map_tag_parse(s: Seq<char>) -> Option<MapTag> {
    if !has_colon(s) {
        None
    } else {
        let rest1 = after_first_colon(s);
        if !has_colon(rest1) {
            None
        } else {
            let rest2 = after_first_colon(rest1);
            let field = first_piece(s);
            match (parse_i32_spec(first_piece(rest1)), parse_i32_spec(first_piece(rest2))) {
                (Some(x), Some(y)) => if field.len() > 0 {
                    Some(MapTag { field_id: field[0], x_len: x, y_len: y })
                } else {
                    None
                },
                _ => None,
            }
        }
    }
}

/// The quadrant letter of a point given by whole coordinates: `A` holds the
/// origin, the positive y axis and the upper left quadrant; `B` the positive x
/// axis and the upper right quadrant; `C` the negative x axis and the lower
/// left quadrant; `D` the negative y axis and the lower right quadrant.
pub open spec fn field_id_of(x: int, y: int) -> char {
    if (x == 0 && y == 0) || (x == 0 && y > 0) || (x < 0 && y > 0) {
        'A'
    } else if (x > 0 && y > 0) || (x > 0 && y == 0) {
        'B'
    } else if (x < 0 && y < 0) || (x < 0 && y == 0) {
        'C'
    } else if (x > 0 && y < 0) || (x == 0 && y < 0) {
        'D'
    } else {
        'E'
    }
}

/// Each quadrant has its own letter: the lower right quadrant and the
/// negative y axis are `D`, the upper right quadrant and the positive x axis
/// `B`, the lower left quadrant and the negative x axis `C`, the upper left
/// quadrant, the positive y axis and the origin `A`; no cell is left without
/// a quadrant.
pub proof fn lemma_field_id_quadrants(x: int, y: int)
    ensures
        x > 0 && y < 0 ==> field_id_of(x, y) == 'D',
        x == 0 && y < 0 ==> field_id_of(x, y) == 'D',
        x > 0 && y >= 0 ==> field_id_of(x, y) == 'B',
        x < 0 && y <= 0 ==> field_id_of(x, y) == 'C',
        x <= 0 && y > 0 ==> field_id_of(x, y) == 'A',
        x == 0 && y == 0 ==> field_id_of(x, y) == 'A',
        field_id_of(x, y) != 'E',
{
}

/// A cell coordinate as the grid keeps it: zero counts as one and anything
/// above five as five.
pub open spec fn normalize_len(v: int) -> int {
    if v == 0 {
        1
    } else if v > 5 {
        5
    } else {
        v
    }
}

/// A tag whose cell coordinates are as `map_tag_from_cells` makes them.
pub open spec fn is_normalized(t: MapTag) -> bool {
    t.x_len != 0 && t.y_len != 0 && i32::MIN < t.x_len <= 5 && i32::MIN < t.y_len <= 5
}

/// The tag of the map at cell `(x, y)`.
pub open spec fn cell_tag(x: int, y: int) -> MapTag {
    MapTag { field_id: field_id_of(x, y), x_len: x as i32, y_len: y as i32 }
}

/// `t` is the tag of a map that the rectangle with corner cells `left_up`
/// and `right_down` covers.
pub open spec fn in_cover(left_up: MapTag, right_down: MapTag, t: MapTag) -> bool {
    &&& t.x_len != 0
    &&& t.y_len != 0
    &&& left_up.x_len <= t.x_len <= right_down.x_len
    &&& right_down.y_len <= t.y_len <= left_up.y_len
    &&& t == cell_tag(t.x_len as int, t.y_len as int)
}

/// The order in which covered tags are listed: columns from left to right,
/// each from top to bottom.
pub open spec fn cover_before(a: MapTag, b: MapTag) -> bool {
    a.x_len < b.x_len || (a.x_len == b.x_len && a.y_len > b.y_len)
}

/// `t` is the tag of one of the maps of a world: cells from -5 to 5 on
/// both axes, zero left out.
pub open spec fn in_world_grid(t: MapTag) -> bool {
    &&& t.x_len != 0
    &&& t.y_len != 0
    &&& -5 <= t.x_len <= 5
    &&& -5 <= t.y_len <= 5
    &&& t == cell_tag(t.x_len as int, t.y_len as int)
}

/// The order in which a world lists its maps: columns from left to right,
/// each from bottom to top.
pub open spec fn grid_before(a: MapTag, b: MapTag) -> bool {
    a.x_len < b.x_len || (a.x_len == b.x_len && a.y_len < b.y_len)
}

proof fn lemma_first_colon_unique(s: Seq<char>, i: int)
    requires
        is_first_colon(s, i),
    ensures
        has_colon(s),
        first_colon(s) == i,
{
    let k = first_colon(s);
    assert(is_first_colon(s, k));
    if k < i {
        assert(s[k] != ':');
    } else if k > i {
        assert(s[i] != ':');
    }
}

proof fn lemma_no_colon(s: Seq<char>)
    requires
        forall|j: int| 0 <= j < s.len() ==> s[j] != ':',
    ensures
        !has_colon(s),
        first_piece(s) == s,
{
    if has_colon(s) {
        let k = first_colon(s);
        assert(s[k] == ':');
    }
}

/// Reading back the text of a tag gives the tag, when its quadrant letter is
/// not a colon.
pub proof fn lemma_map_tag_text_parse(t: MapTag)
    requires
        t.field_id != ':',
    ensures
        map_tag_parse(map_tag_text(t)) == Some(t),
{
    let x = int_decimal(t.x_len as int);
    let y = int_decimal(t.y_len as int);
    lemma_int_decimal_no_colon(t.x_len as int);
    lemma_int_decimal_no_colon(t.y_len as int);
    lemma_parse_int_decimal(t.x_len);
    lemma_parse_int_decimal(t.y_len);
    let s = map_tag_text(t);
    assert(s[0] == t.field_id);
    assert(s[1] == ':');
    assert(is_first_colon(s, 1));
    lemma_first_colon_unique(s, 1);
    let rest1 = after_first_colon(s);
    assert(rest1 =~= x + seq![':'] + y);
    assert forall|j: int| 0 <= j < x.len() implies rest1[j] != ':' by {
        assert(rest1[j] == x[j]);
    }
    assert(rest1[x.len() as int] == ':');
    assert(is_first_colon(rest1, x.len() as int));
    lemma_first_colon_unique(rest1, x.len() as int);
    assert(first_piece(rest1) =~= x);
    let rest2 = after_first_colon(rest1);
    assert(rest2 =~= y);
    lemma_no_colon(rest2);
    assert(first_piece(s) =~= seq![t.field_id]);
}

impl MapTag {
    /// The text of the tag: `field_id:x_len:y_len`.
    pub fn to_string(&self) -> (s: String)
        ensures
            s@ == map_tag_text(*self),
    {
        let mut s = String::new();
        push_char(&mut s, self.field_id);
        push_char(&mut s, ':');
        push_int_decimal(&mut s, self.x_len as i64);
        push_char(&mut s, ':');
        push_int_decimal(&mut s, self.y_len as i64);
        proof {
            assert(s@ =~= map_tag_text(*self));
        }
        s
    }

    /// Reads a tag back from its text; `None` where `from_string` would panic.
    pub fn try_from_string(s: &str) -> (r: Option<MapTag>)
        ensures
            r == map_tag_parse(s@),
    {
        let cs = str_chars(s);
        let n = cs.len();
        let c1 = next_colon(&cs, 0);
        proof {
            lemma_next_colon_spec(cs@, 0, c1 as int);
            assert(cs@.subrange(0, n as int) =~= s@);
        }
        if c1 >= n {
            return None;
        }
        let c2 = next_colon(&cs, c1 + 1);
        proof {
            lemma_next_colon_spec(cs@, c1 + 1, c2 as int);
            assert(after_first_colon(s@) =~= cs@.subrange(c1 + 1, n as int));
        }
        if c2 >= n {
            return None;
        }
        let c3 = next_colon(&cs, c2 + 1);
        proof {
            lemma_next_colon_spec(cs@, c2 + 1, c3 as int);
            let rest1 = after_first_colon(s@);
            assert(first_colon(rest1) == c2 - c1 - 1);
            assert(after_first_colon(rest1) =~= cs@.subrange(c2 + 1, n as int));
            assert(first_piece(rest1) =~= cs@.subrange(c1 + 1, c2 as int));
            let rest2 = after_first_colon(rest1);
            if c3 < n {
                assert(first_piece(rest2) =~= cs@.subrange(c2 + 1, c3 as int));
            } else {
                assert(first_piece(rest2) =~= cs@.subrange(c2 + 1, c3 as int));
            }
            assert(first_piece(s@) =~= cs@.subrange(0, c1 as int));
        }
        let x = parse_i32_chars(&cs, c1 + 1, c2);
        let y = parse_i32_chars(&cs, c2 + 1, c3);
        match (x, y) {
            (Some(x), Some(y)) => {
                if c1 > 0 {
                    Some(MapTag { field_id: cs[0], x_len: x, y_len: y })
                } else {
                    None
                }
            },
            _ => None,
        }
    }

    /// Reads a tag back from its text `field_id:x_len:y_len`.
    pub fn from_string(s: &str) -> (t: MapTag)
        requires
            map_tag_parse(s@) is Some,
        ensures
            map_tag_parse(s@) == Some(t),
    {
        match MapTag::try_from_string(s) {
            Some(t) => t,
            None => {
                proof {
                    assert(false);
                }
                MapTag { field_id: 'E', x_len: 0, y_len: 0 }
            },
        }
    }
}

/// The position of the first colon at or after `from`, or the length.
fn next_colon(cs: &Vec<char>, from: usize) -> (r: usize)
    requires
        from <= cs.len(),
    ensures
        from <= r <= cs.len(),
        forall|j: int| from <= j < r ==> cs@[j] != ':',
        r < cs.len() ==> cs@[r as int] == ':',
{
    let mut i = from;
    while i < cs.len() && cs[i] != ':'
        invariant
            from <= i <= cs.len(),
            forall|j: int| from <= j < i ==> cs@[j] != ':',
        decreases cs.len() - i,
    {
        i = i + 1;
    }
    i
}

proof fn lemma_next_colon_spec(cs: Seq<char>, from: int, r: int)
    requires
        0 <= from <= r <= cs.len(),
        forall|j: int| from <= j < r ==> cs[j] != ':',
        r < cs.len() ==> cs[r] == ':',
    ensures
        ({
            let s = cs.subrange(from, cs.len() as int);
            &&& (r < cs.len() ==> has_colon(s) && first_colon(s) == r - from
                && first_piece(s) == cs.subrange(from, r))
            &&& (r == cs.len() ==> !has_colon(s) && first_piece(s) == cs.subrange(from, r))
        }),
{
    let s = cs.subrange(from, cs.len() as int);
    if r < cs.len() {
        assert(s[r - from] == cs[r]);
        assert forall|j: int| 0 <= j < r - from implies s[j] != ':' by {
            assert(s[j] == cs[from + j]);
        }
        assert(is_first_colon(s, r - from));
        lemma_first_colon_unique(s, r - from);
        assert(first_piece(s) =~= cs.subrange(from, r));
    } else {
        assert forall|j: int| 0 <= j < s.len() implies s[j] != ':' by {
            assert(s[j] == cs[from + j]);
        }
        lemma_no_colon(s);
    }
}

/// The quadrant letter of the cell `pos = (x, y)`.
pub fn get_field_id_from_len_or_pos(pos: (i32, i32)) -> (c: char)
    ensures
        c == field_id_of(pos.0 as int, pos.1 as int),
{
    let x = pos.0;
    let y = pos.1;
    if (x == 0 && y == 0) || (x == 0 && y > 0) || (x < 0 && y > 0) {
        'A'
    } else if (x > 0 && y > 0) || (x > 0 && y == 0) {
        'B'
    } else if (x < 0 && y < 0) || (x < 0 && y == 0) {
        'C'
    } else if (x > 0 && y < 0) || (x == 0 && y < 0) {
        'D'
    } else {
        'E'
    }
}

/// The tag of the map that holds a position, from the quadrant letter of the
/// position and the signed cells that its coordinates fall in: a zero cell
/// counts as one, and a cell above five as five.
pub fn map_tag_from_cells(field_id: char, x_len: i32, y_len: i32) -> (t: MapTag)
    requires
        x_len > i32::MIN,
        y_len > i32::MIN,
    ensures
        t.field_id == field_id,
        t.x_len == normalize_len(x_len as int),
        t.y_len == normalize_len(y_len as int),
        is_normalized(t),
{
    let x_len = if x_len == 0 { 1 } else { x_len };
    let y_len = if y_len == 0 { 1 } else { y_len };
    let x_len = if x_len > 5 { 5 } else { x_len };
    let y_len = if y_len > 5 { 5 } else { y_len };
    MapTag { field_id, x_len, y_len }
}

fn cell_tag_exec(x: i32, y: i32) -> (t: MapTag)
    ensures
        t == cell_tag(x as int, y as int),
{
    MapTag { field_id: get_field_id_from_len_or_pos((x, y)), x_len: x, y_len: y }
}

/// The tags of the maps that a rectangle covers, given the tags of the maps
/// of its upper left and lower right corners: every map whose cell lies
/// between them, listed column by column from the left, each column from the
/// top.
pub fn get_cover_map_by_scope(left_up: MapTag, right_down: MapTag) -> (r: Vec<MapTag>)
    requires
        is_normalized(left_up),
        is_normalized(right_down),
    ensures
        forall|t: MapTag| r@.contains(t) <==> in_cover(left_up, right_down, t),
        forall|i: int, j: int| 0 <= i < j < r@.len() ==> cover_before(r@[i], r@[j]),
{
    let mut r: Vec<MapTag> = Vec::new();
    let out_end = right_down.x_len;
    let inside_start = left_up.y_len;
    let inside_end = right_down.y_len;
    let mut x_len = left_up.x_len;
    while x_len < out_end + 1
        invariant
            is_normalized(left_up),
            is_normalized(right_down),
            out_end == right_down.x_len,
            inside_start == left_up.y_len,
            inside_end == right_down.y_len,
            left_up.x_len <= x_len,
            x_len <= out_end + 1 || x_len == left_up.x_len,
            forall|t: MapTag| r@.contains(t) <==> (in_cover(left_up, right_down, t) && t.x_len < x_len),
            forall|i: int, j: int| 0 <= i < j < r@.len() ==> cover_before(r@[i], r@[j]),
            forall|i: int| 0 <= i < r@.len() ==> r@[i].x_len < x_len,
        decreases out_end + 1 - x_len,
    {
        if x_len == 0 {
            x_len = x_len + 1;
        }
        let mut y_len = inside_start;
        while inside_end - 1 < y_len
            invariant
                is_normalized(left_up),
                is_normalized(right_down),
                out_end == right_down.x_len,
                inside_start == left_up.y_len,
                inside_end == right_down.y_len,
                left_up.x_len <= x_len <= out_end,
                x_len != 0,
                y_len <= inside_start,
                y_len >= inside_end - 1 || y_len == inside_start,
                forall|t: MapTag| r@.contains(t) <==> (in_cover(left_up, right_down, t) && (t.x_len < x_len || (t.x_len == x_len && t.y_len > y_len))),
                forall|i: int, j: int| 0 <= i < j < r@.len() ==> cover_before(r@[i], r@[j]),
                forall|i: int| 0 <= i < r@.len() ==> r@[i].x_len < x_len || (r@[i].x_len == x_len && r@[i].y_len > y_len),
            decreases y_len - inside_end + 1,
        {
            if y_len == 0 {
                y_len = y_len - 1;
            }
            let t = cell_tag_exec(x_len, y_len);
            let ghost old_r = r@;
            r.push(t);
            proof {
                assert(r@ =~= old_r.push(t));
                assert forall|u: MapTag| r@.contains(u) <==> (in_cover(left_up, right_down, u) && (u.x_len < x_len || (u.x_len == x_len && u.y_len > y_len - 1))) by {
                    if r@.contains(u) {
                        if u != t {
                            let k = choose|k: int| 0 <= k < r@.len() && r@[k] == u;
                            assert(old_r[k] == u);
                            assert(old_r.contains(u));
                        }
                    }
                    if in_cover(left_up, right_down, u) && (u.x_len < x_len || (u.x_len == x_len && u.y_len > y_len - 1)) {
                        if u.x_len == x_len && u.y_len == y_len {
                            assert(r@[old_r.len() as int] == u);
                        } else {
                            assert(old_r.contains(u));
                            let k = choose|k: int| 0 <= k < old_r.len() && old_r[k] == u;
                            assert(r@[k] == u);
                        }
                    }
                }
            }
            y_len = y_len - 1;
        }
        proof {
            assert forall|u: MapTag| r@.contains(u) <==> (in_cover(left_up, right_down, u) && u.x_len < x_len + 1) by {
                if in_cover(left_up, right_down, u) && u.x_len == x_len {
                    assert(u.y_len > y_len);
                }
            }
        }
        x_len = x_len + 1;
    }
    proof {
        assert forall|u: MapTag| r@.contains(u) <==> in_cover(left_up, right_down, u) by {
            if in_cover(left_up, right_down, u) {
                assert(u.x_len < x_len);
            }
        }
    }
    r
}

/// The tags of all the maps of a world, column by column from the left,
/// each column from the bottom.
pub fn world_map_tags() -> (r: Vec<MapTag>)
    ensures
        forall|t: MapTag| r@.contains(t) <==> in_world_grid(t),
        forall|i: int, j: int| 0 <= i < j < r@.len() ==> grid_before(r@[i], r@[j]),
{
    let mut r: Vec<MapTag> = Vec::new();
    let mut x_len: i32 = -5;
    while x_len < 6
        invariant
            -5 <= x_len <= 6,
            forall|t: MapTag| r@.contains(t) <==> (in_world_grid(t) && t.x_len < x_len),
            forall|i: int, j: int| 0 <= i < j < r@.len() ==> grid_before(r@[i], r@[j]),
            forall|i: int| 0 <= i < r@.len() ==> r@[i].x_len < x_len,
        decreases 6 - x_len,
    {
        if x_len != 0 {
            let mut y_len: i32 = -5;
            while y_len < 6
                invariant
                    -5 <= x_len <= 5,
                    x_len != 0,
                    -5 <= y_len <= 6,
                    forall|t: MapTag| r@.contains(t) <==> (in_world_grid(t) && (t.x_len < x_len || (t.x_len == x_len && t.y_len < y_len))),
                    forall|i: int, j: int| 0 <= i < j < r@.len() ==> grid_before(r@[i], r@[j]),
                    forall|i: int| 0 <= i < r@.len() ==> r@[i].x_len < x_len || (r@[i].x_len == x_len && r@[i].y_len < y_len),
                decreases 6 - y_len,
            {
                if y_len != 0 {
                    let t = cell_tag_exec(x_len, y_len);
                    let ghost old_r = r@;
                    r.push(t);
                    proof {
                        assert(r@ =~= old_r.push(t));
                        assert forall|u: MapTag| r@.contains(u) <==> (in_world_grid(u) && (u.x_len < x_len || (u.x_len == x_len && u.y_len < y_len + 1))) by {
                            if r@.contains(u) {
                                if u != t {
                                    let k = choose|k: int| 0 <= k < r@.len() && r@[k] == u;
                                    assert(old_r[k] == u);
                                    assert(old_r.contains(u));
                                }
                            }
                            if in_world_grid(u) && (u.x_len < x_len || (u.x_len == x_len && u.y_len < y_len + 1)) {
                                if u.x_len == x_len && u.y_len == y_len {
                                    assert(r@[old_r.len() as int] == u);
                                } else {
                                    assert(old_r.contains(u));
                                    let k = choose|k: int| 0 <= k < old_r.len() && old_r[k] == u;
                                    assert(r@[k] == u);
                                }
                            }
                        }
                    }
                }
                y_len = y_len + 1;
            }
        }
        proof {
            assert forall|u: MapTag| r@.contains(u) <==> (in_world_grid(u) && u.x_len < x_len + 1) by {
                if in_world_grid(u) && u.x_len == x_len {
                    assert(u.y_len < 6);
                }
            }
        }
        x_len = x_len + 1;
    }
    r
}

} // verus!
