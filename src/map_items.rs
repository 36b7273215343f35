use vstd::prelude::*;
use vstd::string::*;

use crate::text::{
    channel_value, coord_in_range, coord_value, is_whitespace, is_ws, parse_channel, parse_coord,
};

verus! {

/// A map position; each coordinate is in millionths of a map unit.
#[derive(Clone, Copy, Debug, PartialEq, Eq, Structural)]
pub struct Point {
    pub x: i64,
    pub y: i64,
    pub z: i64,
}

#[derive(Clone, Copy, Debug, PartialEq, Eq, Structural)]
pub struct Color {
    pub r: u8,
    pub g: u8,
    pub b: u8,
}

#[derive(Debug)]
pub struct PointItem {
    pub point: Point,
    pub color: Color,
    pub label: String,
}

#[derive(Debug)]
pub struct LineItem {
    pub from: Point,
    pub to: Point,
    pub color: Color,
}

#[derive(Debug)]
pub enum MapItem {
    PointItem(PointItem),
    LineItem(LineItem),
}

/// The items of a map, in drawing order.
#[derive(Debug)]
pub struct MapItems {
    pub items: Vec<MapItem>,
}

/// Why a line does not describe an item.
#[derive(Clone, Copy, Debug, PartialEq, Eq, Structural)]
pub enum ParseError {
    /// The line is empty.
    MissingIdentifier,
    /// The line starts with a character other than `P` or `L`.
    UnrecognizedIdentifier,
    /// The identifier is not followed by a space.
    MissingContent,
    /// The content has the wrong number of fields.
    FieldCount,
    /// A coordinate field is not a number.
    InvalidCoordinate,
    /// A color field is not a number from 0 to 255.
    InvalidColor,
}

/// The value of a map item.
pub enum ItemModel {
    Point { point: Point, color: Color, label: Seq<char> },
    Line { from: Point, to: Point, color: Color },
}

impl View for PointItem {
    type V = ItemModel;

    open spec fn view(&self) -> ItemModel {
        ItemModel::Point { point: self.point, color: self.color, label: self.label@ }
    }
}

impl View for LineItem {
    type V = ItemModel;

    open spec fn view(&self) -> ItemModel {
        ItemModel::Line { from: self.from, to: self.to, color: self.color }
    }
}

impl View for MapItem {
    type V = ItemModel;

    open spec fn view(&self) -> ItemModel {
        match self {
            MapItem::PointItem(p) => p@,
            MapItem::LineItem(l) => l@,
        }
    }
}

impl View for MapItems {
    type V = Seq<ItemModel>;

    open spec fn view(&self) -> Seq<ItemModel> {
        self.items@.map_values(|i: MapItem| i@)
    }
}

pub open spec fn point_in_range(p: Point) -> bool {
    coord_in_range(p.x as int) && coord_in_range(p.y as int) && coord_in_range(p.z as int)
}

pub open spec fn model_in_range(m: ItemModel) -> bool {
    match m {
        ItemModel::Point { point, .. } => point_in_range(point),
        ItemModel::Line { from, to, .. } => point_in_range(from) && point_in_range(to),
    }
}

impl MapItems {
    /// Every coordinate is within `COORD_LIMIT`, as parsing guarantees.
    pub open spec fn wf(&self) -> bool {
        forall|i: int| 0 <= i < self@.len() ==> model_in_range(#[trigger] self@[i])
    }
}

/// End of the run of whitespace that starts at `i`.
pub open spec fn ws_end(s: Seq<char>, i: int) -> int
    decreases s.len() - i,
{
    if i < s.len() && is_ws(s[i]) {
        ws_end(s, i + 1)
    } else {
        i
    }
}

/// A comma followed by whitespace starts at `i`.
pub open spec fn sep_at(s: Seq<char>, i: int) -> bool {
    0 <= i && i + 1 < s.len() && s[i] == ',' && is_ws(s[i + 1])
}

/// The fields of `s` from `i` on, where the current field began at `start`;
/// fields are separated by a comma and one or more whitespace characters.
pub open spec fn split_from(s: Seq<char>, start: int, i: int) -> Seq<Seq<char>>
    decreases s.len() - i,
{
    if i >= s.len() {
        seq![s.subrange(start, s.len() as int)]
    } else if sep_at(s, i) {
        let e = ws_end(s, i + 1);
        if i < e <= s.len() {
            seq![s.subrange(start, i)] + split_from(s, e, e)
        } else {
            Seq::empty()
        }
    } else {
        split_from(s, start, i + 1)
    }
}

/// The fields of a line's content, the text after its identifier and space.
pub open spec fn content_fields(line: Seq<char>) -> Seq<Seq<char>> {
    split_from(line, 2, 2)
}

/// Each range of `r` cuts the text of `d` at the same index out of `s`.
pub open spec fn ranges_match(s: Seq<char>, r: Seq<(usize, usize)>, d: Seq<Seq<char>>) -> bool {
    &&& r.len() == d.len()
    &&& forall|k: int| 0 <= k < r.len() ==> #[trigger] range_ok(s, r[k], d[k])
}

pub open spec fn range_ok(s: Seq<char>, p: (usize, usize), t: Seq<char>) -> bool {
    p.0 <= p.1 && p.1 <= s.len() && s.subrange(p.0 as int, p.1 as int) == t
}

pub proof fn lemma_ranges_push(
    s: Seq<char>,
    r: Seq<(usize, usize)>,
    d: Seq<Seq<char>>,
    a: usize,
    b: usize,
)
    requires
        ranges_match(s, r, d),
        a <= b <= s.len(),
    ensures
        ranges_match(s, r.push((a, b)), d.push(s.subrange(a as int, b as int))),
{
    let r2 = r.push((a, b));
    let d2 = d.push(s.subrange(a as int, b as int));
    assert forall|k: int| 0 <= k < r2.len() implies #[trigger] range_ok(s, r2[k], d2[k]) by {
        if k < r.len() {
            assert(r2[k] == r[k]);
            assert(d2[k] == d[k]);
        }
    }
}

/// Splits `line@[2..]` into its fields, as character ranges of `line`.
fn split_content(line: &str) -> (r: Vec<(usize, usize)>)
    requires
        line@.len() >= 2,
    ensures
        ranges_match(line@, r@, content_fields(line@)),
{
    let n = line.unicode_len();
    let mut r: Vec<(usize, usize)> = Vec::new();
    let ghost done: Seq<Seq<char>> = Seq::empty();
    let mut start: usize = 2;
    let mut i: usize = 2;
    while i < n
        invariant
            n == line@.len(),
            2 <= start <= i <= n,
            ranges_match(line@, r@, done),
            done + split_from(line@, start as int, i as int) == content_fields(line@),
        decreases n - i,
    {
        if line.get_char(i) == ',' && i + 1 < n && is_whitespace(line.get_char(i + 1)) {
            assert(sep_at(line@, i as int));
            let mut e: usize = i + 1;
            while e < n && is_whitespace(line.get_char(e))
                invariant
                    i + 1 <= e <= n,
                    n == line@.len(),
                    ws_end(line@, e as int) == ws_end(line@, i + 1),
                decreases n - e,
            {
                e = e + 1;
            }
            assert(ws_end(line@, e as int) == e);
            proof {
                lemma_ranges_push(line@, r@, done, start, i);
                let old_done = done;
                done = done.push(line@.subrange(start as int, i as int));
                assert(split_from(line@, start as int, i as int) == seq![
                    line@.subrange(start as int, i as int),
                ] + split_from(line@, e as int, e as int));
                assert(old_done + split_from(line@, start as int, i as int) =~= done
                    + split_from(line@, e as int, e as int));
            }
            r.push((start, i));
            start = e;
            i = e;
        } else {
            i = i + 1;
        }
    }
    proof {
        lemma_ranges_push(line@, r@, done, start, n);
        done = done.push(line@.subrange(start as int, n as int));
        assert(done =~= content_fields(line@));
    }
    r.push((start, n));
    r
}

pub open spec fn point_value(x: Seq<char>, y: Seq<char>, z: Seq<char>) -> Option<Point> {
    match (coord_value(x), coord_value(y), coord_value(z)) {
        (Some(a), Some(b), Some(c)) => Some(Point { x: a as i64, y: b as i64, z: c as i64 }),
        _ => None,
    }
}

pub open spec fn color_value(r: Seq<char>, g: Seq<char>, b: Seq<char>) -> Option<Color> {
    match (channel_value(r), channel_value(g), channel_value(b)) {
        (Some(r), Some(g), Some(b)) => Some(Color { r, g, b }),
        _ => None,
    }
}

/// What a line tagged `P` stands for.
pub open spec fn point_line_value(line: Seq<char>) -> Result<ItemModel, ParseError> {
    if line.len() < 2 || line[1] != ' ' {
        Err(ParseError::MissingContent)
    } else {
        let f = content_fields(line);
        if f.len() != 8 {
            Err(ParseError::FieldCount)
        } else {
            match point_value(f[0], f[1], f[2]) {
                None => Err(ParseError::InvalidCoordinate),
                Some(point) => match color_value(f[3], f[4], f[5]) {
                    None => Err(ParseError::InvalidColor),
                    Some(color) => Ok(ItemModel::Point { point, color, label: f[7] }),
                },
            }
        }
    }
}

/// What a line tagged `L` stands for.
pub open spec fn line_line_value(line: Seq<char>) -> Result<ItemModel, ParseError> {
    if line.len() < 2 || line[1] != ' ' {
        Err(ParseError::MissingContent)
    } else {
        let f = content_fields(line);
        if f.len() != 9 {
            Err(ParseError::FieldCount)
        } else {
            match (point_value(f[0], f[1], f[2]), point_value(f[3], f[4], f[5])) {
                (Some(from), Some(to)) => match color_value(f[6], f[7], f[8]) {
                    None => Err(ParseError::InvalidColor),
                    Some(color) => Ok(ItemModel::Line { from, to, color }),
                },
                _ => Err(ParseError::InvalidCoordinate),
            }
        }
    }
}

/// What a line of a map file stands for.
pub open spec fn item_value(line: Seq<char>) -> Result<ItemModel, ParseError> {
    if line.len() == 0 {
        Err(ParseError::MissingIdentifier)
    } else if line[0] == 'P' {
        point_line_value(line)
    } else if line[0] == 'L' {
        line_line_value(line)
    } else {
        Err(ParseError::UnrecognizedIdentifier)
    }
}

/// `r` is the outcome `v` describes.
pub open spec fn parsed_as<T: View<V = ItemModel>>(
    r: Result<T, ParseError>,
    v: Result<ItemModel, ParseError>,
) -> bool {
    match r {
        Ok(t) => v == Ok::<ItemModel, ParseError>(t@),
        Err(e) => v == Err::<ItemModel, ParseError>(e),
    }
}

impl Point {
    pub fn parse(x: &str, y: &str, z: &str) -> (r: Option<Point>)
        ensures
            r == point_value(x@, y@, z@),
            r matches Some(p) ==> point_in_range(p),
    {
        let x = parse_coord(x)?;
        let y = parse_coord(y)?;
        let z = parse_coord(z)?;
        Some(Point { x, y, z })
    }
}

impl Color {
    pub fn parse(r: &str, g: &str, b: &str) -> (c: Option<Color>)
        ensures
            c == color_value(r@, g@, b@),
    {
        let r = parse_channel(r)?;
        let g = parse_channel(g)?;
        let b = parse_channel(b)?;
        Some(Color { r, g, b })
    }
}

/// The text of field `k` of the line's content.
fn field<'a>(line: &'a str, f: &Vec<(usize, usize)>, k: usize) -> (r: &'a str)
    requires
        line@.len() >= 2,
        ranges_match(line@, f@, content_fields(line@)),
        k < f@.len(),
    ensures
        r@ == content_fields(line@)[k as int],
{
    assert(range_ok(line@, f@[k as int], content_fields(line@)[k as int]));
    line.substring_char(f[k].0, f[k].1)
}

impl PointItem {
    /// Parses `P <x>, <y>, <z>, <r>, <g>, <b>, <point type>, <label>`; the
    /// identifier itself is not checked. The label is the last field, taken
    /// verbatim; a label that itself holds a comma followed by whitespace
    /// splits into more fields, and the line is rejected with `FieldCount`.
    pub fn parse(line: &str) -> (r: Result<PointItem, ParseError>)
        ensures
            parsed_as(r, point_line_value(line@)),
            r matches Ok(p) ==> model_in_range(p@),
    {
        let n = line.unicode_len();
        if n < 2 || line.get_char(1) != ' ' {
            return Err(ParseError::MissingContent);
        }
        let f = split_content(line);
        if f.len() != 8 {
            return Err(ParseError::FieldCount);
        }
        let point = match Point::parse(field(line, &f, 0), field(line, &f, 1), field(line, &f, 2)) {
            Some(p) => p,
            None => return Err(ParseError::InvalidCoordinate),
        };
        let color = match Color::parse(field(line, &f, 3), field(line, &f, 4), field(line, &f, 5)) {
            Some(c) => c,
            None => return Err(ParseError::InvalidColor),
        };
        let label = String::from_str(field(line, &f, 7));
        Ok(PointItem { point, color, label })
    }
}

impl LineItem {
    /// Parses `L <fx>, <fy>, <fz>, <tx>, <ty>, <tz>, <r>, <g>, <b>`; the
    /// identifier itself is not checked.
    pub fn parse(line: &str) -> (r: Result<LineItem, ParseError>)
        ensures
            parsed_as(r, line_line_value(line@)),
            r matches Ok(l) ==> model_in_range(l@),
    {
        let n = line.unicode_len();
        if n < 2 || line.get_char(1) != ' ' {
            return Err(ParseError::MissingContent);
        }
        let f = split_content(line);
        if f.len() != 9 {
            return Err(ParseError::FieldCount);
        }
        let from = match Point::parse(field(line, &f, 0), field(line, &f, 1), field(line, &f, 2)) {
            Some(p) => p,
            None => return Err(ParseError::InvalidCoordinate),
        };
        let to = match Point::parse(field(line, &f, 3), field(line, &f, 4), field(line, &f, 5)) {
            Some(p) => p,
            None => return Err(ParseError::InvalidCoordinate),
        };
        let color = match Color::parse(field(line, &f, 6), field(line, &f, 7), field(line, &f, 8)) {
            Some(c) => c,
            None => return Err(ParseError::InvalidColor),
        };
        Ok(LineItem { from, to, color })
    }
}

impl MapItem {
    /// Parses one line of a map file.
    pub fn parse(line: &str) -> (r: Result<MapItem, ParseError>)
        ensures
            parsed_as(r, item_value(line@)),
            r matches Ok(m) ==> model_in_range(m@),
    {
        if line.unicode_len() == 0 {
            return Err(ParseError::MissingIdentifier);
        }
        let c = line.get_char(0);
        if c == 'P' {
            match PointItem::parse(line) {
                Ok(p) => Ok(MapItem::PointItem(p)),
                Err(e) => Err(e),
            }
        } else if c == 'L' {
            match LineItem::parse(line) {
                Ok(l) => Ok(MapItem::LineItem(l)),
                Err(e) => Err(e),
            }
        } else {
            Err(ParseError::UnrecognizedIdentifier)
        }
    }
}

/// The items that the lines of one file describe, in line order; a line that
/// does not parse contributes nothing.
pub open spec fn file_items(lines: Seq<Seq<char>>) -> Seq<ItemModel>
    decreases lines.len(),
{
    if lines.len() == 0 {
        Seq::empty()
    } else {
        let prev = file_items(lines.drop_last());
        match item_value(lines.last()) {
            Ok(m) => prev.push(m),
            Err(_) => prev,
        }
    }
}

/// The items of several files, in file order, then line order.
pub open spec fn files_items(files: Seq<Seq<Seq<char>>>) -> Seq<ItemModel>
    decreases files.len(),
{
    if files.len() == 0 {
        Seq::empty()
    } else {
        files_items(files.drop_last()) + file_items(files.last())
    }
}

pub open spec fn lines_view(lines: Seq<String>) -> Seq<Seq<char>> {
    lines.map_values(|l: String| l@)
}

pub open spec fn files_view(files: Seq<Vec<String>>) -> Seq<Seq<Seq<char>>> {
    files.map_values(|f: Vec<String>| lines_view(f@))
}

/// Loading the lines `a` then the lines `b` gives the items of `a`, then
/// those of `b`.
pub proof fn lemma_file_items_append(a: Seq<Seq<char>>, b: Seq<Seq<char>>)
    ensures
        file_items(a + b) == file_items(a) + file_items(b),
    decreases b.len(),
{
    if b.len() == 0 {
        assert(a + b =~= a);
        assert(file_items(a) + file_items(b) =~= file_items(a));
    } else {
        lemma_file_items_append(a, b.drop_last());
        assert((a + b).drop_last() =~= a + b.drop_last());
        assert((a + b).last() == b.last());
        match item_value(b.last()) {
            Ok(m) => {
                assert(file_items(a) + file_items(b) =~= (file_items(a) + file_items(
                    b.drop_last(),
                )).push(m));
            },
            Err(_) => {},
        }
    }
}

/// A line that does not parse is left out of the file's items, and the lines
/// around it are loaded as if it were not there.
pub proof fn lemma_rejected_line_skipped(a: Seq<Seq<char>>, line: Seq<char>, b: Seq<Seq<char>>)
    requires
        item_value(line) is Err,
    ensures
        file_items(a + seq![line] + b) == file_items(a + b),
{
    lemma_file_items_append(a + seq![line], b);
    lemma_file_items_append(a, b);
    assert((a + seq![line]).drop_last() =~= a);
    assert(file_items(a + seq![line]) == file_items(a));
}

/// Loading the files `a` then the files `b` gives the items of `a`, then those
/// of `b`.
pub proof fn lemma_files_items_append(a: Seq<Seq<Seq<char>>>, b: Seq<Seq<Seq<char>>>)
    ensures
        files_items(a + b) == files_items(a) + files_items(b),
    decreases b.len(),
{
    if b.len() == 0 {
        assert(a + b =~= a);
        assert(files_items(a) + files_items(b) =~= files_items(a));
    } else {
        lemma_files_items_append(a, b.drop_last());
        assert((a + b).drop_last() =~= a + b.drop_last());
        assert((a + b).last() == b.last());
        assert(files_items(a) + files_items(b) =~= files_items(a) + files_items(b.drop_last())
            + file_items(b.last()));
    }
}

/// Loading files gives each file's items in file order, then line order:
/// the concatenation of the items of each file.
pub proof fn lemma_files_items_flatten(files: Seq<Seq<Seq<char>>>)
    ensures
        files_items(files) == files.map_values(|f: Seq<Seq<char>>| file_items(f)).flatten(),
    decreases files.len(),
{
    let per = files.map_values(|f: Seq<Seq<char>>| file_items(f));
    if files.len() > 0 {
        lemma_files_items_flatten(files.drop_last());
        let prev = files.drop_last().map_values(|f: Seq<Seq<char>>| file_items(f));
        assert(per.drop_last() =~= prev);
        per.lemma_flatten_and_flatten_alt_are_equivalent();
        prev.lemma_flatten_and_flatten_alt_are_equivalent();
        assert(per.flatten_alt() == per.drop_last().flatten_alt() + per.last());
    } else {
        assert(per =~= Seq::<Seq<ItemModel>>::empty());
    }
}

/// Two files loaded in a row give the first file's items, then the second's.
pub proof fn lemma_two_files(a: Seq<Seq<char>>, b: Seq<Seq<char>>)
    ensures
        files_items(seq![a, b]) == file_items(a) + file_items(b),
{
    let one: Seq<Seq<Seq<char>>> = seq![a];
    let two: Seq<Seq<Seq<char>>> = seq![a, b];
    assert(two.drop_last() =~= one);
    assert(two.last() == b);
    assert(one.drop_last() =~= Seq::<Seq<Seq<char>>>::empty());
    assert(one.last() == a);
    assert(files_items(one.drop_last()) =~= Seq::<ItemModel>::empty());
    assert(files_items(one) == files_items(one.drop_last()) + file_items(a));
    assert(files_items(one) =~= file_items(a));
}

/// A line is rejected when its identifier is missing or unknown, when its
/// content has the wrong number of fields, or when a coordinate or a color
/// field does not parse.
pub proof fn lemma_malformed_line_rejected(line: Seq<char>)
    ensures
        line.len() == 0 || (line[0] != 'P' && line[0] != 'L') ==> item_value(line) is Err,
        line.len() > 0 && (line[0] == 'P' || line[0] == 'L') && (line.len() < 2 || line[1]
            != ' ') ==> item_value(line) is Err,
        line.len() >= 2 && line[0] == 'P' && content_fields(line).len() != 8 ==> item_value(
            line,
        ) is Err,
        line.len() < 2 || line[1] != ' ' || content_fields(line).len() != 8 ==> point_line_value(
            line,
        ) is Err,
        line.len() < 2 || line[1] != ' ' || content_fields(line).len() != 9 ==> line_line_value(
            line,
        ) is Err,
        line.len() >= 2 && line[0] == 'L' && content_fields(line).len() != 9 ==> item_value(
            line,
        ) is Err,
        line.len() >= 2 && line[0] == 'P' && content_fields(line).len() == 8 ==> ((exists|k: int|
            0 <= k < 3 && (#[trigger] coord_value(content_fields(line)[k])) is None) || (exists|
            k: int|
            3 <= k < 6 && (#[trigger] channel_value(content_fields(line)[k])) is None)
            ==> item_value(line) is Err),
        line.len() >= 2 && line[0] == 'L' && content_fields(line).len() == 9 ==> ((exists|k: int|
            0 <= k < 6 && (#[trigger] coord_value(content_fields(line)[k])) is None) || (exists|
            k: int|
            6 <= k < 9 && (#[trigger] channel_value(content_fields(line)[k])) is None)
            ==> item_value(line) is Err),
{
}

impl MapItems {
    /// The items of one file, given its lines; lines that do not parse are
    /// skipped.
    pub fn load_from_file(lines: &Vec<String>) -> (r: MapItems)
        ensures
            r@ == file_items(lines_view(lines@)),
            r.wf(),
    {
        let mut items: Vec<MapItem> = Vec::new();
        let mut i: usize = 0;
        while i < lines.len()
            invariant
                i <= lines@.len(),
                items@.map_values(|m: MapItem| m@) == file_items(lines_view(lines@.subrange(0, i as int))),
                forall|k: int| 0 <= k < items@.len() ==> model_in_range(#[trigger] items@[k]@),
            decreases lines.len() - i,
        {
            let ghost before = items@;
            let ghost pre = lines_view(lines@.subrange(0, i as int));
            let ghost now = lines_view(lines@.subrange(0, i + 1));
            assert(now.drop_last() =~= pre);
            assert(now.last() == lines@[i as int]@);
            match MapItem::parse(lines[i].as_str()) {
                Ok(m) => {
                    items.push(m);
                    assert(items@.map_values(|m: MapItem| m@) =~= before.map_values(|m: MapItem| m@).push(m@));
                },
                Err(_) => {},
            }
            i = i + 1;
        }
        assert(lines@.subrange(0, lines@.len() as int) =~= lines@);
        let r = MapItems { items };
        assert(r.wf()) by {
            assert forall|k: int| 0 <= k < r@.len() implies model_in_range(#[trigger] r@[k]) by {
                assert(r@[k] == r.items@[k]@);
            }
        }
        r
    }

    /// The items of several files, given the lines of each, in file order.
    pub fn load_from_files(files: &Vec<Vec<String>>) -> (r: MapItems)
        ensures
            r@ == files_items(files_view(files@)),
            r.wf(),
    {
        let mut items: Vec<MapItem> = Vec::new();
        let mut i: usize = 0;
        while i < files.len()
            invariant
                i <= files@.len(),
                items@.map_values(|m: MapItem| m@) == files_items(files_view(files@.subrange(0, i as int))),
                forall|k: int| 0 <= k < items@.len() ==> model_in_range(#[trigger] items@[k]@),
            decreases files.len() - i,
        {
            let ghost before = items@;
            let ghost pre = files_view(files@.subrange(0, i as int));
            let ghost now = files_view(files@.subrange(0, i + 1));
            assert(now.drop_last() =~= pre);
            assert(now.last() == lines_view(files@[i as int]@));
            let mut loaded = MapItems::load_from_file(&files[i]);
            let ghost got = loaded.items@;
            items.append(&mut loaded.items);
            assert(items@ =~= before + got);
            assert(items@.map_values(|m: MapItem| m@) =~= before.map_values(|m: MapItem| m@)
                + got.map_values(|m: MapItem| m@));
            assert forall|k: int| 0 <= k < items@.len() implies model_in_range(#[trigger] items@[k]@) by {
                if k >= before.len() {
                    assert(items@[k] == got[k - before.len()]);
                    assert(got.map_values(|m: MapItem| m@)[k - before.len()] == got[k - before.len()]@);
                }
            }
            i = i + 1;
        }
        assert(files@.subrange(0, files@.len() as int) =~= files@);
        let r = MapItems { items };
        assert(r.wf()) by {
            assert forall|k: int| 0 <= k < r@.len() implies model_in_range(#[trigger] r@[k]) by {
                assert(r@[k] == r.items@[k]@);
            }
        }
        r
    }
}

} // verus!
