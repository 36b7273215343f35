use vstd::prelude::*;
use vstd::string::*;

use crate::map_items::{
    Color, ItemModel, LineItem, MapItem, MapItems, PointItem, model_in_range,
};
use crate::text::{
    COORD_SCALE, abs, coord_in_range, coord_text, digit_char, fixed_text, frac_text, int_text,
    push_coord, push_int, trim_zeros,
};

verus! {

/// The x coordinates that an item spans: one for a point, two for a line.
pub open spec fn item_xs(m: ItemModel) -> Seq<int> {
    match m {
        ItemModel::Point { point, .. } => seq![point.x as int],
        ItemModel::Line { from, to, .. } => seq![from.x as int, to.x as int],
    }
}

pub open spec fn item_ys(m: ItemModel) -> Seq<int> {
    match m {
        ItemModel::Point { point, .. } => seq![point.y as int],
        ItemModel::Line { from, to, .. } => seq![from.y as int, to.y as int],
    }
}

/// All x coordinates of the items, in item order.
pub open spec fn xs_of(items: Seq<ItemModel>) -> Seq<int>
    decreases items.len(),
{
    if items.len() == 0 {
        Seq::empty()
    } else {
        xs_of(items.drop_last()) + item_xs(items.last())
    }
}

pub open spec fn ys_of(items: Seq<ItemModel>) -> Seq<int>
    decreases items.len(),
{
    if items.len() == 0 {
        Seq::empty()
    } else {
        ys_of(items.drop_last()) + item_ys(items.last())
    }
}

pub open spec fn seq_min(s: Seq<int>) -> int
    decreases s.len(),
{
    if s.len() <= 1 {
        s[0]
    } else if seq_min(s.drop_last()) <= s.last() {
        seq_min(s.drop_last())
    } else {
        s.last()
    }
}

pub open spec fn seq_max(s: Seq<int>) -> int
    decreases s.len(),
{
    if s.len() <= 1 {
        s[0]
    } else if seq_max(s.drop_last()) >= s.last() {
        seq_max(s.drop_last())
    } else {
        s.last()
    }
}

/// The bounding box of the items' (x, y) positions, as origin x, origin y,
/// width and height; all zero for no items.
pub open spec fn view_box(items: Seq<ItemModel>) -> (int, int, int, int) {
    if items.len() == 0 {
        (0, 0, 0, 0)
    } else {
        let xs = xs_of(items);
        let ys = ys_of(items);
        (seq_min(xs), seq_min(ys), seq_max(xs) - seq_min(xs), seq_max(ys) - seq_min(ys))
    }
}

/// Minimum and maximum of `s + more`, from those of a non-empty `s`.
proof fn lemma_extend(s: Seq<int>, more: Seq<int>, lo: int, hi: int)
    requires
        1 <= more.len() <= 2,
        s.len() > 0 ==> lo == seq_min(s) && hi == seq_max(s),
        s.len() == 0 ==> lo == more[0] && hi == more[0],
    ensures
        seq_min(s + more) == if more.len() == 1 {
            if lo <= more[0] { lo } else { more[0] }
        } else {
            let m = if lo <= more[0] { lo } else { more[0] };
            if m <= more[1] { m } else { more[1] }
        },
        seq_max(s + more) == if more.len() == 1 {
            if hi >= more[0] { hi } else { more[0] }
        } else {
            let m = if hi >= more[0] { hi } else { more[0] };
            if m >= more[1] { m } else { more[1] }
        },
{
    let one = s.push(more[0]);
    assert(one.drop_last() =~= s);
    assert(seq_min(one) == if lo <= more[0] { lo } else { more[0] });
    assert(seq_max(one) == if hi >= more[0] { hi } else { more[0] });
    if more.len() == 1 {
        assert(s + more =~= one);
    } else {
        assert(s + more =~= one.push(more[1]));
        assert((s + more).drop_last() =~= one);
    }
}

/// The bounding box of the items' projected positions.
pub fn map_view_box(map_items: &MapItems) -> (r: (i64, i64, i64, i64))
    requires
        map_items.wf(),
    ensures
        (r.0 as int, r.1 as int, r.2 as int, r.3 as int) == view_box(map_items@),
{
    let items = &map_items.items;
    let ghost all = map_items@;
    let mut min_x: i64 = 0;
    let mut max_x: i64 = 0;
    let mut min_y: i64 = 0;
    let mut max_y: i64 = 0;
    let mut i: usize = 0;
    while i < items.len()
        invariant
            i <= items@.len(),
            all == map_items@,
            items == &map_items.items,
            map_items.wf(),
            i > 0 ==> min_x == seq_min(xs_of(all.subrange(0, i as int))) && max_x == seq_max(
                xs_of(all.subrange(0, i as int)),
            ) && min_y == seq_min(ys_of(all.subrange(0, i as int))) && max_y == seq_max(
                ys_of(all.subrange(0, i as int)),
            ),
            i > 0 ==> xs_of(all.subrange(0, i as int)).len() > 0 && ys_of(
                all.subrange(0, i as int),
            ).len() > 0,
            i == 0 ==> min_x == 0 && max_x == 0 && min_y == 0 && max_y == 0,
            i > 0 ==> coord_in_range(min_x as int) && coord_in_range(max_x as int)
                && coord_in_range(min_y as int) && coord_in_range(max_y as int),
        decreases items.len() - i,
    {
        let ghost pre = all.subrange(0, i as int);
        let ghost now = all.subrange(0, i + 1);
        assert(now.drop_last() =~= pre);
        assert(now.last() == items@[i as int]@);
        assert(model_in_range(all[i as int]));
        let (ax, ay, b) = match &items[i] {
            MapItem::PointItem(p) => (p.point.x, p.point.y, None),
            MapItem::LineItem(l) => (l.from.x, l.from.y, Some((l.to.x, l.to.y))),
        };
        if i == 0 {
            min_x = ax;
            max_x = ax;
            min_y = ay;
            max_y = ay;
            assert(xs_of(pre) =~= Seq::<int>::empty());
            assert(ys_of(pre) =~= Seq::<int>::empty());
        }
        proof {
            lemma_extend(xs_of(pre), item_xs(all[i as int]), min_x as int, max_x as int);
            lemma_extend(ys_of(pre), item_ys(all[i as int]), min_y as int, max_y as int);
        }
        if ax < min_x {
            min_x = ax;
        }
        if ax > max_x {
            max_x = ax;
        }
        if ay < min_y {
            min_y = ay;
        }
        if ay > max_y {
            max_y = ay;
        }
        if let Some((bx, by)) = b {
            if bx < min_x {
                min_x = bx;
            }
            if bx > max_x {
                max_x = bx;
            }
            if by < min_y {
                min_y = by;
            }
            if by > max_y {
                max_y = by;
            }
        }
        i = i + 1;
    }
    assert(all.subrange(0, items@.len() as int) =~= all);
    (min_x, min_y, max_x - min_x, max_y - min_y)
}

pub open spec fn color_text(c: Color) -> Seq<char> {
    "rgb("@ + int_text(c.r as nat) + ","@ + int_text(c.g as nat) + ","@ + int_text(c.b as nat)
        + ")"@
}

/// The one drawing primitive of an item: a stroked path for a line, a filled
/// circle of radius 3 for a point.
pub open spec fn item_svg(m: ItemModel) -> Seq<char> {
    match m {
        ItemModel::Line { from, to, color } => "<path d=\"M "@ + coord_text(from.x as int) + " "@
            + coord_text(from.y as int) + " L "@ + coord_text(to.x as int) + " "@ + coord_text(
            to.y as int,
        ) + "\" stroke=\""@ + color_text(color) + "\" class=\"line-item\" />\n"@,
        ItemModel::Point { point, color, .. } => "<circle cx=\""@ + coord_text(point.x as int)
            + "\" cy=\""@ + coord_text(point.y as int) + "\" r=\"3\" fill=\""@ + color_text(color)
            + "\" class=\"point-item-circle\" />\n"@,
    }
}

/// The primitives of the items, one per item, in item order.
pub open spec fn items_svg(items: Seq<ItemModel>) -> Seq<char>
    decreases items.len(),
{
    if items.len() == 0 {
        Seq::empty()
    } else {
        items_svg(items.drop_last()) + item_svg(items.last())
    }
}

/// The opening tag of the document for a bounding box.
pub open spec fn svg_header(b: (int, int, int, int)) -> Seq<char> {
    "<svg width=\""@ + coord_text(b.2) + "\" height=\""@ + coord_text(b.3) + "\" viewBox=\""@
        + coord_text(b.0) + " "@ + coord_text(b.1) + " "@ + coord_text(b.2) + " "@ + coord_text(
        b.3,
    ) + "\" xmlns=\"http://www.w3.org/2000/svg\">\n"@
}

/// The whole document: its canvas is the items' bounding box.
pub open spec fn map_svg(items: Seq<ItemModel>) -> Seq<char> {
    svg_header(view_box(items)) + items_svg(items) + "</svg>\n"@
}

/// The primitives of `a + b` are those of `a`, then those of `b`: each item
/// adds exactly its own primitive, in order.
pub proof fn lemma_items_svg_append(a: Seq<ItemModel>, b: Seq<ItemModel>)
    ensures
        items_svg(a + b) == items_svg(a) + items_svg(b),
    decreases b.len(),
{
    if b.len() == 0 {
        assert(a + b =~= a);
        assert(items_svg(a) + items_svg(b) =~= items_svg(a));
    } else {
        lemma_items_svg_append(a, b.drop_last());
        assert((a + b).drop_last() =~= a + b.drop_last());
        assert((a + b).last() == b.last());
        assert(items_svg(a) + items_svg(b) =~= items_svg(a) + items_svg(b.drop_last()) + item_svg(
            b.last(),
        ));
    }
}

/// The drawing part of the document is the primitive of each item in turn.
pub proof fn lemma_items_svg_flatten(items: Seq<ItemModel>)
    ensures
        items_svg(items) == items.map_values(|m: ItemModel| item_svg(m)).flatten(),
    decreases items.len(),
{
    let per = items.map_values(|m: ItemModel| item_svg(m));
    if items.len() > 0 {
        lemma_items_svg_flatten(items.drop_last());
        let prev = items.drop_last().map_values(|m: ItemModel| item_svg(m));
        assert(per.drop_last() =~= prev);
        per.lemma_flatten_and_flatten_alt_are_equivalent();
        prev.lemma_flatten_and_flatten_alt_are_equivalent();
        assert(per.flatten_alt() == per.drop_last().flatten_alt() + per.last());
    } else {
        assert(per =~= Seq::<Seq<char>>::empty());
    }
}

/// How many times `c` occurs in `s`.
pub open spec fn count_char(s: Seq<char>, c: char) -> nat
    decreases s.len(),
{
    if s.len() == 0 {
        0
    } else {
        count_char(s.drop_last(), c) + if s.last() == c {
            1nat
        } else {
            0nat
        }
    }
}

proof fn lemma_count_concat(a: Seq<char>, b: Seq<char>, c: char)
    ensures
        count_char(a + b, c) == count_char(a, c) + count_char(b, c),
    decreases b.len(),
{
    if b.len() == 0 {
        assert(a + b =~= a);
    } else {
        lemma_count_concat(a, b.drop_last(), c);
        assert((a + b).drop_last() =~= a + b.drop_last());
    }
}

proof fn lemma_digit_not_tag(d: nat)
    ensures
        digit_char(d) != '<',
{
}

proof fn lemma_int_text_no_tag(n: nat)
    ensures
        count_char(int_text(n), '<') == 0,
    decreases n,
{
    lemma_digit_not_tag(n % 10);
    if n < 10 {
        reveal_with_fuel(count_char, 2);
        assert(int_text(n) == seq![digit_char(n)]);
        assert(seq![digit_char(n)].drop_last() =~= Seq::<char>::empty());
        lemma_digit_not_tag(n);
    } else {
        lemma_int_text_no_tag(n / 10);
        assert(int_text(n).drop_last() =~= int_text(n / 10));
    }
}

proof fn lemma_fixed_text_no_tag(n: nat, k: nat)
    ensures
        count_char(fixed_text(n, k), '<') == 0,
    decreases k,
{
    if k > 0 {
        lemma_digit_not_tag(n % 10);
        lemma_fixed_text_no_tag(n / 10, (k - 1) as nat);
        assert(fixed_text(n, k).drop_last() =~= fixed_text(n / 10, (k - 1) as nat));
    }
}

proof fn lemma_short_no_tag(s: Seq<char>)
    requires
        s.len() <= 1,
        s.len() == 1 ==> s[0] != '<',
    ensures
        count_char(s, '<') == 0,
{
    reveal_with_fuel(count_char, 2);
    if s.len() == 1 {
        assert(s.drop_last() =~= Seq::<char>::empty());
        assert(s.last() == s[0]);
    }
}

proof fn lemma_coord_text_no_tag(v: int)
    ensures
        count_char(coord_text(v), '<') == 0,
{
    let sign: Seq<char> = if v < 0 { seq!['-'] } else { Seq::empty() };
    let m = abs(v);
    let f = m % COORD_SCALE as nat;
    lemma_short_no_tag(sign);
    lemma_short_no_tag(seq!['.']);
    lemma_int_text_no_tag(m / COORD_SCALE as nat);
    lemma_fixed_text_no_tag(trim_zeros(f, 6).0, trim_zeros(f, 6).1);
    lemma_count_concat(seq!['.'], fixed_text(trim_zeros(f, 6).0, trim_zeros(f, 6).1), '<');
    if f == 0 {
        assert(frac_text(f) =~= Seq::<char>::empty());
    }
    lemma_count_concat(sign, int_text(m / COORD_SCALE as nat), '<');
    lemma_count_concat(sign + int_text(m / COORD_SCALE as nat), frac_text(f), '<');
}

/// Each primitive opens exactly one tag.
pub proof fn lemma_item_svg_one_tag(m: ItemModel)
    ensures
        count_char(item_svg(m), '<') == 1,
        item_svg(m)[0] == '<',
{
    reveal_with_fuel(count_char, 40);
    reveal_strlit("rgb(");
    reveal_strlit(",");
    reveal_strlit(")");
    reveal_strlit("<path d=\"M ");
    reveal_strlit(" ");
    reveal_strlit(" L ");
    reveal_strlit("\" stroke=\"");
    reveal_strlit("\" class=\"line-item\" />\n");
    reveal_strlit("<circle cx=\"");
    reveal_strlit("\" cy=\"");
    reveal_strlit("\" r=\"3\" fill=\"");
    reveal_strlit("\" class=\"point-item-circle\" />\n");
    assert(count_char("rgb("@, '<') == 0);
    assert(count_char(","@, '<') == 0);
    assert(count_char(")"@, '<') == 0);
    assert(count_char("<path d=\"M "@, '<') == 1);
    assert(count_char(" "@, '<') == 0);
    assert(count_char(" L "@, '<') == 0);
    assert(count_char("\" stroke=\""@, '<') == 0);
    assert(count_char("\" class=\"line-item\" />\n"@, '<') == 0);
    assert(count_char("<circle cx=\""@, '<') == 1);
    assert(count_char("\" cy=\""@, '<') == 0);
    assert(count_char("\" r=\"3\" fill=\""@, '<') == 0);
    assert(count_char("\" class=\"point-item-circle\" />\n"@, '<') == 0);
    match m {
        ItemModel::Line { from, to, color } => {
            lemma_int_text_no_tag(color.r as nat);
            lemma_int_text_no_tag(color.g as nat);
            lemma_int_text_no_tag(color.b as nat);
            lemma_coord_text_no_tag(from.x as int);
            lemma_coord_text_no_tag(from.y as int);
            lemma_coord_text_no_tag(to.x as int);
            lemma_coord_text_no_tag(to.y as int);
            let c1 = "rgb("@ + int_text(color.r as nat);
            let c2 = c1 + ","@;
            let c3 = c2 + int_text(color.g as nat);
            let c4 = c3 + ","@;
            let c5 = c4 + int_text(color.b as nat);
            lemma_count_concat("rgb("@, int_text(color.r as nat), '<');
            lemma_count_concat(c1, ","@, '<');
            lemma_count_concat(c2, int_text(color.g as nat), '<');
            lemma_count_concat(c3, ","@, '<');
            lemma_count_concat(c4, int_text(color.b as nat), '<');
            lemma_count_concat(c5, ")"@, '<');
            let l1 = "<path d=\"M "@ + coord_text(from.x as int);
            let l2 = l1 + " "@;
            let l3 = l2 + coord_text(from.y as int);
            let l4 = l3 + " L "@;
            let l5 = l4 + coord_text(to.x as int);
            let l6 = l5 + " "@;
            let l7 = l6 + coord_text(to.y as int);
            let l8 = l7 + "\" stroke=\""@;
            let l9 = l8 + color_text(color);
            lemma_count_concat("<path d=\"M "@, coord_text(from.x as int), '<');
            lemma_count_concat(l1, " "@, '<');
            lemma_count_concat(l2, coord_text(from.y as int), '<');
            lemma_count_concat(l3, " L "@, '<');
            lemma_count_concat(l4, coord_text(to.x as int), '<');
            lemma_count_concat(l5, " "@, '<');
            lemma_count_concat(l6, coord_text(to.y as int), '<');
            lemma_count_concat(l7, "\" stroke=\""@, '<');
            lemma_count_concat(l8, color_text(color), '<');
            lemma_count_concat(l9, "\" class=\"line-item\" />\n"@, '<');
        },
        ItemModel::Point { point, color, .. } => {
            lemma_int_text_no_tag(color.r as nat);
            lemma_int_text_no_tag(color.g as nat);
            lemma_int_text_no_tag(color.b as nat);
            lemma_coord_text_no_tag(point.x as int);
            lemma_coord_text_no_tag(point.y as int);
            let c1 = "rgb("@ + int_text(color.r as nat);
            let c2 = c1 + ","@;
            let c3 = c2 + int_text(color.g as nat);
            let c4 = c3 + ","@;
            let c5 = c4 + int_text(color.b as nat);
            lemma_count_concat("rgb("@, int_text(color.r as nat), '<');
            lemma_count_concat(c1, ","@, '<');
            lemma_count_concat(c2, int_text(color.g as nat), '<');
            lemma_count_concat(c3, ","@, '<');
            lemma_count_concat(c4, int_text(color.b as nat), '<');
            lemma_count_concat(c5, ")"@, '<');
            let p1 = "<circle cx=\""@ + coord_text(point.x as int);
            let p2 = p1 + "\" cy=\""@;
            let p3 = p2 + coord_text(point.y as int);
            let p4 = p3 + "\" r=\"3\" fill=\""@;
            let p5 = p4 + color_text(color);
            lemma_count_concat("<circle cx=\""@, coord_text(point.x as int), '<');
            lemma_count_concat(p1, "\" cy=\""@, '<');
            lemma_count_concat(p2, coord_text(point.y as int), '<');
            lemma_count_concat(p3, "\" r=\"3\" fill=\""@, '<');
            lemma_count_concat(p4, color_text(color), '<');
            lemma_count_concat(p5, "\" class=\"point-item-circle\" />\n"@, '<');
        },
    }
}

/// The document's drawing part holds exactly one primitive per item: as many
/// tags as items, the primitive of each item in turn.
pub proof fn lemma_one_primitive_per_item(items: Seq<ItemModel>)
    ensures
        count_char(items_svg(items), '<') == items.len(),
    decreases items.len(),
{
    if items.len() > 0 {
        lemma_one_primitive_per_item(items.drop_last());
        lemma_item_svg_one_tag(items.last());
        lemma_count_concat(items_svg(items.drop_last()), item_svg(items.last()), '<');
    }
}

impl Color {
    fn push_svg(&self, s: &mut String)
        ensures
            final(s)@ == old(s)@ + color_text(*self),
    {
        let ghost start = s@;
        s.append("rgb(");
        push_int(s, self.r as u64);
        s.append(",");
        push_int(s, self.g as u64);
        s.append(",");
        push_int(s, self.b as u64);
        s.append(")");
        assert(s@ =~= start + color_text(*self));
    }

    /// The color as an SVG `rgb(r,g,b)` value.
    pub fn svg(&self) -> (r: String)
        ensures
            r@ == color_text(*self),
    {
        let mut s = String::new();
        self.push_svg(&mut s);
        assert(s@ =~= color_text(*self));
        s
    }
}

impl LineItem {
    fn push_svg(&self, s: &mut String)
        ensures
            final(s)@ == old(s)@ + item_svg(self@),
    {
        let ghost start = s@;
        s.append("<path d=\"M ");
        push_coord(s, self.from.x);
        s.append(" ");
        push_coord(s, self.from.y);
        s.append(" L ");
        push_coord(s, self.to.x);
        s.append(" ");
        push_coord(s, self.to.y);
        s.append("\" stroke=\"");
        self.color.push_svg(s);
        s.append("\" class=\"line-item\" />\n");
        assert(s@ =~= start + item_svg(self@));
    }

    /// The line as a stroked SVG path.
    pub fn svg(&self) -> (r: String)
        ensures
            r@ == item_svg(self@),
    {
        let mut s = String::new();
        self.push_svg(&mut s);
        assert(s@ =~= item_svg(self@));
        s
    }
}

impl PointItem {
    fn push_svg(&self, s: &mut String)
        ensures
            final(s)@ == old(s)@ + item_svg(self@),
    {
        let ghost start = s@;
        s.append("<circle cx=\"");
        push_coord(s, self.point.x);
        s.append("\" cy=\"");
        push_coord(s, self.point.y);
        s.append("\" r=\"3\" fill=\"");
        self.color.push_svg(s);
        s.append("\" class=\"point-item-circle\" />\n");
        assert(s@ =~= start + item_svg(self@));
    }

    /// The point as a filled SVG circle; the label is not drawn.
    pub fn svg(&self) -> (r: String)
        ensures
            r@ == item_svg(self@),
    {
        let mut s = String::new();
        self.push_svg(&mut s);
        assert(s@ =~= item_svg(self@));
        s
    }
}

impl MapItems {
    /// The SVG document of the map: a canvas the size of the bounding box,
    /// then one primitive per item, in item order.
    pub fn svg(&self) -> (r: String)
        requires
            self.wf(),
        ensures
            r@ == map_svg(self@),
    {
        let b = map_view_box(self);
        let mut s = String::new();
        s.append("<svg width=\"");
        push_coord(&mut s, b.2);
        s.append("\" height=\"");
        push_coord(&mut s, b.3);
        s.append("\" viewBox=\"");
        push_coord(&mut s, b.0);
        s.append(" ");
        push_coord(&mut s, b.1);
        s.append(" ");
        push_coord(&mut s, b.2);
        s.append(" ");
        push_coord(&mut s, b.3);
        s.append("\" xmlns=\"http://www.w3.org/2000/svg\">\n");
        assert(s@ =~= svg_header(view_box(self@)));
        let ghost head = s@;
        let mut i: usize = 0;
        while i < self.items.len()
            invariant
                i <= self.items@.len(),
                s@ == head + items_svg(self@.subrange(0, i as int)),
            decreases self.items.len() - i,
        {
            let ghost pre = self@.subrange(0, i as int);
            let ghost now = self@.subrange(0, i + 1);
            assert(now.drop_last() =~= pre);
            assert(now.last() == self.items@[i as int]@);
            match &self.items[i] {
                MapItem::LineItem(l) => l.push_svg(&mut s),
                MapItem::PointItem(p) => p.push_svg(&mut s),
            }
            assert(s@ =~= head + items_svg(now));
            i = i + 1;
        }
        assert(self@.subrange(0, self.items@.len() as int) =~= self@);
        s.append("</svg>\n");
        assert(s@ =~= map_svg(self@));
        s
    }
}

} // verus!
