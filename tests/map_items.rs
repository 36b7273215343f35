use eq_maps::map_draw::map_view_box;
use eq_maps::map_items::{
    Color, LineItem, MapItem, MapItems, ParseError, Point, PointItem,
};
use eq_maps::text::{parse_channel, parse_coord};

/// A coordinate in the library's unit, millionths.
fn millionths(v: f64) -> i64 {
    (v * 1e6).round() as i64
}

fn point_item(x: i64, y: i64) -> MapItem {
    MapItem::PointItem(PointItem {
        point: Point { x, y, z: 0 },
        color: Color { r: 0, g: 0, b: 0 },
        label: String::from("p"),
    })
}

fn line_item(fx: i64, fy: i64, tx: i64, ty: i64) -> MapItem {
    MapItem::LineItem(LineItem {
        from: Point { x: fx, y: fy, z: 0 },
        to: Point { x: tx, y: ty, z: 0 },
        color: Color { r: 0, g: 0, b: 0 },
    })
}

fn lines(text: &[&str]) -> Vec<String> {
    text.iter().map(|l| l.to_string()).collect()
}

#[test]
fn parsing_point() {
    let map_item = MapItem::parse(
        "P 78.2306, -50.5124, 0.0020, 255, 254, 253, 3, to_The_Steamfont_Mountains",
    );

    assert!(matches!(map_item, Ok(MapItem::PointItem(_))));

    if let Ok(MapItem::PointItem(point)) = map_item {
        assert_eq!(point.point.x, millionths(78.2306));
        assert_eq!(point.point.y, millionths(-50.5124));
        assert_eq!(point.point.z, millionths(0.0020));
        assert_eq!(point.color.r, 255);
        assert_eq!(point.color.g, 254);
        assert_eq!(point.color.b, 253);
        assert_eq!(point.label, "to_The_Steamfont_Mountains")
    }
}

#[test]
fn parsing_line() {
    let map_item = MapItem::parse("L 1000.0, 1.1, 2.2, 1000.0, -50.0, 3.3, 255, 254, 253");

    assert!(matches!(map_item, Ok(MapItem::LineItem(_))));

    if let Ok(MapItem::LineItem(line)) = map_item {
        assert_eq!(line.from.x, millionths(1000.0));
        assert_eq!(line.from.y, millionths(1.1));
        assert_eq!(line.from.z, millionths(2.2));
        assert_eq!(line.to.x, millionths(1000.0));
        assert_eq!(line.to.y, millionths(-50.0));
        assert_eq!(line.to.z, millionths(3.3));
        assert_eq!(line.color.r, 255);
        assert_eq!(line.color.g, 254);
        assert_eq!(line.color.b, 253);
    }
}

#[test]
fn coordinate_forms() {
    assert_eq!(parse_coord("78.2306"), Some(78_230_600));
    assert_eq!(parse_coord("-50.5124"), Some(-50_512_400));
    assert_eq!(parse_coord("+3"), Some(3_000_000));
    assert_eq!(parse_coord(".5"), Some(500_000));
    assert_eq!(parse_coord("5."), Some(5_000_000));
    assert_eq!(parse_coord("0.12345678"), Some(123_456));
    assert_eq!(parse_coord("999999999999.999999"), Some(999_999_999_999_999_999));
    assert_eq!(parse_coord(""), None);
    assert_eq!(parse_coord("-"), None);
    assert_eq!(parse_coord("."), None);
    assert_eq!(parse_coord("1.2.3"), None);
    assert_eq!(parse_coord("abc"), None);
    assert_eq!(parse_coord(" 1.0"), None);
    assert_eq!(parse_coord("NaN"), None);
    assert_eq!(parse_coord("1e5"), Some(100_000_000_000));
    assert_eq!(parse_coord("1E5"), Some(100_000_000_000));
    assert_eq!(parse_coord("1e+5"), Some(100_000_000_000));
    assert_eq!(parse_coord("2.5e-3"), Some(2_500));
    assert_eq!(parse_coord("-.5e1"), Some(-5_000_000));
    assert_eq!(parse_coord("5.e1"), Some(50_000_000));
    assert_eq!(parse_coord("1e-7"), Some(0));
    assert_eq!(parse_coord("1e-99999999999999999999999"), Some(0));
    assert_eq!(parse_coord("0e99999999999999999999999"), Some(0));
    assert_eq!(parse_coord("1e99999999999999999999999"), None);
    assert_eq!(parse_coord("1e12"), None);
    assert_eq!(parse_coord("9.99e11"), Some(999_000_000_000_000_000));
    assert_eq!(parse_coord("1000000000000"), None);
    assert_eq!(parse_coord("0.000001e6"), Some(1_000_000));
    assert_eq!(parse_coord("e5"), None);
    assert_eq!(parse_coord("1e"), None);
    assert_eq!(parse_coord("1e+"), None);
    assert_eq!(parse_coord("1e5.0"), None);
    assert_eq!(parse_coord("1.5e2.5"), None);
    assert_eq!(parse_coord("inf"), None);
}

#[test]
fn exponent_coordinates_in_items() {
    let item = MapItem::parse("P 1e5, 0, 0, 0, 0, 0, 0, a").unwrap();
    match item {
        MapItem::PointItem(p) => assert_eq!(p.point, Point { x: 100_000_000_000, y: 0, z: 0 }),
        _ => panic!("expected a point"),
    }
    let item = MapItem::parse("L 1e5, 0, 0, 0, 0, 0, 0, 0, 0").unwrap();
    match item {
        MapItem::LineItem(l) => assert_eq!(l.from, Point { x: 100_000_000_000, y: 0, z: 0 }),
        _ => panic!("expected a line"),
    }
    assert_eq!(Point::parse("1e5", "0", "0"), Some(Point { x: 100_000_000_000, y: 0, z: 0 }));
}

#[test]
fn channel_forms() {
    assert_eq!(parse_channel("0"), Some(0));
    assert_eq!(parse_channel("255"), Some(255));
    assert_eq!(parse_channel("+7"), Some(7));
    assert_eq!(parse_channel("0255"), Some(255));
    assert_eq!(parse_channel("256"), None);
    assert_eq!(parse_channel("100000000000000000000"), None);
    assert_eq!(parse_channel("-1"), None);
    assert_eq!(parse_channel("+"), None);
    assert_eq!(parse_channel(""), None);
    assert_eq!(parse_channel("x"), None);
}

#[test]
fn color_parse_reads_three_channels() {
    assert_eq!(Color::parse("1", "2", "3"), Some(Color { r: 1, g: 2, b: 3 }));
    assert_eq!(Color::parse("1", "256", "3"), None);
}

#[test]
fn parse_errors() {
    assert_eq!(MapItem::parse("").err(), Some(ParseError::MissingIdentifier));
    assert_eq!(
        MapItem::parse("X 1.0, 2.0, 0.0, 255, 0, 0, 1, home").err(),
        Some(ParseError::UnrecognizedIdentifier)
    );
    assert_eq!(MapItem::parse("P").err(), Some(ParseError::MissingContent));
    assert_eq!(
        MapItem::parse("P1.0, 2.0, 0.0, 255, 0, 0, 1, home").err(),
        Some(ParseError::MissingContent)
    );
    assert_eq!(
        MapItem::parse("P 1.0, 2.0, 0.0, 255, 0, 0, home").err(),
        Some(ParseError::FieldCount)
    );
    assert_eq!(
        MapItem::parse("L 0.0, 0.0, 0.0, 10.0, 0.0, 0.0, 0, 255").err(),
        Some(ParseError::FieldCount)
    );
    assert_eq!(
        MapItem::parse("P x, 2.0, 0.0, 255, 0, 0, 1, home").err(),
        Some(ParseError::InvalidCoordinate)
    );
    assert_eq!(
        MapItem::parse("L 0.0, 0.0, 0.0, 10.0, y, 0.0, 0, 255, 0").err(),
        Some(ParseError::InvalidCoordinate)
    );
    assert_eq!(
        MapItem::parse("P 1.0, 2.0, 0.0, 256, 0, 0, 1, home").err(),
        Some(ParseError::InvalidColor)
    );
    assert_eq!(
        MapItem::parse("L 0.0, 0.0, 0.0, 10.0, 0.0, 0.0, 0, 255, red").err(),
        Some(ParseError::InvalidColor)
    );
    assert_eq!(
        MapItem::parse("P 1.0, 2.0, 0.0, 255, 0, 0, 1, a, b").err(),
        Some(ParseError::FieldCount)
    );
}

#[test]
fn separator_takes_any_whitespace_run() {
    let item = MapItem::parse("P 1.0,\t 2.0,   0.0,\u{3000}255, 0, 0, 1, my label").unwrap();
    match item {
        MapItem::PointItem(p) => {
            assert_eq!(p.point, Point { x: 1_000_000, y: 2_000_000, z: 0 });
            assert_eq!(p.color, Color { r: 255, g: 0, b: 0 });
            assert_eq!(p.label, "my label");
        }
        _ => panic!("expected a point"),
    }
    assert!(MapItem::parse("P 1.0,2.0, 0.0, 255, 0, 0, 1, home").is_err());
}

#[test]
fn bad_lines_are_skipped_in_a_file() {
    let file = lines(&[
        "P 1.0, 2.0, 0.0, 255, 0, 0, 1, home",
        "",
        "# comment",
        "P 1.0, 2.0, 0.0, 300, 0, 0, 1, bad",
        "L 0.0, 0.0, 0.0, 10.0, 0.0, 0.0, 0, 255, 0",
    ]);
    let items = MapItems::load_from_file(&file);
    assert_eq!(items.items.len(), 2);
    assert!(matches!(items.items[0], MapItem::PointItem(_)));
    assert!(matches!(items.items[1], MapItem::LineItem(_)));
}

#[test]
fn files_concatenate_in_order() {
    let a = lines(&[
        "P 1.0, 1.0, 0.0, 1, 1, 1, 0, a1",
        "P 2.0, 2.0, 0.0, 1, 1, 1, 0, a2",
    ]);
    let b = lines(&["P 3.0, 3.0, 0.0, 1, 1, 1, 0, b1"]);
    let items = MapItems::load_from_files(&vec![a, b]);
    let labels: Vec<String> = items
        .items
        .iter()
        .map(|i| match i {
            MapItem::PointItem(p) => p.label.clone(),
            MapItem::LineItem(_) => String::new(),
        })
        .collect();
    assert_eq!(labels, vec!["a1", "a2", "b1"]);
    assert_eq!(MapItems::load_from_files(&vec![]).items.len(), 0);
}

#[test]
fn view_box_of_nothing() {
    let items = MapItems { items: vec![] };
    assert_eq!(map_view_box(&items), (0, 0, 0, 0));
}

#[test]
fn view_box_of_one_point() {
    let items = MapItems { items: vec![point_item(3_000_000, 4_000_000)] };
    assert_eq!(map_view_box(&items), (3_000_000, 4_000_000, 0, 0));
}

#[test]
fn view_box_of_line_and_point() {
    let items = MapItems {
        items: vec![
            line_item(0, 0, 10_000_000, 5_000_000),
            point_item(-5_000_000, -5_000_000),
        ],
    };
    assert_eq!(
        map_view_box(&items),
        (-5_000_000, -5_000_000, 15_000_000, 10_000_000)
    );
}

#[test]
fn point_example_end_to_end() {
    let item = MapItem::parse("P 1.0, 2.0, 0.0, 255, 0, 0, 1, home").unwrap();
    match &item {
        MapItem::PointItem(p) => {
            assert_eq!(p.point, Point { x: 1_000_000, y: 2_000_000, z: 0 });
            assert_eq!(p.color, Color { r: 255, g: 0, b: 0 });
            assert_eq!(p.label, "home");
            assert_eq!(
                p.svg(),
                "<circle cx=\"1\" cy=\"2\" r=\"3\" fill=\"rgb(255,0,0)\" class=\"point-item-circle\" />\n"
            );
        }
        _ => panic!("expected a point"),
    }
    let doc = MapItems { items: vec![item] }.svg();
    assert_eq!(
        doc,
        "<svg width=\"0\" height=\"0\" viewBox=\"1 2 0 0\" xmlns=\"http://www.w3.org/2000/svg\">\n\
         <circle cx=\"1\" cy=\"2\" r=\"3\" fill=\"rgb(255,0,0)\" class=\"point-item-circle\" />\n\
         </svg>\n"
    );
}

#[test]
fn line_example_end_to_end() {
    let item = MapItem::parse("L 0.0, 0.0, 0.0, 10.0, 0.0, 0.0, 0, 255, 0").unwrap();
    match &item {
        MapItem::LineItem(l) => {
            assert_eq!(l.from, Point { x: 0, y: 0, z: 0 });
            assert_eq!(l.to, Point { x: 10_000_000, y: 0, z: 0 });
            assert_eq!(l.color, Color { r: 0, g: 255, b: 0 });
            assert_eq!(
                l.svg(),
                "<path d=\"M 0 0 L 10 0\" stroke=\"rgb(0,255,0)\" class=\"line-item\" />\n"
            );
        }
        _ => panic!("expected a line"),
    }
}

#[test]
fn one_primitive_per_item_in_order() {
    let file = lines(&[
        "L 0.0, 0.0, 0.0, 10.0, 5.0, 0.0, 0, 255, 0",
        "bad line",
        "P -5.0, -5.0, 0.0, 1, 2, 3, 0, here",
        "P 2.5, -0.125, 0.0, 4, 5, 6, 0, there",
    ]);
    let doc = MapItems::load_from_file(&file).svg();
    let body: Vec<&str> = doc.lines().collect();
    assert_eq!(body.len(), 5);
    assert_eq!(
        body[0],
        "<svg width=\"15\" height=\"10\" viewBox=\"-5 -5 15 10\" xmlns=\"http://www.w3.org/2000/svg\">"
    );
    assert!(body[1].starts_with("<path d=\"M 0 0 L 10 5\""));
    assert!(body[2].starts_with("<circle cx=\"-5\" cy=\"-5\""));
    assert!(body[3].starts_with("<circle cx=\"2.5\" cy=\"-0.125\""));
    assert_eq!(body[4], "</svg>");
}

#[test]
fn color_svg_text() {
    assert_eq!(Color { r: 7, g: 80, b: 255 }.svg(), "rgb(7,80,255)");
}
