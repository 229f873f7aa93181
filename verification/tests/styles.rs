use dynamite::attributes::Attributes;
use dynamite::number::NumberError;
use dynamite::styles::{
    AlignContent, AlignItems, Dimension, Display, EdgeValues, FlexDirection, Rgba, Scalar, Style,
};

fn value(s: Scalar) -> f32 {
    s.thousandths as f32 / 1000.0
}

fn points(v: f32) -> Dimension {
    Dimension::Points(Scalar { thousandths: (v * 1000.0) as i64 })
}

fn percent(v: f32) -> Dimension {
    Dimension::Percent(Scalar { thousandths: (v * 1000.0) as i64 })
}

fn edges(top: f32, right: f32, bottom: f32, left: f32) -> EdgeValues {
    EdgeValues {
        top: Scalar { thousandths: (top * 1000.0) as i64 },
        right: Scalar { thousandths: (right * 1000.0) as i64 },
        bottom: Scalar { thousandths: (bottom * 1000.0) as i64 },
        left: Scalar { thousandths: (left * 1000.0) as i64 },
    }
}

fn map_of(pairs: &[(&str, &str)]) -> Attributes {
    let mut map = Attributes::new();
    for (k, v) in pairs {
        map.insert(k.to_string(), v.to_string());
    }
    map
}

#[test]
fn test_edge_values_single() {
    let input = "10";
    let result = EdgeValues::from_str(input).unwrap();
    assert_eq!(value(result.top), 10.0);
    assert_eq!(value(result.right), 10.0);
    assert_eq!(value(result.bottom), 10.0);
    assert_eq!(value(result.left), 10.0);
}

#[test]
fn test_edge_values_two() {
    let input = "10 20";
    let result = EdgeValues::from_str(input).unwrap();
    assert_eq!(value(result.top), 10.0);
    assert_eq!(value(result.right), 20.0);
    assert_eq!(value(result.bottom), 10.0);
    assert_eq!(value(result.left), 20.0);
}

#[test]
fn test_edge_values_three() {
    let input = "10 20 30";
    let result = EdgeValues::from_str(input).unwrap();
    assert_eq!(value(result.top), 10.0);
    assert_eq!(value(result.right), 20.0);
    assert_eq!(value(result.bottom), 30.0);
    assert_eq!(value(result.left), 20.0);
}

#[test]
fn test_edge_values_four() {
    let input = "10 20 30 40";
    let result = EdgeValues::from_str(input).unwrap();
    assert_eq!(value(result.top), 10.0);
    assert_eq!(value(result.right), 20.0);
    assert_eq!(value(result.bottom), 30.0);
    assert_eq!(value(result.left), 40.0);
}

#[test]
fn test_dimension_auto() {
    let result = Dimension::from_str("auto").unwrap();
    assert_eq!(result, Dimension::Auto);
}

#[test]
fn test_dimension_points() {
    let result = Dimension::from_str("100px").unwrap();
    assert_eq!(result, points(100.0));

    let result = Dimension::from_str("100pt").unwrap();
    assert_eq!(result, points(100.0));

    let result = Dimension::from_str("100").unwrap();
    assert_eq!(result, points(100.0));
}

#[test]
fn test_dimension_percent() {
    let result = Dimension::from_str("50%").unwrap();
    assert_eq!(result, percent(50.0));
}

#[test]
fn test_flex_direction_row() {
    let result = FlexDirection::from_str("row").unwrap();
    assert_eq!(result, FlexDirection::Row);
}

#[test]
fn test_flex_direction_column() {
    let result = FlexDirection::from_str("column").unwrap();
    assert_eq!(result, FlexDirection::Column);
}

#[test]
fn test_margin_and_padding_with_edges() {
    let map = map_of(&[("margin-left", "10px"), ("padding-top", "28px"), ("padding-left", "12px")]);

    let style = Style::from_hashmap(&map);

    assert_eq!(style.margin.unwrap(), edges(0.0, 0.0, 0.0, 10.0));
    assert_eq!(style.padding.unwrap(), edges(28.0, 0.0, 0.0, 12.0));
}

#[test]
fn test_style_from_hashmap() {
    let map = map_of(&[
        ("margin", "10px 20px"),
        ("padding", "5 10 15 20"),
        ("width", "100"),
        ("height", "50%"),
        ("flex-direction", "row"),
    ]);

    let style = Style::from_hashmap(&map);

    assert_eq!(style.margin.unwrap(), edges(10.0, 20.0, 10.0, 20.0));
    assert_eq!(style.padding.unwrap(), edges(5.0, 10.0, 15.0, 20.0));
    assert_eq!(style.width.unwrap(), points(100.0));
    assert_eq!(style.height.unwrap(), percent(50.0));
    assert_eq!(style.flex_direction.unwrap(), FlexDirection::Row);
}

#[test]
fn flex_direction_ignores_case_and_space() {
    assert_eq!(FlexDirection::from_str("  COLUMN "), Ok(FlexDirection::Column));
    assert_eq!(FlexDirection::from_str("Row"), Ok(FlexDirection::Row));
    assert_eq!(FlexDirection::from_str("diagonal"), Err(()));
    assert_eq!(FlexDirection::from_str(""), Err(()));
}

#[test]
fn align_items_keywords() {
    assert_eq!(AlignItems::from_str("start"), Ok(AlignItems::Start));
    assert_eq!(AlignItems::from_str("end"), Ok(AlignItems::End));
    assert_eq!(AlignItems::from_str("flex-start"), Ok(AlignItems::FlexStart));
    assert_eq!(AlignItems::from_str("flex-end"), Ok(AlignItems::FlexEnd));
    assert_eq!(AlignItems::from_str(" Center"), Ok(AlignItems::Center));
    assert_eq!(AlignItems::from_str("baseline"), Ok(AlignItems::Baseline));
    assert_eq!(AlignItems::from_str("stretch"), Ok(AlignItems::Stretch));
    assert_eq!(AlignItems::from_str("space-between"), Err(()));
}

#[test]
fn align_content_keywords() {
    assert_eq!(AlignContent::from_str("start"), Ok(AlignContent::Start));
    assert_eq!(AlignContent::from_str("end"), Ok(AlignContent::End));
    assert_eq!(AlignContent::from_str("flex-start"), Ok(AlignContent::FlexStart));
    assert_eq!(AlignContent::from_str("flex-end"), Ok(AlignContent::FlexEnd));
    assert_eq!(AlignContent::from_str("center"), Ok(AlignContent::Center));
    assert_eq!(AlignContent::from_str("stretch"), Ok(AlignContent::Stretch));
    assert_eq!(AlignContent::from_str("SPACE-BETWEEN"), Ok(AlignContent::SpaceBetween));
    assert_eq!(AlignContent::from_str("space-evenly"), Ok(AlignContent::SpaceEvenly));
    assert_eq!(AlignContent::from_str("space-around"), Ok(AlignContent::SpaceAround));
    assert_eq!(AlignContent::from_str("baseline"), Err(()));
}

#[test]
fn edge_values_keep_fractions_and_drop_units() {
    let e = EdgeValues::from_str("1.5px 2.25em").unwrap();
    assert_eq!(e.top, Scalar { thousandths: 1500 });
    assert_eq!(e.right, Scalar { thousandths: 2250 });
    assert_eq!(e.bottom, Scalar { thousandths: 1500 });
    assert_eq!(e.left, Scalar { thousandths: 2250 });
}

#[test]
fn edge_values_of_no_or_too_many_words_are_zero() {
    assert_eq!(EdgeValues::from_str("").unwrap(), edges(0.0, 0.0, 0.0, 0.0));
    assert_eq!(EdgeValues::from_str("   ").unwrap(), edges(0.0, 0.0, 0.0, 0.0));
    assert_eq!(EdgeValues::from_str("1 2 3 4 5").unwrap(), edges(0.0, 0.0, 0.0, 0.0));
}

#[test]
fn edge_values_fail_on_a_word_without_number() {
    assert_eq!(EdgeValues::from_str("10 px"), Err(NumberError::Malformed));
    assert_eq!(EdgeValues::from_str("auto"), Err(NumberError::Malformed));
    assert_eq!(EdgeValues::from_str("1.2.3"), Err(NumberError::Malformed));
}

#[test]
fn dimension_forms() {
    assert_eq!(Dimension::from_str("  AUTO "), Ok(Dimension::Auto));
    assert_eq!(Dimension::from_str("12.5%"), Ok(percent(12.5)));
    assert_eq!(Dimension::from_str("-3px"), Ok(points(-3.0)));
    assert_eq!(Dimension::from_str("7 px"), Ok(points(7.0)));
    assert_eq!(Dimension::from_str("7pxpx"), Ok(points(7.0)));
    assert_eq!(Dimension::from_str("px"), Err(NumberError::Malformed));
    assert_eq!(Dimension::from_str("wide"), Err(NumberError::Malformed));
    assert_eq!(Dimension::from_str("99999999999999999999px"), Err(NumberError::OutOfRange));
}

#[test]
fn style_from_text_resolves_every_property() {
    let style = Style::from_str(
        "display: flex; flex-direction: column; font-size: 14; color: #ff0000; \
         background-color: #00ff0080; gap: 4px; align-items: center; justify-content: space-between",
    );
    assert_eq!(style.display, Some(Display::Flex));
    assert_eq!(style.flex_direction, Some(FlexDirection::Column));
    assert_eq!(style.font_size, Some(Scalar { thousandths: 14000 }));
    assert_eq!(style.color, Some(Rgba { red: 255, green: 0, blue: 0, alpha: 255 }));
    assert_eq!(style.background_color, Some(Rgba { red: 0, green: 255, blue: 0, alpha: 128 }));
    assert_eq!(style.gap, Some(points(4.0)));
    assert_eq!(style.align_items, Some(AlignItems::Center));
    assert_eq!(style.justify_content, Some(AlignContent::SpaceBetween));
    assert_eq!(style.margin, None);
    assert_eq!(style.padding, None);
    assert_eq!(style.width, None);
    assert_eq!(style.height, None);
}

#[test]
fn style_falls_back_on_what_it_cannot_read() {
    let style = Style::from_str("width: wide; display: inline; color: red; margin: x; nonsense");
    assert_eq!(style.width, None);
    assert_eq!(style.display, Some(Display::Hidden));
    assert_eq!(style.color, None);
    assert_eq!(style.margin, None);
    assert_eq!(Style::from_str(""), Style::default());
}

#[test]
fn side_overrides_shorthand() {
    let map = map_of(&[("margin", "1 2 3 4"), ("margin-right", "9px"), ("margin-bottom", "oops")]);
    assert_eq!(Style::from_hashmap(&map).margin, Some(edges(1.0, 9.0, 3.0, 4.0)));
}

#[test]
fn default_style_has_no_property() {
    let s = Style::default();
    assert_eq!(s.margin, None);
    assert_eq!(s.display, None);
    assert_eq!(s.font_size, None);
    assert_eq!(s.color, None);
}
