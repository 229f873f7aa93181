//! The resolved style record of a node.
//!
//! Every number is a fixed-point [`Scalar`], so two records are equal exactly
//! when they describe the same style.
use vstd::prelude::*;
use vstd::string::*;
use crate::attributes::{Attributes, Entries, value_of};
use crate::number::{NumberError, decimal, is_digit, parse_scalar, scalar_of, signed_decimal};
use crate::parser::{color_of, parse_color, parse_styles, styles_of};
use crate::text::{
    chars_of, ends_with, has_suffix, is_text, lowered, slice_of, split_words, str_eq,
    strip_suffixes, to_lower, trim, trimmed, without_suffixes, words,
};

verus! {

/// A number in thousandths: `1500` stands for one and a half.
#[derive(Clone, Copy, Debug, PartialEq, Eq, Structural)]
pub struct Scalar {
    pub thousandths: i64,
}

/// The four sides of a margin or a padding.
#[derive(Clone, Copy, Debug, PartialEq, Eq, Structural)]
pub struct EdgeValues {
    pub top: Scalar,
    pub right: Scalar,
    pub bottom: Scalar,
    pub left: Scalar,
}

/// A size: left to the layout, a number of points, or a share of the parent in percent.
#[derive(Clone, Copy, Debug, PartialEq, Eq, Structural)]
pub enum Dimension {
    Auto,
    Points(Scalar),
    Percent(Scalar),
}

/// How a node lays out its children.
#[derive(Clone, Copy, Debug, PartialEq, Eq, Structural)]
pub enum Display {
    Block,
    Flex,
    Grid,
    Hidden,
}

/// The main axis of a flex container.
#[derive(Clone, Copy, Debug, PartialEq, Eq, Structural)]
pub enum FlexDirection {
    Row,
    Column,
}

/// How items are placed on the cross axis.
#[derive(Clone, Copy, Debug, PartialEq, Eq, Structural)]
pub enum AlignItems {
    Start,
    End,
    FlexStart,
    FlexEnd,
    Center,
    Baseline,
    Stretch,
}

/// How free space is shared out along an axis.
#[derive(Clone, Copy, Debug, PartialEq, Eq, Structural)]
pub enum AlignContent {
    Start,
    End,
    FlexStart,
    FlexEnd,
    Center,
    Stretch,
    SpaceBetween,
    SpaceEvenly,
    SpaceAround,
}

/// A colour with its opacity.
#[derive(Clone, Copy, Debug, PartialEq, Eq, Structural)]
pub struct Rgba {
    pub red: u8,
    pub green: u8,
    pub blue: u8,
    pub alpha: u8,
}

/// The layout-relevant properties of a node; an absent one takes the layout's default.
#[derive(Clone, Copy, Debug, PartialEq, Eq, Structural)]
pub struct Style {
    pub margin: Option<EdgeValues>,
    pub padding: Option<EdgeValues>,
    pub width: Option<Dimension>,
    pub height: Option<Dimension>,
    pub display: Option<Display>,
    pub flex_direction: Option<FlexDirection>,
    pub font_size: Option<Scalar>,
    pub background_color: Option<Rgba>,
    pub color: Option<Rgba>,
    pub gap: Option<Dimension>,
    pub align_items: Option<AlignItems>,
    pub justify_content: Option<AlignContent>,
}

impl Style {
    /// The record with every property absent.
    pub open spec fn unset() -> Style {
        Style {
            margin: None,
            padding: None,
            width: None,
            height: None,
            display: None,
            flex_direction: None,
            font_size: None,
            background_color: None,
            color: None,
            gap: None,
            align_items: None,
            justify_content: None,
        }
    }
}

impl Default for Style {
    fn default() -> (s: Style)
        ensures
            s == Style::unset(),
    {
        Style {
            margin: None,
            padding: None,
            width: None,
            height: None,
            display: None,
            flex_direction: None,
            font_size: None,
            background_color: None,
            color: None,
            gap: None,
            align_items: None,
            justify_content: None,
        }
    }
}

/// A keyword as it is compared: without the white space around it and in lower case.
pub open spec fn keyword(s: Seq<char>) -> Seq<char> {
    lowered(trimmed(s))
}

/// The keyword that `s` holds.
fn read_keyword(s: &str) -> (r: Vec<char>)
    ensures
        r@ == keyword(s@),
{
    to_lower(&trim(&chars_of(s)))
}

impl FlexDirection {
    /// The flex direction that a text names.
    pub open spec fn named(s: Seq<char>) -> Option<FlexDirection> {
        if keyword(s) == "row"@ {
            Some(FlexDirection::Row)
        } else if keyword(s) == "column"@ {
            Some(FlexDirection::Column)
        } else {
            None
        }
    }

    /// Reads `row` or `column`, in any case and with white space around it.
    pub fn from_str(s: &str) -> (r: Result<FlexDirection, ()>)
        ensures
            r.is_ok() == Self::named(s@).is_some(),
            r.is_ok() ==> Self::named(s@) == Some(r.unwrap()),
    {
        let word = read_keyword(s);
        if is_text(&word, "row") {
            Ok(FlexDirection::Row)
        } else if is_text(&word, "column") {
            Ok(FlexDirection::Column)
        } else {
            Err(())
        }
    }
}

impl AlignItems {
    /// The alignment that a text names.
    pub open spec fn named(s: Seq<char>) -> Option<AlignItems> {
        if keyword(s) == "start"@ {
            Some(AlignItems::Start)
        } else if keyword(s) == "end"@ {
            Some(AlignItems::End)
        } else if keyword(s) == "flex-start"@ {
            Some(AlignItems::FlexStart)
        } else if keyword(s) == "flex-end"@ {
            Some(AlignItems::FlexEnd)
        } else if keyword(s) == "center"@ {
            Some(AlignItems::Center)
        } else if keyword(s) == "baseline"@ {
            Some(AlignItems::Baseline)
        } else if keyword(s) == "stretch"@ {
            Some(AlignItems::Stretch)
        } else {
            None
        }
    }

    /// Reads an alignment keyword, in any case and with white space around it.
    pub fn from_str(s: &str) -> (r: Result<AlignItems, ()>)
        ensures
            r.is_ok() == Self::named(s@).is_some(),
            r.is_ok() ==> Self::named(s@) == Some(r.unwrap()),
    {
        let word = read_keyword(s);
        if is_text(&word, "start") {
            Ok(AlignItems::Start)
        } else if is_text(&word, "end") {
            Ok(AlignItems::End)
        } else if is_text(&word, "flex-start") {
            Ok(AlignItems::FlexStart)
        } else if is_text(&word, "flex-end") {
            Ok(AlignItems::FlexEnd)
        } else if is_text(&word, "center") {
            Ok(AlignItems::Center)
        } else if is_text(&word, "baseline") {
            Ok(AlignItems::Baseline)
        } else if is_text(&word, "stretch") {
            Ok(AlignItems::Stretch)
        } else {
            Err(())
        }
    }
}

impl AlignContent {
    /// The distribution that a text names.
    pub open spec fn named(s: Seq<char>) -> Option<AlignContent> {
        if keyword(s) == "start"@ {
            Some(AlignContent::Start)
        } else if keyword(s) == "end"@ {
            Some(AlignContent::End)
        } else if keyword(s) == "flex-start"@ {
            Some(AlignContent::FlexStart)
        } else if keyword(s) == "flex-end"@ {
            Some(AlignContent::FlexEnd)
        } else if keyword(s) == "center"@ {
            Some(AlignContent::Center)
        } else if keyword(s) == "stretch"@ {
            Some(AlignContent::Stretch)
        } else if keyword(s) == "space-between"@ {
            Some(AlignContent::SpaceBetween)
        } else if keyword(s) == "space-evenly"@ {
            Some(AlignContent::SpaceEvenly)
        } else if keyword(s) == "space-around"@ {
            Some(AlignContent::SpaceAround)
        } else {
            None
        }
    }

    /// Reads a distribution keyword, in any case and with white space around it.
    pub fn from_str(s: &str) -> (r: Result<AlignContent, ()>)
        ensures
            r.is_ok() == Self::named(s@).is_some(),
            r.is_ok() ==> Self::named(s@) == Some(r.unwrap()),
    {
        let word = read_keyword(s);
        if is_text(&word, "start") {
            Ok(AlignContent::Start)
        } else if is_text(&word, "end") {
            Ok(AlignContent::End)
        } else if is_text(&word, "flex-start") {
            Ok(AlignContent::FlexStart)
        } else if is_text(&word, "flex-end") {
            Ok(AlignContent::FlexEnd)
        } else if is_text(&word, "center") {
            Ok(AlignContent::Center)
        } else if is_text(&word, "stretch") {
            Ok(AlignContent::Stretch)
        } else if is_text(&word, "space-between") {
            Ok(AlignContent::SpaceBetween)
        } else if is_text(&word, "space-evenly") {
            Ok(AlignContent::SpaceEvenly)
        } else if is_text(&word, "space-around") {
            Ok(AlignContent::SpaceAround)
        } else {
            Err(())
        }
    }
}

/// Where the number at the start of `s` ends: at the first character from
/// `from` on that is neither a digit nor a decimal point.
pub open spec fn number_end(s: Seq<char>, from: int) -> int
    decreases s.len() - from,
{
    if from < 0 || from >= s.len() {
        s.len() as int
    } else if is_digit(s[from]) || s[from] == '.' {
        number_end(s, from + 1)
    } else {
        from
    }
}

/// The length that a text writes: the number at its start, whatever unit follows.
pub open spec fn length_of(s: Seq<char>) -> Result<Scalar, NumberError> {
    scalar_of(decimal(s.subrange(0, number_end(s, 0))))
}

/// Reads the length at the start of `s`, such as the `10.5` of `10.5px`.
pub fn parse_length(s: &Vec<char>) -> (r: Result<Scalar, NumberError>)
    ensures
        r == length_of(s@),
{
    let n = s.len();
    let mut end: usize = 0;
    while end < n && ((s[end] >= '0' && s[end] <= '9') || s[end] == '.')
        invariant
            n == s@.len(),
            end <= n,
            number_end(s@, 0) == number_end(s@, end as int),
        decreases n - end,
    {
        end += 1;
    }
    let part = slice_of(s, 0, end);
    proof {
        let p = part@;
        if p.len() > 0 {
            assert(p[0] == s@[0]);
            assert(p[0] != '-' && p[0] != '+');
        }
    }
    parse_scalar(&part)
}

/// The lengths of the first `n` words, if each of them writes one; else the first failure.
pub open spec fn lengths_of(parts: Seq<Seq<char>>, n: int) -> Result<Seq<Scalar>, NumberError>
    decreases n,
{
    if n <= 0 {
        Ok(Seq::empty())
    } else {
        match lengths_of(parts, n - 1) {
            Ok(before) => match length_of(parts[n - 1]) {
                Ok(v) => Ok(before.push(v)),
                Err(e) => Err(e),
            },
            Err(e) => Err(e),
        }
    }
}

impl EdgeValues {
    /// All four sides at zero.
    pub open spec fn zero() -> EdgeValues {
        EdgeValues {
            top: Scalar { thousandths: 0 },
            right: Scalar { thousandths: 0 },
            bottom: Scalar { thousandths: 0 },
            left: Scalar { thousandths: 0 },
        }
    }

    /// The sides that one to four lengths stand for: one for all sides, two
    /// for top and bottom, then right and left, three for top, then right and
    /// left, then bottom, four for top, right, bottom and left. Any other
    /// number of lengths stands for zero on all sides.
    pub open spec fn from_lengths(v: Seq<Scalar>) -> EdgeValues {
        if v.len() == 1 {
            EdgeValues { top: v[0], right: v[0], bottom: v[0], left: v[0] }
        } else if v.len() == 2 {
            EdgeValues { top: v[0], right: v[1], bottom: v[0], left: v[1] }
        } else if v.len() == 3 {
            EdgeValues { top: v[0], right: v[1], bottom: v[2], left: v[1] }
        } else if v.len() == 4 {
            EdgeValues { top: v[0], right: v[1], bottom: v[2], left: v[3] }
        } else {
            Self::zero()
        }
    }

    /// The sides that a text of lengths, separated by white space, writes.
    pub open spec fn written(s: Seq<char>) -> Result<EdgeValues, NumberError> {
        let parts = words(s, 0);
        if 1 <= parts.len() <= 4 {
            match lengths_of(parts, parts.len() as int) {
                Ok(v) => Ok(Self::from_lengths(v)),
                Err(e) => Err(e),
            }
        } else {
            Ok(Self::zero())
        }
    }

    /// Reads one to four lengths, such as `10` or `10px 20px`, into the four sides.
    pub fn from_str(s: &str) -> (r: Result<EdgeValues, NumberError>)
        ensures
            r == Self::written(s@),
    {
        let text = chars_of(s);
        let parts = split_words(&text);
        let n = parts.len();
        let zero = Scalar { thousandths: 0 };
        if n < 1 || n > 4 {
            return Ok(EdgeValues { top: zero, right: zero, bottom: zero, left: zero });
        }
        let ghost all = words(text@, 0);
        let mut values: Vec<Scalar> = Vec::new();
        let mut i: usize = 0;
        while i < n
            invariant
                n == parts@.len(),
                n == all.len(),
                all == words(s@, 0),
                1 <= n <= 4,
                i <= n,
                forall|j: int| 0 <= j < n ==> (#[trigger] parts@[j])@ == all[j],
                lengths_of(all, i as int) == Ok::<Seq<Scalar>, NumberError>(values@),
            decreases n - i,
        {
            match parse_length(&parts[i]) {
                Ok(v) => {
                    values.push(v);
                },
                Err(e) => {
                    proof {
                        assert(lengths_of(all, i as int + 1) == Err::<Seq<Scalar>, NumberError>(e));
                        lemma_lengths_fail(all, i as int + 1, n as int);
                    }
                    return Err(e);
                },
            }
            i += 1;
        }
        assert(values@.len() == n) by {
            lemma_lengths_len(all, n as int);
        }
        if n == 1 {
            Ok(EdgeValues { top: values[0], right: values[0], bottom: values[0], left: values[0] })
        } else if n == 2 {
            Ok(EdgeValues { top: values[0], right: values[1], bottom: values[0], left: values[1] })
        } else if n == 3 {
            Ok(EdgeValues { top: values[0], right: values[1], bottom: values[2], left: values[1] })
        } else {
            Ok(EdgeValues { top: values[0], right: values[1], bottom: values[2], left: values[3] })
        }
    }
}

/// Where the lengths of the first `n` words fail, those of more words fail alike.
pub proof fn lemma_lengths_fail(parts: Seq<Seq<char>>, n: int, m: int)
    requires
        lengths_of(parts, n) is Err,
        n <= m,
    ensures
        lengths_of(parts, m) == lengths_of(parts, n),
    decreases m - n,
{
    if n < m {
        lemma_lengths_fail(parts, n, m - 1);
    }
}

/// The lengths of `n` words are `n` lengths.
pub proof fn lemma_lengths_len(parts: Seq<Seq<char>>, n: int)
    requires
        0 <= n,
        lengths_of(parts, n) is Ok,
    ensures
        lengths_of(parts, n)->Ok_0.len() == n,
    decreases n,
{
    if n > 0 {
        lemma_lengths_len(parts, n - 1);
    }
}

impl Dimension {
    /// The size that a text writes: `auto` in any case, a number followed
    /// by `%` for a share of the parent, or a number with or without `px` or
    /// `pt` for points.
    pub open spec fn written(s: Seq<char>) -> Result<Dimension, NumberError> {
        let t = trimmed(s);
        if lowered(t) == "auto"@ {
            Ok(Dimension::Auto)
        } else if has_suffix(t, "%"@) {
            match scalar_of(signed_decimal(trimmed(without_suffixes(t, "%"@)))) {
                Ok(v) => Ok(Dimension::Percent(v)),
                Err(e) => Err(e),
            }
        } else if has_suffix(t, "px"@) {
            match scalar_of(signed_decimal(trimmed(without_suffixes(t, "px"@)))) {
                Ok(v) => Ok(Dimension::Points(v)),
                Err(e) => Err(e),
            }
        } else if has_suffix(t, "pt"@) {
            match scalar_of(signed_decimal(trimmed(without_suffixes(t, "pt"@)))) {
                Ok(v) => Ok(Dimension::Points(v)),
                Err(e) => Err(e),
            }
        } else {
            match scalar_of(signed_decimal(t)) {
                Ok(v) => Ok(Dimension::Points(v)),
                Err(e) => Err(e),
            }
        }
    }

    /// Reads a size such as `auto`, `50%`, `100px`, `100pt` or `100`.
    pub fn from_str(s: &str) -> (r: Result<Dimension, NumberError>)
        ensures
            r == Self::written(s@),
    {
        let t = trim(&chars_of(s));
        let low = to_lower(&t);
        let percent = chars_of("%");
        let px = chars_of("px");
        let pt = chars_of("pt");
        assert(t@.subrange(0, t@.len() as int) =~= t@);
        if is_text(&low, "auto") {
            Ok(Dimension::Auto)
        } else if ends_with(&t, t.len(), &percent) {
            match parse_scalar(&trim(&strip_suffixes(&t, &percent))) {
                Ok(v) => Ok(Dimension::Percent(v)),
                Err(e) => Err(e),
            }
        } else if ends_with(&t, t.len(), &px) {
            match parse_scalar(&trim(&strip_suffixes(&t, &px))) {
                Ok(v) => Ok(Dimension::Points(v)),
                Err(e) => Err(e),
            }
        } else if ends_with(&t, t.len(), &pt) {
            match parse_scalar(&trim(&strip_suffixes(&t, &pt))) {
                Ok(v) => Ok(Dimension::Points(v)),
                Err(e) => Err(e),
            }
        } else {
            match parse_scalar(&t) {
                Ok(v) => Ok(Dimension::Points(v)),
                Err(e) => Err(e),
            }
        }
    }
}

/// What an optional result holds if it is there and succeeded.
pub open spec fn success<T, E>(r: Option<Result<T, E>>) -> Option<T> {
    match r {
        Some(Ok(v)) => Some(v),
        _ => None,
    }
}

/// The length that `map` declares for `key`, if it declares one that can be read.
pub open spec fn side_of(map: Entries, key: Seq<char>) -> Option<Scalar> {
    match value_of(map, key) {
        Some(s) => success(Some(length_of(s))),
        None => None,
    }
}

/// `value` if it is there, else `fallback`.
pub open spec fn or_else(value: Option<Scalar>, fallback: Scalar) -> Scalar {
    match value {
        Some(v) => v,
        None => fallback,
    }
}

/// The sides that `map` declares for a property such as `margin`: those of
/// the shorthand, where it is declared and can be read, and zero where it is
/// not, each overridden by the declaration for that side, such as
/// `margin-top`. Without any declaration that can be read there are no sides.
pub open spec fn edge_of(map: Entries, property: Seq<char>) -> Option<EdgeValues> {
    let shorthand = match value_of(map, property) {
        Some(s) => success(Some(EdgeValues::written(s))),
        None => None,
    };
    let base = match shorthand {
        Some(e) => e,
        None => EdgeValues::zero(),
    };
    let top = side_of(map, property + "-top"@);
    let right = side_of(map, property + "-right"@);
    let bottom = side_of(map, property + "-bottom"@);
    let left = side_of(map, property + "-left"@);
    if shorthand is Some || top is Some || right is Some || bottom is Some || left is Some {
        Some(
            EdgeValues {
                top: or_else(top, base.top),
                right: or_else(right, base.right),
                bottom: or_else(bottom, base.bottom),
                left: or_else(left, base.left),
            },
        )
    } else {
        None
    }
}

/// The length that `map` declares for the side `suffix` of `property`.
fn read_side(map: &Attributes, property: &str, suffix: &str) -> (r: Option<Scalar>)
    ensures
        r == side_of(map@, property@ + suffix@),
{
    let mut key = String::from_str(property);
    key.append(suffix);
    match map.get(key.as_str()) {
        Some(s) => match parse_length(&chars_of(s.as_str())) {
            Ok(v) => Some(v),
            Err(_) => None,
        },
        None => None,
    }
}

/// Reads the four sides of a property such as `margin` or `padding` from
/// the declarations of `map`.
pub fn parse_edge_from_hashmap(map: &Attributes, property: &str) -> (r: Option<EdgeValues>)
    ensures
        r == edge_of(map@, property@),
{
    let shorthand = match map.get(property) {
        Some(s) => match EdgeValues::from_str(s.as_str()) {
            Ok(e) => Some(e),
            Err(_) => None,
        },
        None => None,
    };
    let zero = Scalar { thousandths: 0 };
    let base = match shorthand {
        Some(e) => e,
        None => EdgeValues { top: zero, right: zero, bottom: zero, left: zero },
    };
    let top = read_side(map, property, "-top");
    let right = read_side(map, property, "-right");
    let bottom = read_side(map, property, "-bottom");
    let left = read_side(map, property, "-left");
    if shorthand.is_some() || top.is_some() || right.is_some() || bottom.is_some()
        || left.is_some() {
        Some(
            EdgeValues {
                top: match top {
                    Some(v) => v,
                    None => base.top,
                },
                right: match right {
                    Some(v) => v,
                    None => base.right,
                },
                bottom: match bottom {
                    Some(v) => v,
                    None => base.bottom,
                },
                left: match left {
                    Some(v) => v,
                    None => base.left,
                },
            },
        )
    } else {
        None
    }
}

/// The size that `map` declares for `key`, if it declares one that can be read.
pub open spec fn dimension_of(map: Entries, key: Seq<char>) -> Option<Dimension> {
    match value_of(map, key) {
        Some(s) => success(Some(Dimension::written(s))),
        None => None,
    }
}

/// The display mode that a text names: anything but `block`, `flex` and `grid` hides the node.
pub open spec fn display_named(s: Seq<char>) -> Display {
    if s == "block"@ {
        Display::Block
    } else if s == "flex"@ {
        Display::Flex
    } else if s == "grid"@ {
        Display::Grid
    } else {
        Display::Hidden
    }
}

/// The colour that `map` declares for `key`, if it declares one that can be read.
pub open spec fn rgba_of(map: Entries, key: Seq<char>) -> Option<Rgba> {
    match value_of(map, key) {
        Some(s) => match color_of(s) {
            Some(c) => Some(
                Rgba { red: c[0] as u8, green: c[1] as u8, blue: c[2] as u8, alpha: c[3] as u8 },
            ),
            None => None,
        },
        None => None,
    }
}

/// The style record that the declarations of `map` resolve to. A property
/// that is not declared, or whose declaration cannot be read, is absent.
#[verifier::opaque]
pub open spec fn style_of(map: Entries) -> Style {
    Style {
        margin: edge_of(map, "margin"@),
        padding: edge_of(map, "padding"@),
        width: dimension_of(map, "width"@),
        height: dimension_of(map, "height"@),
        display: match value_of(map, "display"@) {
            Some(s) => Some(display_named(s)),
            None => None,
        },
        flex_direction: match value_of(map, "flex-direction"@) {
            Some(s) => FlexDirection::named(s),
            None => None,
        },
        font_size: match value_of(map, "font-size"@) {
            Some(s) => success(Some(scalar_of(signed_decimal(s)))),
            None => None,
        },
        background_color: rgba_of(map, "background-color"@),
        color: rgba_of(map, "color"@),
        gap: dimension_of(map, "gap"@),
        align_items: match value_of(map, "align-items"@) {
            Some(s) => AlignItems::named(s),
            None => None,
        },
        justify_content: match value_of(map, "justify-content"@) {
            Some(s) => AlignContent::named(s),
            None => None,
        },
    }
}

/// The size that `map` declares for `key`.
fn read_dimension(map: &Attributes, key: &str) -> (r: Option<Dimension>)
    ensures
        r == dimension_of(map@, key@),
{
    match map.get(key) {
        Some(s) => match Dimension::from_str(s.as_str()) {
            Ok(d) => Some(d),
            Err(_) => None,
        },
        None => None,
    }
}

/// The colour that `map` declares for `key`.
fn read_rgba(map: &Attributes, key: &str) -> (r: Option<Rgba>)
    ensures
        r == rgba_of(map@, key@),
{
    match map.get(key) {
        Some(s) => match parse_color(s.as_str()) {
            Some(c) => Some(Rgba { red: c[0], green: c[1], blue: c[2], alpha: c[3] }),
            None => None,
        },
        None => None,
    }
}

impl Style {
    /// Resolves the declarations of `map`, keyed by property name, into a style record.
    pub fn from_hashmap(map: &Attributes) -> (style: Style)
        ensures
            style == style_of(map@),
    {
        let margin = parse_edge_from_hashmap(map, "margin");
        let padding = parse_edge_from_hashmap(map, "padding");
        let width = read_dimension(map, "width");
        let height = read_dimension(map, "height");
        let flex_direction = match map.get("flex-direction") {
            Some(s) => match FlexDirection::from_str(s.as_str()) {
                Ok(d) => Some(d),
                Err(_) => None,
            },
            None => None,
        };
        let justify_content = match map.get("justify-content") {
            Some(s) => match AlignContent::from_str(s.as_str()) {
                Ok(d) => Some(d),
                Err(_) => None,
            },
            None => None,
        };
        let align_items = match map.get("align-items") {
            Some(s) => match AlignItems::from_str(s.as_str()) {
                Ok(d) => Some(d),
                Err(_) => None,
            },
            None => None,
        };
        let display = match map.get("display") {
            Some(s) => Some(
                if str_eq(s.as_str(), "block") {
                    Display::Block
                } else if str_eq(s.as_str(), "flex") {
                    Display::Flex
                } else if str_eq(s.as_str(), "grid") {
                    Display::Grid
                } else {
                    Display::Hidden
                },
            ),
            None => None,
        };
        let font_size = match map.get("font-size") {
            Some(s) => match parse_scalar(&chars_of(s.as_str())) {
                Ok(v) => Some(v),
                Err(_) => None,
            },
            None => None,
        };
        let background_color = read_rgba(map, "background-color");
        let color = read_rgba(map, "color");
        let gap = read_dimension(map, "gap");
        proof {
            reveal(style_of);
        }
        Style {
            margin,
            padding,
            width,
            height,
            display,
            flex_direction,
            font_size,
            background_color,
            color,
            gap,
            align_items,
            justify_content,
        }
    }

    /// Resolves a style text, such as `width: 10px; display: flex`, into a
    /// style record. It never fails: what it cannot read is absent.
    pub fn from_str(value: &str) -> (style: Style)
        ensures
            style == style_of(styles_of(value@)),
    {
        let parsed_styles = parse_styles(value);
        Self::from_hashmap(&parsed_styles)
    }
}

} // verus!
