//! Parsers for the small languages of the markup: style declarations and colours.
use vstd::prelude::*;
use crate::attributes::{Attributes, Entries, with_binding};
use crate::text::{
    chars_of, find_from, first_at, lemma_first_at, lemma_first_within, part_of, pieces, trim_bounds,
    trimmed,
};

verus! {

/// The key and the value that a style rule declares: what stands before and
/// after its first colon, without the white space around either. A rule
/// without a colon declares nothing.
pub open spec fn rule_binding(rule: Seq<char>) -> Option<(Seq<char>, Seq<char>)> {
    let at = first_at(rule, ':', 0);
    if 0 <= at < rule.len() {
        Some((trimmed(rule.subrange(0, at)), trimmed(rule.subrange(at + 1, rule.len() as int))))
    } else {
        None
    }
}

/// The bindings that the first `n` of `rules` declare; of two rules for one key the later wins.
pub open spec fn declared(rules: Seq<Seq<char>>, n: int) -> Entries
    decreases n,
{
    if n <= 0 {
        Seq::empty()
    } else {
        let prev = declared(rules, n - 1);
        match rule_binding(rules[n - 1]) {
            Some((k, v)) => with_binding(prev, k, v),
            None => prev,
        }
    }
}

/// The bindings that a style text declares: its rules are separated by semicolons.
pub open spec fn styles_of(text: Seq<char>) -> Entries {
    declared(pieces(text, ';', 0), pieces(text, ';', 0).len() as int)
}

/// Reads the declarations of a style text, such as `width: 10px; color: #fff`.
pub fn parse_styles(style_str: &str) -> (styles: Attributes)
    ensures
        styles@ == styles_of(style_str@),
{
    let text = chars_of(style_str);
    let n = text.len();
    let ghost all = pieces(text@, ';', 0);
    let mut styles = Attributes::new();
    let mut from: usize = 0;
    let ghost mut done: int = 0;
    proof {
        lemma_pieces_len(text@, ';', 0);
        assert(all.subrange(0, all.len() as int) =~= all);
    }
    loop
        invariant
            n == text@.len(),
            text@ == style_str@,
            all == pieces(text@, ';', 0),
            from <= n,
            0 <= done < all.len(),
            pieces(text@, ';', from as int) == all.subrange(done, all.len() as int),
            styles@ == declared(all, done),
        decreases n - from,
    {
        let at = find_from(&text, ';', from);
        let colon = find_from(&text, ':', from);
        proof {
            lemma_first_at(text@, ';', from as int);
            lemma_first_within(text@, ':', from as int, at as int, from as int);
            let rest = pieces(text@, ';', from as int);
            assert(rest[0] == text@.subrange(from as int, at as int));
            assert(all[done] == rest[0]);
        }
        if colon < at {
            let key = trim_bounds(&text, from, colon);
            let value = trim_bounds(&text, colon + 1, at);
            proof {
                let rule = text@.subrange(from as int, at as int);
                assert(rule.subrange(0, colon - from) =~= text@.subrange(from as int, colon as int));
                assert(rule.subrange(colon - from + 1, rule.len() as int) =~= text@.subrange(
                    colon + 1,
                    at as int,
                ));
            }
            styles.insert(
                part_of(style_str, &text, key.0, key.1),
                part_of(style_str, &text, value.0, value.1),
            );
        }
        if at >= n {
            proof {
                let rest = pieces(text@, ';', from as int);
                assert(rest.len() == 1);
                assert(done + 1 == all.len());
            }
            return styles;
        }
        proof {
            let rest = pieces(text@, ';', from as int);
            let next = pieces(text@, ';', at + 1);
            lemma_pieces_len(text@, ';', at + 1);
            assert(rest =~= seq![text@.subrange(from as int, at as int)] + next);
            assert(next =~= rest.subrange(1, rest.len() as int));
            assert(rest.subrange(1, rest.len() as int) =~= all.subrange(
                done + 1,
                all.len() as int,
            ));
            done = done + 1;
        }
        from = at + 1;
    }
}

/// A text has at least one piece.
pub proof fn lemma_pieces_len(s: Seq<char>, sep: char, from: int)
    requires
        0 <= from <= s.len(),
    ensures
        pieces(s, sep, from).len() >= 1,
    decreases s.len() - from,
{
    lemma_first_at(s, sep, from);
    let at = first_at(s, sep, from);
    if at < s.len() {
        lemma_pieces_len(s, sep, at + 1);
    }
}

/// The value of a hexadecimal digit.
pub open spec fn hex_value(c: char) -> Option<int> {
    if '0' <= c <= '9' {
        Some(c as u32 - '0' as u32)
    } else if 'a' <= c <= 'f' {
        Some(c as u32 - 'a' as u32 + 10)
    } else if 'A' <= c <= 'F' {
        Some(c as u32 - 'A' as u32 + 10)
    } else {
        None
    }
}

/// The value of one colour channel: two hexadecimal digits, or a plus sign and one.
pub open spec fn channel(high: char, low: char) -> Option<int> {
    if high == '+' {
        hex_value(low)
    } else {
        match (hex_value(high), hex_value(low)) {
            (Some(h), Some(l)) => Some(16 * h + l),
            _ => None,
        }
    }
}

/// The channels of the colour that `digits` writes from `at` on, if all four are there.
pub open spec fn channels(digits: Seq<char>) -> Option<Seq<int>> {
    if digits.len() == 6 {
        match (
            channel(digits[0], digits[1]),
            channel(digits[2], digits[3]),
            channel(digits[4], digits[5]),
        ) {
            (Some(r), Some(g), Some(b)) => Some(seq![r, g, b, 255]),
            _ => None,
        }
    } else if digits.len() == 8 {
        match (
            channel(digits[0], digits[1]),
            channel(digits[2], digits[3]),
            channel(digits[4], digits[5]),
            channel(digits[6], digits[7]),
        ) {
            (Some(r), Some(g), Some(b), Some(a)) => Some(seq![r, g, b, a]),
            _ => None,
        }
    } else {
        None
    }
}

/// The red, green, blue and alpha of a colour text: a number sign followed
/// by three or four channels. Without the fourth the colour is opaque.
pub open spec fn color_of(text: Seq<char>) -> Option<Seq<int>> {
    if text.len() > 0 && text[0] == '#' {
        channels(text.drop_first())
    } else {
        None
    }
}

/// The value of the hexadecimal digit `c`.
fn hex_digit(c: char) -> (r: Option<u8>)
    ensures
        match r {
            Some(d) => hex_value(c) == Some(d as int) && d < 16,
            None => hex_value(c).is_none(),
        },
{
    if c >= '0' && c <= '9' {
        Some((c as u32 - '0' as u32) as u8)
    } else if c >= 'a' && c <= 'f' {
        Some((c as u32 - 'a' as u32 + 10) as u8)
    } else if c >= 'A' && c <= 'F' {
        Some((c as u32 - 'A' as u32 + 10) as u8)
    } else {
        None
    }
}

/// The value of the colour channel that `high` and `low` write.
fn read_channel(high: char, low: char) -> (r: Option<u8>)
    ensures
        match r {
            Some(v) => channel(high, low) == Some(v as int),
            None => channel(high, low).is_none(),
        },
{
    if high == '+' {
        hex_digit(low)
    } else {
        match (hex_digit(high), hex_digit(low)) {
            (Some(h), Some(l)) => Some(16 * h + l),
            _ => None,
        }
    }
}

/// Reads a colour such as `#1a2b3c` or `#1a2b3c80` into red, green, blue and alpha.
pub fn parse_color(input: &str) -> (color: Option<[u8; 4]>)
    ensures
        match color {
            Some(c) => color_of(input@) == Some(
                seq![c[0] as int, c[1] as int, c[2] as int, c[3] as int],
            ),
            None => color_of(input@).is_none(),
        },
{
    let text = chars_of(input);
    let n = text.len();
    if n == 0 || text[0] != '#' {
        return None;
    }
    let ghost digits = text@.drop_first();
    assert(forall|i: int| 0 <= i < digits.len() ==> digits[i] == text@[i + 1]);
    if n == 7 {
        match (
            read_channel(text[1], text[2]),
            read_channel(text[3], text[4]),
            read_channel(text[5], text[6]),
        ) {
            (Some(r), Some(g), Some(b)) => {
                let c = [r, g, b, 255u8];
                assert(seq![c[0] as int, c[1] as int, c[2] as int, c[3] as int] =~= seq![
                    r as int,
                    g as int,
                    b as int,
                    255,
                ]);
                Some(c)
            },
            _ => None,
        }
    } else if n == 9 {
        match (
            read_channel(text[1], text[2]),
            read_channel(text[3], text[4]),
            read_channel(text[5], text[6]),
            read_channel(text[7], text[8]),
        ) {
            (Some(r), Some(g), Some(b), Some(a)) => {
                let c = [r, g, b, a];
                assert(seq![c[0] as int, c[1] as int, c[2] as int, c[3] as int] =~= seq![
                    r as int,
                    g as int,
                    b as int,
                    a as int,
                ]);
                Some(c)
            },
            _ => None,
        }
    } else {
        None
    }
}

} // verus!
