//! Helpers on strings and character sequences that the parsers share.
use vstd::prelude::*;
use vstd::string::*;

verus! {

/// Compares two string slices with `str`'s own `==`.
///
/// Trusted: the standard library compares the two slices byte for byte, and
/// two strings have the same UTF-8 bytes exactly when they hold the same
/// characters.
#[verifier::external_body]
pub(crate) fn str_eq(a: &str, b: &str) -> (same: bool)
    ensures
        same == (a@ == b@),
{
    a == b
}

/// The characters of a string slice.
pub fn chars_of(s: &str) -> (r: Vec<char>)
    ensures
        r@ == s@,
{
    broadcast use vstd::string::axiom_spec_iter;

    let mut out: Vec<char> = Vec::new();
    for c in it: s.chars()
        invariant
            it.seq() == s@,
            out@ == s@.take(it.index() as int),
    {
        out.push(c);
        assert(out@ =~= s@.take(it.index() + 1));
    }
    assert(out@ =~= s@);
    out
}

/// Whether `c` is white space: a character with the Unicode property `White_Space`.
pub open spec fn is_space(c: char) -> bool {
    let n = c as u32;
    (0x09 <= n <= 0x0D) || n == 0x20 || n == 0x85 || n == 0xA0 || n == 0x1680 || (0x2000 <= n
        <= 0x200A) || n == 0x2028 || n == 0x2029 || n == 0x202F || n == 0x205F || n == 0x3000
}

/// Whether `c` is white space.
pub fn is_whitespace(c: char) -> (r: bool)
    ensures
        r == is_space(c),
{
    let n = c as u32;
    (0x09 <= n && n <= 0x0D) || n == 0x20 || n == 0x85 || n == 0xA0 || n == 0x1680 || (0x2000 <= n
        && n <= 0x200A) || n == 0x2028 || n == 0x2029 || n == 0x202F || n == 0x205F || n == 0x3000
}

/// The number of white-space characters at the start of `s`.
pub open spec fn leading_spaces(s: Seq<char>) -> int
    decreases s.len(),
{
    if s.len() > 0 && is_space(s[0]) {
        1 + leading_spaces(s.drop_first())
    } else {
        0
    }
}

/// The number of white-space characters at the end of `s`.
pub open spec fn trailing_spaces(s: Seq<char>) -> int
    decreases s.len(),
{
    if s.len() > 0 && is_space(s.last()) {
        1 + trailing_spaces(s.drop_last())
    } else {
        0
    }
}

/// `s` without the white space at its start and at its end.
pub open spec fn trimmed(s: Seq<char>) -> Seq<char> {
    let lo = leading_spaces(s);
    let rest = s.subrange(lo, s.len() as int);
    rest.subrange(0, rest.len() - trailing_spaces(rest))
}

/// A run of white space from `lo` up to a character that is none is the leading white space.
pub proof fn lemma_leading_is(s: Seq<char>, lo: int)
    requires
        0 <= lo <= s.len(),
        forall|i: int| 0 <= i < lo ==> is_space(#[trigger] s[i]),
        lo < s.len() ==> !is_space(s[lo]),
    ensures
        leading_spaces(s) == lo,
    decreases s.len(),
{
    if lo > 0 {
        assert(is_space(s[0]));
        let rest = s.drop_first();
        assert forall|i: int| 0 <= i < lo - 1 implies is_space(#[trigger] rest[i]) by {
            assert(rest[i] == s[i + 1]);
        }
        lemma_leading_is(rest, lo - 1);
    }
}

/// A run of white space from `hi` to the end, after a character that is none, is the trailing white space.
pub proof fn lemma_trailing_is(s: Seq<char>, hi: int)
    requires
        0 <= hi <= s.len(),
        forall|i: int| hi <= i < s.len() ==> is_space(#[trigger] s[i]),
        hi > 0 ==> !is_space(s[hi - 1]),
    ensures
        trailing_spaces(s) == s.len() - hi,
    decreases s.len(),
{
    if hi < s.len() {
        assert(is_space(s[s.len() - 1]));
        let rest = s.drop_last();
        assert forall|i: int| hi <= i < rest.len() implies is_space(#[trigger] rest[i]) by {
            assert(rest[i] == s[i]);
        }
        lemma_trailing_is(rest, hi);
    }
}

/// A copy of the characters of `v` from `lo` up to `hi`.
pub fn slice_of(v: &Vec<char>, lo: usize, hi: usize) -> (r: Vec<char>)
    requires
        lo <= hi <= v@.len(),
    ensures
        r@ == v@.subrange(lo as int, hi as int),
{
    let mut out: Vec<char> = Vec::new();
    let mut i = lo;
    while i < hi
        invariant
            lo <= i <= hi <= v@.len(),
            out@ == v@.subrange(lo as int, i as int),
        decreases hi - i,
    {
        out.push(v[i]);
        assert(out@ =~= v@.subrange(lo as int, i + 1));
        i += 1;
    }
    assert(out@ =~= v@.subrange(lo as int, hi as int));
    out
}

/// `v` without the white space at its start and at its end.
pub fn trim(v: &Vec<char>) -> (r: Vec<char>)
    ensures
        r@ == trimmed(v@),
{
    assert(v@.subrange(0, v@.len() as int) =~= v@);
    let bounds = trim_bounds(v, 0, v.len());
    slice_of(v, bounds.0, bounds.1)
}

/// The position of the first `sep` in `s` from `from` on, or the length of `s`.
pub open spec fn first_at(s: Seq<char>, sep: char, from: int) -> int
    decreases s.len() - from,
{
    if from < 0 || from >= s.len() {
        s.len() as int
    } else if s[from] == sep {
        from
    } else {
        first_at(s, sep, from + 1)
    }
}

/// The position of the first `sep` lies between `from` and the end, and no `sep` comes before it.
pub proof fn lemma_first_at(s: Seq<char>, sep: char, from: int)
    requires
        0 <= from <= s.len(),
    ensures
        from <= first_at(s, sep, from) <= s.len(),
        forall|i: int| from <= i < first_at(s, sep, from) ==> s[i] != sep,
        first_at(s, sep, from) < s.len() ==> s[first_at(s, sep, from)] == sep,
    decreases s.len() - from,
{
    if from < s.len() && s[from] != sep {
        lemma_first_at(s, sep, from + 1);
    }
}

/// The position of the first `sep` in `v` from `from` on, or the length of `v`.
pub fn find_from(v: &Vec<char>, sep: char, from: usize) -> (r: usize)
    requires
        from <= v@.len(),
    ensures
        r == first_at(v@, sep, from as int),
        from <= r <= v@.len(),
{
    let n = v.len();
    let mut i = from;
    while i < n && v[i] != sep
        invariant
            n == v@.len(),
            from <= i <= n,
            first_at(v@, sep, from as int) == first_at(v@, sep, i as int),
        decreases n - i,
    {
        i += 1;
    }
    i
}

/// The pieces of `s` from `from` on that `sep` separates: one more than there are separators.
pub open spec fn pieces(s: Seq<char>, sep: char, from: int) -> Seq<Seq<char>>
    decreases s.len() - from,
{
    if from < 0 || from > s.len() {
        Seq::empty()
    } else {
        let at = first_at(s, sep, from);
        if at < from || at >= s.len() {
            seq![s.subrange(from, s.len() as int)]
        } else {
            seq![s.subrange(from, at)] + pieces(s, sep, at + 1)
        }
    }
}


/// The first position from `from` on where `s` has white space, if `space`
/// holds, or something else, if it does not; the length of `s` if there is none.
pub open spec fn next_where(s: Seq<char>, space: bool, from: int) -> int
    decreases s.len() - from,
{
    if from < 0 || from >= s.len() {
        s.len() as int
    } else if is_space(s[from]) == space {
        from
    } else {
        next_where(s, space, from + 1)
    }
}

/// The position that `next_where` gives lies between `from` and the end.
pub proof fn lemma_next_where(s: Seq<char>, space: bool, from: int)
    requires
        0 <= from <= s.len(),
    ensures
        from <= next_where(s, space, from) <= s.len(),
        next_where(s, space, from) < s.len() ==> is_space(s[next_where(s, space, from)]) == space,
    decreases s.len() - from,
{
    if from < s.len() && is_space(s[from]) != space {
        lemma_next_where(s, space, from + 1);
    }
}

/// The position that `next_where` gives.
pub fn scan(v: &Vec<char>, space: bool, from: usize) -> (r: usize)
    requires
        from <= v@.len(),
    ensures
        r == next_where(v@, space, from as int),
        from <= r <= v@.len(),
{
    let n = v.len();
    let mut i = from;
    while i < n && is_whitespace(v[i]) != space
        invariant
            n == v@.len(),
            from <= i <= n,
            next_where(v@, space, from as int) == next_where(v@, space, i as int),
        decreases n - i,
    {
        i += 1;
    }
    i
}

/// The words of `s` from `from` on: the longest runs without white space.
pub open spec fn words(s: Seq<char>, from: int) -> Seq<Seq<char>>
    decreases s.len() - from,
{
    let start = next_where(s, false, from);
    let end = next_where(s, true, start);
    if from < 0 || start < from || start >= s.len() || end <= start || end > s.len() {
        Seq::empty()
    } else {
        seq![s.subrange(start, end)] + words(s, end)
    }
}

/// The words of `v`: the longest runs without white space.
pub fn split_words(v: &Vec<char>) -> (r: Vec<Vec<char>>)
    ensures
        r@.len() == words(v@, 0).len(),
        forall|i: int| 0 <= i < r@.len() ==> (#[trigger] r@[i])@ == words(v@, 0)[i],
{
    let n = v.len();
    let mut out: Vec<Vec<char>> = Vec::new();
    let mut from: usize = 0;
    let ghost mut done: Seq<Seq<char>> = Seq::empty();
    loop
        invariant
            n == v@.len(),
            from <= n,
            out@.len() == done.len(),
            forall|i: int| 0 <= i < out@.len() ==> (#[trigger] out@[i])@ == done[i],
            words(v@, 0) == done + words(v@, from as int),
        decreases n - from,
    {
        let start = scan(v, false, from);
        if start >= n {
            proof {
                assert(words(v@, from as int) =~= Seq::<Seq<char>>::empty());
                assert(words(v@, 0) =~= done);
            }
            return out;
        }
        let end = scan(v, true, start);
        proof {
            lemma_next_where(v@, false, from as int);
            lemma_next_where(v@, true, start as int);
            assert(end > start);
            let head = v@.subrange(start as int, end as int);
            assert(words(v@, from as int) =~= seq![head] + words(v@, end as int));
            assert(done + (seq![head] + words(v@, end as int)) =~= done.push(head) + words(
                v@,
                end as int,
            ));
            done = done.push(head);
        }
        out.push(slice_of(v, start, end));
        from = end;
    }
}

/// `c` in lower case, if it is an upper-case letter of the basic alphabet.
pub open spec fn lower(c: char) -> char {
    if 'A' <= c <= 'Z' {
        ((c as u32 + 32) as u8) as char
    } else {
        c
    }
}

/// `s` with its upper-case letters of the basic alphabet in lower case.
pub open spec fn lowered(s: Seq<char>) -> Seq<char> {
    Seq::new(s.len(), |i: int| lower(s[i]))
}

/// `v` with its upper-case letters of the basic alphabet in lower case.
pub fn to_lower(v: &Vec<char>) -> (r: Vec<char>)
    ensures
        r@ == lowered(v@),
{
    let mut out: Vec<char> = Vec::new();
    let n = v.len();
    let mut i: usize = 0;
    while i < n
        invariant
            n == v@.len(),
            i <= n,
            out@.len() == i,
            forall|j: int| 0 <= j < i ==> out@[j] == lower(v@[j]),
        decreases n - i,
    {
        let c = v[i];
        if c >= 'A' && c <= 'Z' {
            out.push(((c as u32 + 32) as u8) as char);
        } else {
            out.push(c);
        }
        i += 1;
    }
    assert(out@ =~= lowered(v@));
    out
}

/// Whether `s` ends with `suffix`.
pub open spec fn has_suffix(s: Seq<char>, suffix: Seq<char>) -> bool {
    s.len() >= suffix.len() && s.subrange(s.len() - suffix.len(), s.len() as int) == suffix
}

/// `s` without every `suffix` at its end, one after the other.
pub open spec fn without_suffixes(s: Seq<char>, suffix: Seq<char>) -> Seq<char>
    decreases s.len(),
{
    if suffix.len() > 0 && has_suffix(s, suffix) {
        without_suffixes(s.subrange(0, s.len() - suffix.len()), suffix)
    } else {
        s
    }
}

/// Whether `v` up to `end` ends with `suffix`.
pub fn ends_with(v: &Vec<char>, end: usize, suffix: &Vec<char>) -> (r: bool)
    requires
        end <= v@.len(),
    ensures
        r == has_suffix(v@.subrange(0, end as int), suffix@),
{
    let m = suffix.len();
    if end < m {
        return false;
    }
    let ghost s = v@.subrange(0, end as int);
    let mut i: usize = 0;
    while i < m
        invariant
            m == suffix@.len(),
            m <= end <= v@.len(),
            i <= m,
            s == v@.subrange(0, end as int),
            forall|j: int| 0 <= j < i ==> v@[end - m + j] == suffix@[j],
        decreases m - i,
    {
        if v[end - m + i] != suffix[i] {
            proof {
                let tail = s.subrange(s.len() - m, s.len() as int);
                assert(tail[i as int] == v@[end - m + i]);
            }
            return false;
        }
        i += 1;
    }
    assert(s.subrange(s.len() - m, s.len() as int) =~= suffix@);
    true
}

/// `v` without every `suffix` at its end, one after the other.
pub fn strip_suffixes(v: &Vec<char>, suffix: &Vec<char>) -> (r: Vec<char>)
    ensures
        r@ == without_suffixes(v@, suffix@),
{
    let m = suffix.len();
    let mut end = v.len();
    assert(v@.subrange(0, end as int) =~= v@);
    if m == 0 {
        return slice_of(v, 0, end);
    }
    while ends_with(v, end, suffix)
        invariant
            m == suffix@.len(),
            m > 0,
            end <= v@.len(),
            without_suffixes(v@, suffix@) == without_suffixes(v@.subrange(0, end as int), suffix@),
        decreases end,
    {
        proof {
            let s = v@.subrange(0, end as int);
            assert(s.subrange(0, s.len() - m) =~= v@.subrange(0, end - m));
        }
        end -= m;
    }
    slice_of(v, 0, end)
}

/// Whether `v` holds the characters of `s`.
pub fn is_text(v: &Vec<char>, s: &str) -> (r: bool)
    ensures
        r == (v@ == s@),
{
    let other = chars_of(s);
    let n = v.len();
    if other.len() != n {
        return false;
    }
    let mut i: usize = 0;
    while i < n
        invariant
            n == v@.len(),
            n == other@.len(),
            other@ == s@,
            i <= n,
            forall|j: int| 0 <= j < i ==> v@[j] == other@[j],
        decreases n - i,
    {
        if v[i] != other[i] {
            assert(v@[i as int] != other@[i as int]);
            return false;
        }
        i += 1;
    }
    assert(v@ =~= other@);
    true
}

/// Where the characters of `v` from `lo` up to `hi` begin and end without
/// the white space at their start and at their end.
pub fn trim_bounds(v: &Vec<char>, lo: usize, hi: usize) -> (r: (usize, usize))
    requires
        lo <= hi <= v@.len(),
    ensures
        lo <= r.0 <= r.1 <= hi,
        v@.subrange(r.0 as int, r.1 as int) == trimmed(v@.subrange(lo as int, hi as int)),
{
    let ghost s = v@.subrange(lo as int, hi as int);
    let mut from = lo;
    while from < hi && is_whitespace(v[from])
        invariant
            lo <= from <= hi <= v@.len(),
            s == v@.subrange(lo as int, hi as int),
            forall|i: int| 0 <= i < from - lo ==> is_space(#[trigger] s[i]),
        decreases hi - from,
    {
        assert(s[from - lo] == v@[from as int]);
        from += 1;
    }
    let mut to = hi;
    while to > from && is_whitespace(v[to - 1])
        invariant
            lo <= from <= to <= hi <= v@.len(),
            s == v@.subrange(lo as int, hi as int),
            forall|i: int| to - lo <= i < s.len() ==> is_space(#[trigger] s[i]),
        decreases to - from,
    {
        assert(s[to - 1 - lo] == v@[to - 1]);
        to -= 1;
    }
    proof {
        if from < hi {
            assert(s[from - lo] == v@[from as int]);
        }
        lemma_leading_is(s, from - lo);
        let rest = s.subrange(from - lo, s.len() as int);
        assert forall|i: int| to - from <= i < rest.len() implies is_space(#[trigger] rest[i]) by {
            assert(rest[i] == s[i + from - lo]);
        }
        if to > from {
            assert(rest[to - from - 1] == v@[to - 1]);
        }
        lemma_trailing_is(rest, to - from);
        assert(rest.subrange(0, to - from) =~= v@.subrange(from as int, to as int));
    }
    (from, to)
}

/// The first separator of a part of `s` lies where the first separator of
/// `s` from the start of the part on lies, if that is within the part.
pub proof fn lemma_first_within(s: Seq<char>, sep: char, lo: int, hi: int, from: int)
    requires
        0 <= lo <= from <= hi <= s.len(),
    ensures
        first_at(s.subrange(lo, hi), sep, from - lo) == if first_at(s, sep, from) < hi {
            first_at(s, sep, from) - lo
        } else {
            hi - lo
        },
    decreases hi - from,
{
    let part = s.subrange(lo, hi);
    if from < hi {
        assert(part[from - lo] == s[from]);
        if s[from] != sep {
            lemma_first_within(s, sep, lo, hi, from + 1);
        }
    } else {
        lemma_first_at(s, sep, from);
    }
}

/// A copy of the characters of `s` from `lo` up to `hi`; `v` holds the characters of `s`.
pub fn part_of(s: &str, v: &Vec<char>, lo: usize, hi: usize) -> (r: String)
    requires
        v@ == s@,
        lo <= hi <= v@.len(),
    ensures
        r@ == s@.subrange(lo as int, hi as int),
{
    s.substring_char(lo, hi).to_owned()
}

} // verus!
