use vstd::prelude::*;
use regex::Regex;
use crate::text::{
    all_digits, chars_of, decimal, digit_value, digits_value, parse_u32, is_digit, lemma_decimal_digits, lemma_parse_decimal, parse_u32_chars,
    parsed_u32, pieces, push_char, push_decimal, split_on, split_ranges,
};

verus! {

/// Three ASCII digits, `|`, three ASCII digits start at index `i` of `s`.
pub open spec fn coord_at(s: Seq<char>, i: int) -> bool {
    &&& 0 <= i
    &&& i + 7 <= s.len()
    &&& is_digit(s[i])
    &&& is_digit(s[i + 1])
    &&& is_digit(s[i + 2])
    &&& s[i + 3] == '|'
    &&& is_digit(s[i + 4])
    &&& is_digit(s[i + 5])
    &&& is_digit(s[i + 6])
}

/// The regular expression by which coordinates are found in chat messages.
pub open spec fn coordinate_pattern() -> Seq<char> {
    "(\\d{3})\\|(\\d{3})"@
}

/// What the `regex` crate's search for `pattern` in `text` finds: the texts
/// of the first two capture groups of the leftmost match, `None` when
/// nothing matches.
pub uninterp spec fn regex_captures(pattern: Seq<char>, text: Seq<char>) -> Option<(Seq<char>, Seq<char>)>;

/// Calls `regex::Regex::new` and `Regex::captures`, and takes the texts of
/// groups 1 and 2. Trusted: the result is `regex_captures` of the pattern
/// and the text. Since `\d` matches every ASCII digit and a match starting
/// at index 0 is the leftmost one, a text that starts with `ddd|ddd` in
/// ASCII digits gives those two groups, and a text with no such run gives
/// no match. Only the coordinate pattern is admitted, which compiles and
/// has both groups.
#[verifier::external_body]
fn first_captures(pattern: &str, text: &str) -> (r: Option<(String, String)>)
    requires
        pattern@ == coordinate_pattern(),
    ensures
        r matches Some((a, b)) ==> regex_captures(pattern@, text@) == Some((a@, b@)),
        r is None ==> regex_captures(pattern@, text@) is None,
        coord_at(text@, 0) ==> r is Some,
        r matches Some((a, b)) ==> (coord_at(text@, 0) ==> a@ == text@.subrange(0, 3) && b@
            == text@.subrange(4, 7)),
        r is None ==> forall|i: int| !#[trigger] coord_at(text@, i),
{
    let re = Regex::new(pattern).unwrap();
    match re.captures(text) {
        Some(groups) => Some((groups[1].to_string(), groups[2].to_string())),
        None => None,
    }
}

/// What a chat message says about coordinates.
#[derive(Debug, PartialEq, Eq, Clone, Copy)]
pub enum Coordinates {
    /// The message holds no coordinates.
    Absent,
    /// The leftmost coordinates of the message.
    Found { x: u32, y: u32 },
    /// The leftmost match holds digits that `str::parse::<u32>` refuses
    /// (decimal digits of other scripts, which the pattern's `\d` admits).
    Unreadable,
}

/// How the capture groups of a coordinate match are read as numbers.
pub open spec fn coordinates_read(m: Option<(Seq<char>, Seq<char>)>) -> Coordinates {
    match m {
        None => Coordinates::Absent,
        Some((a, b)) => match (parsed_u32(a), parsed_u32(b)) {
            (Some(x), Some(y)) => Coordinates::Found { x, y },
            _ => Coordinates::Unreadable,
        },
    }
}

/// The texts of a pair of captured groups.
pub open spec fn groups_view(m: Option<(String, String)>) -> Option<(Seq<char>, Seq<char>)> {
    match m {
        Some((a, b)) => Some((a@, b@)),
        None => None,
    }
}

/// Reads the two captured groups of a coordinate match as numbers.
pub fn read_coordinates(m: Option<(String, String)>) -> (r: Coordinates)
    ensures
        r == coordinates_read(groups_view(m)),
{
    match m {
        None => Coordinates::Absent,
        Some((a, b)) => match (parse_u32(a.as_str()), parse_u32(b.as_str())) {
            (Some(x), Some(y)) => Coordinates::Found { x, y },
            _ => Coordinates::Unreadable,
        },
    }
}

proof fn lemma_three_digits(s: Seq<char>)
    requires
        s.len() == 3,
        is_digit(s[0]),
        is_digit(s[1]),
        is_digit(s[2]),
    ensures
        digits_value(s) < 1000,
        parsed_u32(s) == Some(digits_value(s) as u32),
{
    assert(s.drop_last().drop_last().drop_last() =~= Seq::<char>::empty());
    assert(s.drop_last().drop_last() =~= seq![s[0]]);
    assert(s.drop_last() =~= seq![s[0], s[1]]);
    assert(digits_value(s.drop_last().drop_last().drop_last()) == 0);
    assert(digits_value(s.drop_last().drop_last()) == digit_value(s[0]));
    assert(digits_value(s.drop_last()) == digit_value(s[0]) * 10 + digit_value(s[1]));
    assert(all_digits(s));
}

/// The coordinates of the leftmost match of `(\d{3})\|(\d{3})` in `content`:
/// absent, the two numbers, or unreadable when a group does not parse.
pub fn first_coordinates(content: &str) -> (r: Coordinates)
    ensures
        r == coordinates_read(regex_captures(coordinate_pattern(), content@)),
        coord_at(content@, 0) ==> r == (Coordinates::Found {
            x: digits_value(content@.subrange(0, 3)) as u32,
            y: digits_value(content@.subrange(4, 7)) as u32,
        }),
        r is Absent ==> forall|i: int| !#[trigger] coord_at(content@, i),
{
    let m = first_captures("(\\d{3})\\|(\\d{3})", content);
    proof {
        if coord_at(content@, 0) {
            let s = content@;
            lemma_three_digits(s.subrange(0, 3));
            lemma_three_digits(s.subrange(4, 7));
        }
    }
    read_coordinates(m)
}

/// The two numbers of a text `a<sep>b...`, each read as `str::parse::<u32>`
/// reads it; `None` when there is no separator or a number does not parse.
pub open spec fn parsed_pair(s: Seq<char>, sep: char) -> Option<(u32, u32)> {
    let p = split_on(s, sep);
    if p.len() >= 2 && parsed_u32(p[0]) is Some && parsed_u32(p[1]) is Some {
        Some((parsed_u32(p[0])->0, parsed_u32(p[1])->0))
    } else {
        None
    }
}

/// The two numbers of `text` around the first `sep`, as the bot reads
/// `123|456` coordinates and `123.456` menu values; `None` when there is no
/// separator or one of the two numbers does not parse.
pub fn parse_pair(text: &str, sep: char) -> (r: Option<(u32, u32)>)
    ensures
        r == parsed_pair(text@, sep),
{
    let v = chars_of(text);
    let ranges = split_ranges(&v, sep);
    assert(pieces(v@, ranges@).len() == ranges@.len());
    if ranges.len() < 2 {
        return None;
    }
    let (a0, a1) = ranges[0];
    let (b0, b1) = ranges[1];
    assert(pieces(v@, ranges@)[0] == v@.subrange(a0 as int, a1 as int));
    assert(pieces(v@, ranges@)[1] == v@.subrange(b0 as int, b1 as int));
    let a = parse_u32_chars(&v, a0, a1);
    let b = parse_u32_chars(&v, b0, b1);
    match (a, b) {
        (Some(x), Some(y)) => Some((x, y)),
        _ => None,
    }
}

/// Splitting a text with no separator in it gives the text itself.
proof fn lemma_split_without_sep(s: Seq<char>, sep: char)
    requires
        !s.contains(sep),
    ensures
        split_on(s, sep) == seq![s],
    decreases s.len(),
{
    if s.len() > 0 {
        assert(!s.drop_last().contains(sep)) by {
            if s.drop_last().contains(sep) {
                let k = choose|k: int| 0 <= k < s.drop_last().len() && s.drop_last()[k] == sep;
                assert(s[k] == sep);
            }
        }
        lemma_split_without_sep(s.drop_last(), sep);
        assert(s.drop_last().push(s.last()) == s);
        assert(split_on(s, sep) =~~= seq![s]);
    } else {
        assert(split_on(s, sep) =~~= seq![s]);
    }
}

/// Splitting `a`, the separator, then `b` without separator adds `b` as the
/// last piece.
proof fn lemma_split_after_sep(a: Seq<char>, b: Seq<char>, sep: char)
    requires
        !b.contains(sep),
    ensures
        split_on(a.push(sep) + b, sep) == split_on(a, sep).push(b),
    decreases b.len(),
{
    if b.len() == 0 {
        assert(a.push(sep) + b == a.push(sep));
        assert(a.push(sep).drop_last() == a);
        assert(split_on(a.push(sep), sep) =~~= split_on(a, sep).push(b));
    } else {
        let b2 = b.drop_last();
        assert(!b2.contains(sep)) by {
            if b2.contains(sep) {
                let k = choose|k: int| 0 <= k < b2.len() && b2[k] == sep;
                assert(b[k] == sep);
            }
        }
        lemma_split_after_sep(a, b2, sep);
        let s = a.push(sep) + b;
        assert(s.drop_last() == a.push(sep) + b2);
        assert(s.last() == b.last());
        assert(b.last() != sep) by {
            assert(b[b.len() - 1] == b.last());
        }
        assert(b2.push(b.last()) == b);
        assert(split_on(s, sep) =~~= split_on(a, sep).push(b));
    }
}

proof fn lemma_decimal_has_no(n: nat, c: char)
    requires
        !is_digit(c),
    ensures
        !decimal(n).contains(c),
{
    lemma_decimal_digits(n);
    if decimal(n).contains(c) {
        let k = choose|k: int| 0 <= k < decimal(n).len() && decimal(n)[k] == c;
        assert(is_digit(decimal(n)[k]));
    }
}

/// The menu value under which a village at `x|y` is offered: `x.y`.
pub open spec fn option_value_text(x: u32, y: u32) -> Seq<char> {
    decimal(x as nat).push('.') + decimal(y as nat)
}

/// The value of the village menu entry for the village at `x|y`.
pub fn village_option_value(x: u32, y: u32) -> (r: String)
    ensures
        r@ == option_value_text(x, y),
{
    let mut r = String::new();
    push_decimal(&mut r, x as u64);
    push_char(&mut r, '.');
    push_decimal(&mut r, y as u64);
    r
}

/// Two numbers written in decimal around a separator that is not a digit
/// read back as the same two numbers, in the same order.
pub proof fn lemma_pair_roundtrip(x: u32, y: u32, sep: char)
    requires
        !is_digit(sep),
    ensures
        parsed_pair(decimal(x as nat).push(sep) + decimal(y as nat), sep) == Some((x, y)),
{
    let a = decimal(x as nat);
    let b = decimal(y as nat);
    lemma_decimal_has_no(x as nat, sep);
    lemma_decimal_has_no(y as nat, sep);
    lemma_split_without_sep(a, sep);
    lemma_split_after_sep(a, b, sep);
    lemma_parse_decimal(x);
    lemma_parse_decimal(y);
    assert(split_on(a.push(sep) + b, sep) == seq![a, b]);
}

/// Reading back a village menu value gives the coordinates it was made from.
pub proof fn lemma_option_value_roundtrip(x: u32, y: u32)
    ensures
        parsed_pair(option_value_text(x, y), '.') == Some((x, y)),
{
    lemma_pair_roundtrip(x, y, '.');
}

/// Three-digit coordinates written as `xxx|yyy` start the text with those
/// digits, so they are found again in it.
pub proof fn lemma_coordinates_of_text(x: u32, y: u32)
    requires
        100 <= x <= 999,
        100 <= y <= 999,
    ensures
        ({
            let s = decimal(x as nat).push('|') + decimal(y as nat);
            &&& coord_at(s, 0)
            &&& digits_value(s.subrange(0, 3)) == x
            &&& digits_value(s.subrange(4, 7)) == y
        }),
{
    let a = decimal(x as nat);
    let b = decimal(y as nat);
    lemma_decimal_digits(x as nat);
    lemma_decimal_digits(y as nat);
    assert(a.len() == 3) by {
        assert(decimal((x / 10) as nat).len() == 2) by {
            assert(decimal((x / 100) as nat).len() == 1);
        }
    }
    assert(b.len() == 3) by {
        assert(decimal((y / 10) as nat).len() == 2) by {
            assert(decimal((y / 100) as nat).len() == 1);
        }
    }
    let s = a.push('|') + b;
    assert(s.subrange(0, 3) == a);
    assert(s.subrange(4, 7) == b);
    assert(is_digit(a[0]) && is_digit(a[1]) && is_digit(a[2]));
    assert(is_digit(b[0]) && is_digit(b[1]) && is_digit(b[2]));
}

}
