use vstd::prelude::*;

verus! {

/// ASCII lower-casing of one character: `A`..`Z` become `a`..`z`, every
/// other character is kept.
pub open spec fn ascii_lower(c: char) -> char {
    if 'A' <= c && c <= 'Z' {
        ((c as u32) + 32) as char
    } else {
        c
    }
}

/// Two texts are equal when ASCII letters are compared without case.
pub open spec fn same_ignoring_ascii_case(a: Seq<char>, b: Seq<char>) -> bool {
    &&& a.len() == b.len()
    &&& forall|i: int| 0 <= i < a.len() ==> ascii_lower(#[trigger] a[i]) == ascii_lower(b[i])
}

/// ASCII upper-casing of one character: `a`..`z` become `A`..`Z`, every
/// other character is kept.
pub open spec fn ascii_upper(c: char) -> char {
    if 'a' <= c && c <= 'z' {
        ((c as u32) - 32) as char
    } else {
        c
    }
}

/// The text with ASCII letters upper-cased (`str::to_ascii_uppercase`).
pub open spec fn ascii_uppercase(s: Seq<char>) -> Seq<char> {
    s.map_values(|c: char| ascii_upper(c))
}

/// The text with ASCII letters lower-cased (`str::to_ascii_lowercase`).
pub open spec fn ascii_lowercase(s: Seq<char>) -> Seq<char> {
    s.map_values(|c: char| ascii_lower(c))
}

/// Comparing without ASCII case does not see the case of either side.
pub proof fn lemma_case_blind(a: Seq<char>, b: Seq<char>)
    ensures
        same_ignoring_ascii_case(a, ascii_uppercase(b)) == same_ignoring_ascii_case(a, b),
        same_ignoring_ascii_case(a, ascii_lowercase(b)) == same_ignoring_ascii_case(a, b),
{
    assert forall|c: char| ascii_lower(#[trigger] ascii_upper(c)) == ascii_lower(c) by {
        if 'a' <= c && c <= 'z' {
            assert(((c as u32) - 32) as char as u32 == (c as u32) - 32);
        }
    }
    assert forall|c: char| ascii_lower(#[trigger] ascii_lower(c)) == ascii_lower(c) by {
        if 'A' <= c && c <= 'Z' {
            assert(((c as u32) + 32) as char as u32 == (c as u32) + 32);
        }
    }
    if same_ignoring_ascii_case(a, b) {
        assert forall|i: int| 0 <= i < a.len() implies ascii_lower(#[trigger] a[i]) == ascii_lower(
            ascii_uppercase(b)[i],
        ) by {
            assert(ascii_lower(a[i]) == ascii_lower(b[i]));
        }
        assert forall|i: int| 0 <= i < a.len() implies ascii_lower(#[trigger] a[i]) == ascii_lower(
            ascii_lowercase(b)[i],
        ) by {
            assert(ascii_lower(a[i]) == ascii_lower(b[i]));
        }
    }
    if same_ignoring_ascii_case(a, ascii_uppercase(b)) {
        assert forall|i: int| 0 <= i < a.len() implies ascii_lower(#[trigger] a[i]) == ascii_lower(b[i]) by {
            assert(ascii_lower(a[i]) == ascii_lower(ascii_uppercase(b)[i]));
        }
    }
    if same_ignoring_ascii_case(a, ascii_lowercase(b)) {
        assert forall|i: int| 0 <= i < a.len() implies ascii_lower(#[trigger] a[i]) == ascii_lower(b[i]) by {
            assert(ascii_lower(a[i]) == ascii_lower(ascii_lowercase(b)[i]));
        }
    }
}

/// The decimal digit `d` (below ten) as a character.
pub open spec fn digit_char(d: nat) -> char {
    (d + 48) as char
}

/// Whether `c` is one of `0`..`9`.
pub open spec fn is_digit(c: char) -> bool {
    '0' <= c && c <= '9'
}

/// The value of the digit character `c`.
pub open spec fn digit_value(c: char) -> nat {
    ((c as u32) - 48) as nat
}

/// The decimal rendering of `n`, without sign or leading zeros.
pub open spec fn decimal(n: nat) -> Seq<char>
    decreases n,
{
    if n < 10 {
        seq![digit_char(n)]
    } else {
        decimal(n / 10).push(digit_char(n % 10))
    }
}

/// The decimal rendering of `n`, padded with zeros on the left to two characters.
pub open spec fn decimal_two(n: nat) -> Seq<char> {
    if n < 10 {
        seq!['0'].add(decimal(n))
    } else {
        decimal(n)
    }
}

/// Whether every character of `s` is a decimal digit.
pub open spec fn all_digits(s: Seq<char>) -> bool {
    forall|i: int| 0 <= i < s.len() ==> is_digit(#[trigger] s[i])
}

/// The number that the digits `s` denote.
pub open spec fn digits_value(s: Seq<char>) -> nat
    decreases s.len(),
{
    if s.len() == 0 {
        0
    } else {
        digits_value(s.drop_last()) * 10 + digit_value(s.last())
    }
}

/// What `str::parse::<u32>` gives for `s`: an optional `+`, then one or more
/// ASCII digits whose value fits in a `u32`.
pub open spec fn parsed_u32(s: Seq<char>) -> Option<u32> {
    let d = if s.len() > 1 && s[0] == '+' { s.drop_first() } else { s };
    if d.len() > 0 && all_digits(d) && digits_value(d) <= u32::MAX {
        Some(digits_value(d) as u32)
    } else {
        None
    }
}

/// `String::push`: the character is appended to the text.
#[verifier::external_body]
pub(crate) fn push_char(s: &mut String, c: char)
    ensures
        final(s)@ == old(s)@.push(c),
{
    s.push(c);
}

/// The characters of `s`, one per element.
pub fn chars_of(s: &str) -> (v: Vec<char>)
    ensures
        v@ == s@,
{
    let mut v: Vec<char> = Vec::new();
    for c in it: s.chars()
        invariant
            it.seq() == s@,
            v@ == s@.take(it.index()),
    {
        v.push(c);
    }
    v
}

/// Appends the characters `v[lo..hi]` to `out`.
pub fn push_chars(out: &mut String, v: &Vec<char>, lo: usize, hi: usize)
    requires
        lo <= hi <= v.len(),
    ensures
        final(out)@ == old(out)@ + v@.subrange(lo as int, hi as int),
{
    let mut i = lo;
    while i < hi
        invariant
            lo <= i <= hi <= v.len(),
            out@ == old(out)@ + v@.subrange(lo as int, i as int),
        decreases hi - i,
    {
        push_char(out, v[i]);
        assert(v@.subrange(lo as int, i + 1) == v@.subrange(lo as int, i as int).push(v@[i as int]));
        i = i + 1;
    }
}

/// The text made of the characters `v[lo..hi]`.
pub fn text_of(v: &Vec<char>, lo: usize, hi: usize) -> (s: String)
    requires
        lo <= hi <= v.len(),
    ensures
        s@ == v@.subrange(lo as int, hi as int),
{
    let mut s = String::new();
    push_chars(&mut s, v, lo, hi);
    s
}

fn lower_char(c: char) -> (r: char)
    ensures
        r == ascii_lower(c),
{
    if 'A' <= c && c <= 'Z' {
        ((c as u8) + 32) as char
    } else {
        c
    }
}

/// Whether `a` and `b` are equal when ASCII letters are compared without
/// case, as `str::eq_ignore_ascii_case` compares them.
pub fn eq_ignore_ascii_case(a: &str, b: &str) -> (r: bool)
    ensures
        r == same_ignoring_ascii_case(a@, b@),
{
    let va = chars_of(a);
    let vb = chars_of(b);
    if va.len() != vb.len() {
        return false;
    }
    let mut i: usize = 0;
    while i < va.len()
        invariant
            va@ == a@,
            vb@ == b@,
            va.len() == vb.len(),
            i <= va.len(),
            forall|j: int| 0 <= j < i ==> ascii_lower(#[trigger] a@[j]) == ascii_lower(b@[j]),
        decreases va.len() - i,
    {
        if lower_char(va[i]) != lower_char(vb[i]) {
            return false;
        }
        i = i + 1;
    }
    true
}

fn digit_of(d: u64) -> (c: char)
    requires
        d < 10,
    ensures
        c == digit_char(d as nat),
{
    ((d as u8) + 48) as char
}

/// Appends the decimal rendering of `n` to `out`.
pub fn push_decimal(out: &mut String, n: u64)
    ensures
        final(out)@ == old(out)@ + decimal(n as nat),
    decreases n,
{
    if n >= 10 {
        push_decimal(out, n / 10);
    }
    push_char(out, digit_of(n % 10));
}

/// Appends `n` padded with zeros to two characters (`{:02}`).
pub fn push_decimal_two(out: &mut String, n: u64)
    ensures
        final(out)@ == old(out)@ + decimal_two(n as nat),
{
    if n < 10 {
        push_char(out, '0');
    }
    push_decimal(out, n);
}

/// The decimal rendering of `n`.
pub fn decimal_text(n: u64) -> (s: String)
    ensures
        s@ == decimal(n as nat),
{
    let mut s = String::new();
    push_decimal(&mut s, n);
    s
}

proof fn lemma_digits_value_grows(s: Seq<char>, j: int, k: int)
    requires
        0 <= j <= k <= s.len(),
    ensures
        digits_value(s.take(j)) <= digits_value(s.take(k)),
    decreases k - j,
{
    if j < k {
        lemma_digits_value_grows(s, j, k - 1);
        assert(s.take(k).drop_last() == s.take(k - 1));
    }
}

/// The number that `v[lo..hi]` denotes as `str::parse::<u32>` reads it.
pub fn parse_u32_chars(v: &Vec<char>, lo: usize, hi: usize) -> (r: Option<u32>)
    requires
        lo <= hi <= v.len(),
    ensures
        r == parsed_u32(v@.subrange(lo as int, hi as int)),
{
    let ghost s = v@.subrange(lo as int, hi as int);
    let start = if hi - lo > 1 && v[lo] == '+' { lo + 1 } else { lo };
    let ghost d = v@.subrange(start as int, hi as int);
    assert(d == (if s.len() > 1 && s[0] == '+' { s.drop_first() } else { s }));
    if start == hi {
        return None;
    }
    let mut acc: u64 = 0;
    let mut i = start;
    while i < hi
        invariant
            lo <= start <= i <= hi <= v.len(),
            s == v@.subrange(lo as int, hi as int),
            d == v@.subrange(start as int, hi as int),
            d == (if s.len() > 1 && s[0] == '+' { s.drop_first() } else { s }),
            d.len() > 0,
            acc == digits_value(d.take(i - start)),
            acc <= u32::MAX,
            all_digits(d.take(i - start)),
        decreases hi - i,
    {
        let c = v[i];
        if !('0' <= c && c <= '9') {
            assert(!is_digit(d[i - start]));
            assert(!all_digits(d));
            return None;
        }
        assert(d.take(i + 1 - start).drop_last() == d.take(i - start));
        assert(d.take(i + 1 - start).last() == c);
        assert(digit_value(c) == (c as u64) - 48);
        acc = acc * 10 + ((c as u64) - 48);
        assert(acc == digits_value(d.take(i + 1 - start)));
        if acc > 4294967295 {
            proof {
                lemma_digits_value_grows(d, i + 1 - start, d.len() as int);
                assert(d.take(d.len() as int) == d);
            }
            return None;
        }
        i = i + 1;
    }
    assert(d.take(d.len() as int) == d);
    Some(acc as u32)
}

/// `str::parse::<u32>`: the value of an optional `+` and one or more ASCII
/// digits, or `None` for any other text or a value above `u32::MAX`.
pub fn parse_u32(s: &str) -> (r: Option<u32>)
    ensures
        r == parsed_u32(s@),
{
    let v = chars_of(s);
    assert(v@.subrange(0, v@.len() as int) == s@);
    parse_u32_chars(&v, 0, v.len())
}

pub proof fn lemma_decimal_digits(n: nat)
    ensures
        decimal(n).len() > 0,
        all_digits(decimal(n)),
        digits_value(decimal(n)) == n,
        decimal(n)[0] != '+',
    decreases n,
{
    assert(digit_value(digit_char(n % 10)) == n % 10);
    if n < 10 {
        assert(decimal(n).drop_last() =~= Seq::<char>::empty());
        assert(digits_value(decimal(n)) == digits_value(Seq::<char>::empty()) * 10 + digit_value(digit_char(n)));
    } else {
        lemma_decimal_digits(n / 10);
        assert(decimal(n).drop_last() == decimal(n / 10));
        assert(digits_value(decimal(n)) == (n / 10) * 10 + n % 10);
        assert forall|i: int| 0 <= i < decimal(n).len() implies is_digit(#[trigger] decimal(n)[i]) by {
            if i < decimal(n).len() - 1 {
                assert(decimal(n)[i] == decimal(n / 10)[i]);
            }
        }
    }
}

/// Reading back the decimal rendering of a `u32` gives the number again.
pub proof fn lemma_parse_decimal(n: u32)
    ensures
        parsed_u32(decimal(n as nat)) == Some(n),
{
    lemma_decimal_digits(n as nat);
}


/// The pieces of `s` between the occurrences of `sep` (`str::split`): one
/// more piece than there are separators, empty pieces kept.
pub open spec fn split_on(s: Seq<char>, sep: char) -> Seq<Seq<char>>
    decreases s.len(),
{
    if s.len() == 0 {
        seq![Seq::<char>::empty()]
    } else {
        let p = split_on(s.drop_last(), sep);
        if s.last() == sep {
            p.push(Seq::<char>::empty())
        } else {
            p.update(p.len() - 1, p.last().push(s.last()))
        }
    }
}

/// The texts that the index ranges `r` cut out of `s`.
pub open spec fn pieces(s: Seq<char>, r: Seq<(usize, usize)>) -> Seq<Seq<char>> {
    r.map_values(|p: (usize, usize)| s.subrange(p.0 as int, p.1 as int))
}

/// Whether `m` occurs in `s` as a run of consecutive characters.
pub open spec fn has_infix(s: Seq<char>, m: Seq<char>) -> bool {
    exists|j: int| 0 <= j && j + m.len() <= s.len() && #[trigger] s.subrange(j, j + m.len()) == m
}

pub proof fn lemma_split_on_len(s: Seq<char>, sep: char)
    ensures
        split_on(s, sep).len() >= 1,
    decreases s.len(),
{
    if s.len() > 0 {
        lemma_split_on_len(s.drop_last(), sep);
    }
}

/// The index ranges of the pieces of `v` between occurrences of `sep`.
pub fn split_ranges(v: &Vec<char>, sep: char) -> (r: Vec<(usize, usize)>)
    ensures
        pieces(v@, r@) == split_on(v@, sep),
        forall|k: int| 0 <= k < r@.len() ==> (#[trigger] r@[k]).0 <= r@[k].1 <= v.len(),
{
    let mut r: Vec<(usize, usize)> = Vec::new();
    let mut start: usize = 0;
    let mut i: usize = 0;
    assert(pieces(v@, r@).push(v@.subrange(0, 0)) =~~= split_on(v@.take(0), sep));
    while i < v.len()
        invariant
            start <= i <= v.len(),
            pieces(v@, r@).push(v@.subrange(start as int, i as int)) == split_on(v@.take(i as int), sep),
            forall|k: int| 0 <= k < r@.len() ==> (#[trigger] r@[k]).0 <= r@[k].1 <= v.len(),
        decreases v.len() - i,
    {
        let ghost before = r@;
        proof {
            lemma_split_on_len(v@.take(i as int), sep);
            assert(v@.take(i + 1).drop_last() == v@.take(i as int));
            assert(v@.take(i + 1).last() == v@[i as int]);
        }
        if v[i] == sep {
            r.push((start, i));
            assert(pieces(v@, r@) == pieces(v@, before).push(v@.subrange(start as int, i as int)));
            start = i + 1;
            assert(pieces(v@, r@).push(v@.subrange(start as int, i + 1)) =~~= split_on(v@.take(i + 1), sep));
        } else {
            assert(v@.subrange(start as int, i + 1) == v@.subrange(start as int, i as int).push(v@[i as int]));
            assert(pieces(v@, r@).push(v@.subrange(start as int, i + 1)) =~~= split_on(v@.take(i + 1), sep));
        }
        i = i + 1;
    }
    let ghost before = r@;
    r.push((start, v.len()));
    assert(v@.take(v.len() as int) == v@);
    assert(pieces(v@, r@) =~= pieces(v@, before).push(v@.subrange(start as int, v.len() as int)));
    r
}

/// Whether `m` occurs in `v` as a run of consecutive characters.
pub fn contains_run(v: &Vec<char>, m: &Vec<char>) -> (r: bool)
    ensures
        r == has_infix(v@, m@),
{
    if m.len() > v.len() {
        return false;
    }
    let mut j: usize = 0;
    while j <= v.len() - m.len()
        invariant
            m.len() <= v.len(),
            j <= v.len() - m.len() + 1,
            forall|k: int| 0 <= k < j ==> #[trigger] v@.subrange(k, k + m.len()) != m@,
        decreases v.len() + 1 - j,
    {
        let mut i: usize = 0;
        let mut same = true;
        while i < m.len()
            invariant
                j + m.len() <= v.len(),
                i <= m.len(),
                same <==> forall|t: int| 0 <= t < i ==> v@[j + t] == m@[t],
            decreases m.len() - i,
        {
            if v[j + i] != m[i] {
                same = false;
            }
            i = i + 1;
        }
        if same {
            assert(v@.subrange(j as int, j + m.len()) =~= m@);
            return true;
        }
        let ghost t = choose|t: int| 0 <= t < m.len() && v@[j + t] != m@[t];
        assert(v@.subrange(j as int, j + m.len())[t] != m@[t]);
        j = j + 1;
    }
    assert forall|k: int| 0 <= k && k + m.len() <= v@.len() implies #[trigger] v@.subrange(k, k + m.len()) != m@ by {
        assert(k < j);
    }
    false
}

/// `c` and `d` are the same character, or the upper- and lower-case forms
/// of one ASCII letter.
pub open spec fn same_letter_in_any_case(c: char, d: char) -> bool {
    ||| c == d
    ||| 'A' <= c && c <= 'Z' && (d as u32) == (c as u32) + 32
    ||| 'a' <= c && c <= 'z' && (c as u32) == (d as u32) + 32
}

/// Two characters compare equal ignoring ASCII case exactly when they are
/// equal or are the upper- and lower-case forms of one ASCII letter.
proof fn lemma_lower_same(c: char, d: char)
    ensures
        (ascii_lower(c) == ascii_lower(d)) <==> same_letter_in_any_case(c, d),
{
    assert(((c as u32) + 32) as char as u32 == (c as u32) + 32 || !('A' <= c && c <= 'Z'));
    assert(((d as u32) + 32) as char as u32 == (d as u32) + 32 || !('A' <= d && d <= 'Z'));
    assert((c as u32 == d as u32) ==> c == d);
}

/// Texts are equal ignoring ASCII case exactly when they have the same
/// length and, at every index, the characters are equal or are the upper-
/// and lower-case forms of one ASCII letter: any other difference, such as
/// `_` against a space, tells them apart (as `str::eq_ignore_ascii_case`).
pub proof fn lemma_ignoring_case_differs_only_in_letters(a: Seq<char>, b: Seq<char>)
    ensures
        same_ignoring_ascii_case(a, b) <==> (a.len() == b.len() && forall|i: int|
            0 <= i < a.len() ==> same_letter_in_any_case(#[trigger] a[i], b[i])),
{
    assert forall|i: int| 0 <= i < a.len() && a.len() == b.len() implies (ascii_lower(#[trigger] a[i])
        == ascii_lower(b[i])) <==> same_letter_in_any_case(a[i], b[i]) by {
        lemma_lower_same(a[i], b[i]);
    }
}

/// A number below a hundred padded to two characters (`{:02}`) is exactly
/// two digits, and they read back as the number.
pub proof fn lemma_decimal_two(n: nat)
    requires
        n < 100,
    ensures
        decimal_two(n).len() == 2,
        all_digits(decimal_two(n)),
        digits_value(decimal_two(n)) == n,
{
    lemma_decimal_digits(n);
    let t = decimal_two(n);
    if n < 10 {
        assert(t =~= seq!['0', digit_char(n)]);
        assert(t.drop_last() =~= seq!['0']);
        assert(t.drop_last().drop_last() =~= Seq::<char>::empty());
        assert(digits_value(t.drop_last().drop_last()) == 0);
        assert(digit_value('0') == 0);
        assert(t.drop_last().last() == '0');
        assert(digits_value(t.drop_last()) == digits_value(t.drop_last().drop_last()) * 10
            + digit_value(t.drop_last().last()));
        assert(digits_value(t.drop_last()) == 0);
        assert(digit_value(digit_char(n)) == n);
    } else {
        lemma_decimal_digits(n / 10);
        assert(decimal(n / 10) == seq![digit_char(n / 10)]);
    }
}

/// The decimal rendering of a number has no leading zero.
pub proof fn lemma_decimal_no_leading_zero(n: nat)
    ensures
        decimal(n).len() == 1 || decimal(n)[0] != '0',
    decreases n,
{
    if n >= 10 {
        let m = n / 10;
        lemma_decimal_no_leading_zero(m);
        lemma_decimal_digits(m);
        assert(decimal(n) == decimal(m).push(digit_char(n % 10)));
        assert(decimal(n)[0] == decimal(m)[0]);
        if m < 10 {
            assert(decimal(m) == seq![digit_char(m)]);
            assert(digit_char(m) as u32 == m + 48);
            assert(digit_char(m) != '0');
        } else {
            lemma_decimal_digits(m / 10);
            assert(decimal(m) == decimal(m / 10).push(digit_char(m % 10)));
            assert(decimal(m).len() > 1);
        }
    }
}

}
