use vstd::prelude::*;
use crate::calendar::CivilTime;

verus! {

/// Relies on std's `String::push`: appends one character.
pub assume_specification[ String::push ](s: &mut String, ch: char)
    ensures
        final(s)@ == old(s)@.push(ch),
;

pub open spec fn digit_char(d: int) -> char {
    ((d + 48) as u8) as char
}

pub open spec fn is_digit(ch: char) -> bool {
    '0' <= ch && ch <= '9'
}

pub open spec fn digit_value(ch: char) -> int {
    ch as int - 48
}

pub open spec fn two_digit_chars(v: int) -> Seq<char> {
    seq![digit_char(v / 10), digit_char(v % 10)]
}

pub open spec fn four_digit_chars(v: int) -> Seq<char> {
    seq![digit_char(v / 1000), digit_char(v / 100 % 10), digit_char(v / 10 % 10), digit_char(v % 10)]
}

/// `c` as `YYYY-MM-DD HH:MM:SS`.
pub open spec fn civil_text(c: CivilTime) -> Seq<char> {
    let (y, mo, d) = (c.year as int, c.month as int, c.day as int);
    let (h, mi, se) = (c.hour as int, c.minute as int, c.second as int);
    seq![
        digit_char(y / 1000), digit_char(y / 100 % 10), digit_char(y / 10 % 10), digit_char(y % 10),
        '-', digit_char(mo / 10), digit_char(mo % 10),
        '-', digit_char(d / 10), digit_char(d % 10),
        ' ', digit_char(h / 10), digit_char(h % 10),
        ':', digit_char(mi / 10), digit_char(mi % 10),
        ':', digit_char(se / 10), digit_char(se % 10),
    ]
}

/// Positions of the separators in a literal, and the separator expected there.
pub open spec fn separator_at(i: int) -> Option<char> {
    if i == 4 || i == 7 {
        Some('-')
    } else if i == 10 {
        Some(' ')
    } else if i == 13 || i == 16 {
        Some(':')
    } else {
        None
    }
}

/// The character at `i` is the separator the format puts there, or a digit.
pub open spec fn char_fits(t: Seq<char>, i: int) -> bool {
    match separator_at(i) {
        Some(sep) => t[i] == sep,
        None => is_digit(t[i]),
    }
}

/// Nineteen characters with digits and separators where the format puts them.
pub open spec fn well_shaped(t: Seq<char>) -> bool {
    &&& t.len() == 19
    &&& forall|i: int| 0 <= i < 19 ==> #[trigger] char_fits(t, i)
}

pub open spec fn two_digit_value(t: Seq<char>, i: int) -> int {
    digit_value(t[i]) * 10 + digit_value(t[i + 1])
}

/// The fields that a literal spells, or `None` where it is not shaped as one.
pub open spec fn parse_civil(t: Seq<char>) -> Option<CivilTime> {
    if well_shaped(t) {
        Some(
            CivilTime {
                year: (two_digit_value(t, 0) * 100 + two_digit_value(t, 2)) as i32,
                month: two_digit_value(t, 5) as u32,
                day: two_digit_value(t, 8) as u32,
                hour: two_digit_value(t, 11) as u32,
                minute: two_digit_value(t, 14) as u32,
                second: two_digit_value(t, 17) as u32,
            },
        )
    } else {
        None
    }
}

fn push_digits(s: &mut String, v: u32, n: usize)
    requires
        n == 2 || n == 4,
        v < if n == 2 { 100u32 } else { 10000u32 },
    ensures
        final(s)@ == old(s)@ + (if n == 2 {
            two_digit_chars(v as int)
        } else {
            four_digit_chars(v as int)
        }),
{
    if n == 4 {
        s.push(((v / 1000) as u8 + 48) as char);
        s.push(((v / 100 % 10) as u8 + 48) as char);
    }
    s.push(((v / 10 % 10) as u8 + 48) as char);
    s.push(((v % 10) as u8 + 48) as char);
    if n == 2 {
        assert(v / 10 % 10 == v / 10);
    }
    assert(final(s)@ =~= old(s)@ + (if n == 2 {
        two_digit_chars(v as int)
    } else {
        four_digit_chars(v as int)
    }));
}

/// Writes `c` as `YYYY-MM-DD HH:MM:SS`.
pub fn format_civil(c: CivilTime) -> (r: String)
    requires
        0 <= c.year <= 9999,
        c.month < 100,
        c.day < 100,
        c.hour < 100,
        c.minute < 100,
        c.second < 100,
    ensures
        r@ == civil_text(c),
{
    let mut s = String::new();
    push_digits(&mut s, c.year as u32, 4);
    s.push('-');
    push_digits(&mut s, c.month, 2);
    s.push('-');
    push_digits(&mut s, c.day, 2);
    s.push(' ');
    push_digits(&mut s, c.hour, 2);
    s.push(':');
    push_digits(&mut s, c.minute, 2);
    s.push(':');
    push_digits(&mut s, c.second, 2);
    assert(s@ =~= civil_text(c));
    s
}

fn digit_at(t: &str, i: usize) -> (r: Option<u32>)
    requires
        i < t@.len(),
    ensures
        r == (if is_digit(t@[i as int]) {
            Some(digit_value(t@[i as int]) as u32)
        } else {
            None::<u32>
        }),
{
    let ch = t.get_char(i);
    if '0' <= ch && ch <= '9' {
        Some(ch as u32 - 48)
    } else {
        None
    }
}

fn two_digits_at(t: &str, i: usize) -> (r: Option<u32>)
    requires
        i + 1 < t@.len(),
        i < 18,
    ensures
        r == (if is_digit(t@[i as int]) && is_digit(t@[i + 1]) {
            Some(two_digit_value(t@, i as int) as u32)
        } else {
            None::<u32>
        }),
{
    match (digit_at(t, i), digit_at(t, i + 1)) {
        (Some(a), Some(b)) => Some(a * 10 + b),
        _ => None,
    }
}

/// Reads a `YYYY-MM-DD HH:MM:SS` literal into its fields; the fields are not
/// checked against the calendar here.
pub fn parse_civil_literal(t: &str) -> (r: Option<CivilTime>)
    ensures
        r == parse_civil(t@),
{
    if t.unicode_len() != 19 {
        return None;
    }
    let mut i: usize = 0;
    while i < 19
        invariant
            t@.len() == 19,
            i <= 19,
            forall|k: int| 0 <= k < i ==> #[trigger] char_fits(t@, k),
        decreases 19 - i,
    {
        let ch = t.get_char(i);
        let ok = if i == 4 || i == 7 {
            ch == '-'
        } else if i == 10 {
            ch == ' '
        } else if i == 13 || i == 16 {
            ch == ':'
        } else {
            '0' <= ch && ch <= '9'
        };
        if !ok {
            assert(!char_fits(t@, i as int));
            return None;
        }
        i = i + 1;
    }
    assert(well_shaped(t@));
    assert(char_fits(t@, 0) && char_fits(t@, 1) && char_fits(t@, 2) && char_fits(t@, 3));
    assert(char_fits(t@, 5) && char_fits(t@, 6) && char_fits(t@, 8) && char_fits(t@, 9));
    assert(char_fits(t@, 11) && char_fits(t@, 12) && char_fits(t@, 14) && char_fits(t@, 15));
    assert(char_fits(t@, 17) && char_fits(t@, 18));
    let y1 = two_digits_at(t, 0).unwrap();
    let y2 = two_digits_at(t, 2).unwrap();
    let mo = two_digits_at(t, 5).unwrap();
    let d = two_digits_at(t, 8).unwrap();
    let h = two_digits_at(t, 11).unwrap();
    let mi = two_digits_at(t, 14).unwrap();
    let s = two_digits_at(t, 17).unwrap();
    Some(CivilTime { year: (y1 * 100 + y2) as i32, month: mo, day: d, hour: h, minute: mi, second: s })
}

proof fn lemma_digit(d: int)
    requires
        0 <= d <= 9,
    ensures
        is_digit(digit_char(d)),
        digit_value(digit_char(d)) == d,
{
}

proof fn lemma_two_digits(t: Seq<char>, i: int, v: int)
    requires
        0 <= v < 100,
        0 <= i,
        i + 1 < t.len(),
        t[i] == digit_char(v / 10),
        t[i + 1] == digit_char(v % 10),
    ensures
        is_digit(t[i]),
        is_digit(t[i + 1]),
        two_digit_value(t, i) == v,
{
    lemma_digit(v / 10);
    lemma_digit(v % 10);
}

/// Reading back the literal of `c` gives `c`, for years of four digits.
pub proof fn lemma_literal_round_trip(c: CivilTime)
    requires
        0 <= c.year <= 9999,
        c.month < 100,
        c.day < 100,
        c.hour < 100,
        c.minute < 100,
        c.second < 100,
    ensures
        parse_civil(civil_text(c)) == Some(c),
{
    let t = civil_text(c);
    let y = c.year as int;
    assert(t.len() == 19);
    assert(y / 100 / 10 == y / 1000);
    assert(y % 100 / 10 == y / 10 % 10);
    assert(y % 100 % 10 == y % 10);
    lemma_two_digits(t, 0, y / 100);
    lemma_two_digits(t, 2, y % 100);
    lemma_two_digits(t, 5, c.month as int);
    lemma_two_digits(t, 8, c.day as int);
    lemma_two_digits(t, 11, c.hour as int);
    lemma_two_digits(t, 14, c.minute as int);
    lemma_two_digits(t, 17, c.second as int);
    assert forall|i: int| 0 <= i < 19 implies #[trigger] char_fits(t, i) by {
        if i == 4 || i == 7 || i == 10 || i == 13 || i == 16 {
            assert(t[i] == (if i == 10 { ' ' } else if i < 10 { '-' } else { ':' }));
        }
    }
    assert(well_shaped(t));
    assert(y / 100 * 100 + y % 100 == y);
    assert(parse_civil(t).unwrap() == c);
}

} // verus!
