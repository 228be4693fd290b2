//! Reading a local date and time out of text, and building reminders.
//! Turning a local time into an instant depends on the machine's time zone:
//! the caller hands that conversion in.
use vstd::prelude::*;

pub use crate::model::{Notification, Reminder};
use crate::text::{chars_of, decimal, digit, is_ws, is_whitespace, lemma_trim_start, lit, prefix, push_char, push_decimal, string_of, take_chars, trim, trim_end, trim_start, trimmed};

verus! {

/// A calendar date and wall-clock time, as typed.
#[derive(Debug, Clone, Copy, PartialEq, Eq)]
pub struct LocalDateTime {
    pub year: u16,
    pub month: u16,
    pub day: u16,
    pub hour: u16,
    pub minute: u16,
}

pub open spec fn is_digit(c: char) -> bool {
    '0' <= c && c <= '9'
}

pub open spec fn digit_value(c: char) -> nat {
    ((c as u32) - 48) as nat
}

/// The value of a string of decimal digits.
pub open spec fn digits_value(d: Seq<char>) -> nat
    decreases d.len(),
{
    if d.len() == 0 {
        0
    } else {
        digits_value(d.drop_last()) * 10 + digit_value(d.last())
    }
}

pub open spec fn all_digits(d: Seq<char>) -> bool {
    forall|i: int| 0 <= i < d.len() ==> is_digit(#[trigger] d[i])
}

/// `u16::from_str`: an optional `+`, then one or more digits, at most 65535.
pub open spec fn parse_u16(d: Seq<char>) -> Option<u16> {
    let body = if d.len() > 0 && d[0] == '+' {
        d.drop_first()
    } else {
        d
    };
    if body.len() == 0 || !all_digits(body) || digits_value(body) > 65535 {
        None
    } else {
        Some(digits_value(body) as u16)
    }
}

/// The digits at the end of `s`.
pub open spec fn trailing_digits(s: Seq<char>) -> Seq<char>
    decreases s.len(),
{
    if s.len() > 0 && is_digit(s.last()) {
        trailing_digits(s.drop_last()).push(s.last())
    } else {
        seq![]
    }
}

/// The digits at the start of `s`.
pub open spec fn leading_digits(s: Seq<char>) -> Seq<char>
    decreases s.len(),
{
    if s.len() > 0 && is_digit(s[0]) {
        seq![s[0]] + leading_digits(s.drop_first())
    } else {
        seq![]
    }
}

/// The number that `s` ends with.
pub open spec fn number_before(s: Seq<char>) -> Option<u16> {
    parse_u16(trailing_digits(s))
}

/// The number that `s` starts with.
pub open spec fn number_after(s: Seq<char>) -> Option<u16> {
    parse_u16(leading_digits(s))
}

/// Position of the first `c` in `s`, or `s.len()`.
pub open spec fn char_pos(s: Seq<char>, c: char) -> nat
    decreases s.len(),
{
    if s.len() == 0 || s[0] == c {
        0
    } else {
        1 + char_pos(s.drop_first(), c)
    }
}

pub open spec fn has_char(s: Seq<char>, c: char) -> bool {
    char_pos(s, c) < s.len()
}

/// Full-width colons read as ASCII ones.
pub open spec fn ascii_colons(s: Seq<char>) -> Seq<char> {
    s.map_values(|c: char| if c == '：' { ':' } else { c })
}

/// The characters of `s` up to the first white space.
pub open spec fn word(s: Seq<char>) -> Seq<char>
    decreases s.len(),
{
    if s.len() > 0 && !is_ws(s[0]) {
        seq![s[0]] + word(s.drop_first())
    } else {
        seq![]
    }
}

/// The first white-space separated word of `s`.
pub open spec fn first_word(s: Seq<char>) -> Option<Seq<char>> {
    let t = trim_start(s);
    if t.len() == 0 {
        None
    } else {
        Some(word(t))
    }
}

/// `s` cut at every `-`.
pub open spec fn split_dash(s: Seq<char>) -> Seq<Seq<char>>
    decreases s.len(),
{
    if s.len() == 0 {
        seq![seq![]]
    } else {
        let r = split_dash(s.drop_last());
        if s.last() == '-' {
            r.push(seq![])
        } else {
            r.update(r.len() - 1, r.last().push(s.last()))
        }
    }
}

/// Every piece is a number.
pub open spec fn all_numbers(parts: Seq<Seq<char>>) -> bool {
    forall|i: int| 0 <= i < parts.len() ==> (#[trigger] parse_u16(parts[i])) is Some
}

pub open spec fn is_leap(y: u16) -> bool {
    y % 4 == 0 && (y % 100 != 0 || y % 400 == 0)
}

pub open spec fn days_in_month(y: u16, m: u16) -> u16 {
    if m == 2 {
        if is_leap(y) { 29 } else { 28 }
    } else if m == 4 || m == 6 || m == 9 || m == 11 {
        30
    } else {
        31
    }
}

/// A real date between 1970 and 9999 and a real time of day.
pub open spec fn date_ok(y: u16, m: u16, d: u16, h: u16, min: u16) -> bool {
    1970 <= y <= 9999 && 1 <= m <= 12 && h <= 23 && min <= 59 && d > 0 && d <= days_in_month(y, m)
}

/// Year, month and day from `s` (already with ASCII colons), whose first
/// colon is at `colon`; `year` when the text names none.
pub open spec fn date_part(s: Seq<char>, colon: int, year: u16) -> Option<(u16, u16, u16)> {
    if has_char(s, '月') && has_char(s, '日') {
        let m = char_pos(s, '月') as int;
        let d = char_pos(s, '日') as int;
        let y = if has_char(s, '年') {
            match number_before(s.take(char_pos(s, '年') as int)) {
                Some(v) => v,
                None => year,
            }
        } else {
            year
        };
        if d <= m {
            None
        } else {
            match (number_before(s.take(m)), number_before(s.take(d))) {
                (Some(mm), Some(dd)) => Some((y, mm, dd)),
                _ => None,
            }
        }
    } else {
        match first_word(s.take(colon)) {
            None => None,
            Some(w) => {
                let parts = split_dash(w);
                if !all_numbers(parts) {
                    None
                } else if parts.len() == 3 {
                    Some((parse_u16(parts[0])->0, parse_u16(parts[1])->0, parse_u16(parts[2])->0))
                } else if parts.len() == 2 {
                    Some((year, parse_u16(parts[0])->0, parse_u16(parts[1])->0))
                } else {
                    None
                }
            }
        }
    }
}

/// The date and time that `text` names, with `year` for a date without a year:
/// "2026-09-09 19:00", "9-9 19:00" or "9月9日 19:00" (full-width colons too).
pub open spec fn infer_spec(text: Seq<char>, year: u16) -> Option<LocalDateTime> {
    let s = ascii_colons(text);
    let colon = char_pos(s, ':') as int;
    if colon >= s.len() {
        None
    } else {
        match (number_before(s.take(colon)), number_after(s.skip(colon + 1)), date_part(s, colon, year)) {
            (Some(h), Some(min), Some((y, m, d))) => if date_ok(y, m, d, h, min) {
                Some(LocalDateTime { year: y, month: m, day: d, hour: h, minute: min })
            } else {
                None
            },
            _ => None,
        }
    }
}

/// `n` in two digits.
pub open spec fn two_digits(n: u16) -> Seq<char> {
    if n < 10 {
        seq!['0', digit(n as nat)]
    } else {
        decimal(n as nat)
    }
}

/// "YYYY-MM-DD HH:MM".
pub open spec fn canonical(t: LocalDateTime) -> Seq<char> {
    decimal(t.year as nat) + seq!['-'] + two_digits(t.month) + seq!['-'] + two_digits(t.day) + seq![' ']
        + two_digits(t.hour) + seq![':'] + two_digits(t.minute)
}


proof fn lemma_char_pos(s: Seq<char>, c: char)
    ensures
        char_pos(s, c) <= s.len(),
        char_pos(s, c) < s.len() ==> s[char_pos(s, c) as int] == c,
        forall|j: int| 0 <= j < char_pos(s, c) ==> s[j] != c,
    decreases s.len(),
{
    if s.len() > 0 && s[0] != c {
        lemma_char_pos(s.drop_first(), c);
        assert forall|j: int| 0 <= j < char_pos(s, c) implies s[j] != c by {
            if j > 0 {
                assert(s[j] == s.drop_first()[j - 1]);
            }
        }
    }
}

proof fn lemma_char_pos_at(s: Seq<char>, c: char, i: int)
    requires
        0 <= i <= s.len(),
        i == s.len() || s[i] == c,
        forall|j: int| 0 <= j < i ==> s[j] != c,
    ensures
        char_pos(s, c) == i,
    decreases s.len(),
{
    if s.len() > 0 && i > 0 {
        assert forall|j: int| 0 <= j < i - 1 implies s.drop_first()[j] != c by {
            assert(s.drop_first()[j] == s[j + 1]);
        }
        lemma_char_pos_at(s.drop_first(), c, i - 1);
    }
}

fn char_index(v: &Vec<char>, c: char) -> (p: usize)
    ensures
        p == char_pos(v@, c),
        p <= v@.len(),
{
    let mut i: usize = 0;
    while i < v.len() && v[i] != c
        invariant
            i <= v@.len(),
            forall|j: int| 0 <= j < i ==> v@[j] != c,
        decreases v.len() - i,
    {
        i = i + 1;
    }
    proof {
        lemma_char_pos_at(v@, c, i as int);
    }
    i
}

/// The characters of `s` with full-width colons made ASCII.
fn ascii_colon_chars(s: &str) -> (r: Vec<char>)
    ensures
        r@ == ascii_colons(s@),
{
    let v = chars_of(s);
    let mut r: Vec<char> = Vec::new();
    for i in 0..v.len()
        invariant
            v@ == s@,
            r@ == ascii_colons(s@).take(i as int),
    {
        let c = v[i];
        r.push(if c == '：' { ':' } else { c });
        assert(ascii_colons(s@).take(i + 1) == ascii_colons(s@).take(i as int).push(ascii_colons(s@)[i as int]));
    }
    assert(ascii_colons(s@).take(v.len() as int) == ascii_colons(s@));
    r
}

proof fn lemma_digits_value_prefix(d: Seq<char>, k: int)
    requires
        0 <= k <= d.len(),
    ensures
        digits_value(d.take(k)) <= digits_value(d),
    decreases d.len() - k,
{
    if k < d.len() {
        lemma_digits_value_prefix(d, k + 1);
        assert(d.take(k + 1).drop_last() == d.take(k));
    } else {
        assert(d.take(k) == d);
    }
}

/// `u16::from_str` on the characters `lo..hi` of `v`.
fn parse_range(v: &Vec<char>, lo: usize, hi: usize) -> (r: Option<u16>)
    requires
        lo <= hi <= v@.len(),
    ensures
        r == parse_u16(v@.subrange(lo as int, hi as int)),
{
    let ghost d = v@.subrange(lo as int, hi as int);
    let mut i = lo;
    if i < hi && v[i] == '+' {
        i = i + 1;
        assert(d.drop_first() == v@.subrange(i as int, hi as int));
    }
    let ghost body = v@.subrange(i as int, hi as int);
    assert(body == if d.len() > 0 && d[0] == '+' { d.drop_first() } else { d });
    if i == hi {
        return None;
    }
    let start = i;
    let mut val: u32 = 0;
    while i < hi
        invariant
            start <= i <= hi <= v@.len(),
            lo <= start,
            d == v@.subrange(lo as int, hi as int),
            body == v@.subrange(start as int, hi as int),
            body == (if d.len() > 0 && d[0] == '+' { d.drop_first() } else { d }),
            val == digits_value(body.take(i - start)),
            all_digits(body.take(i - start)),
            val <= 65535,
        decreases hi - i,
    {
        let c = v[i];
        assert(body[i - start] == c);
        if !('0' <= c && c <= '9') {
            assert(!is_digit(body[i - start]));
            return None;
        }
        let dv = (c as u32) - 48;
        proof {
            assert(body.take(i - start + 1).drop_last() == body.take(i - start));
            assert(body.take(i - start + 1).last() == c);
        }
        val = val * 10 + dv;
        if val > 65535 {
            proof {
                lemma_digits_value_prefix(body, i - start + 1);
            }
            return None;
        }
        i = i + 1;
        assert(all_digits(body.take(i - start))) by {
            assert forall|j: int| 0 <= j < i - start implies is_digit(#[trigger] body.take(i - start)[j]) by {
                if j < i - start - 1 {
                    assert(body.take(i - start)[j] == body.take(i - start - 1)[j]);
                }
            }
        }
    }
    assert(body.take(hi - start) == body);
    Some(val as u16)
}

proof fn lemma_trailing_digits(s: Seq<char>, k: int)
    requires
        0 <= k <= s.len(),
        forall|j: int| k <= j < s.len() ==> is_digit(s[j]),
        k == 0 || !is_digit(s[k - 1]),
    ensures
        trailing_digits(s) == s.subrange(k, s.len() as int),
    decreases s.len() - k,
{
    if k < s.len() {
        let t = s.drop_last();
        assert forall|j: int| k <= j < t.len() implies is_digit(t[j]) by {
            assert(t[j] == s[j]);
        }
        if k > 0 {
            assert(t[k - 1] == s[k - 1]);
        }
        lemma_trailing_digits(t, k);
        assert(t.subrange(k, t.len() as int).push(s.last()) == s.subrange(k, s.len() as int));
    }
}

proof fn lemma_leading_digits(s: Seq<char>, k: int)
    requires
        0 <= k <= s.len(),
        forall|j: int| 0 <= j < k ==> is_digit(s[j]),
        k == s.len() || !is_digit(s[k]),
    ensures
        leading_digits(s) == s.take(k),
    decreases k,
{
    if k > 0 {
        let t = s.drop_first();
        assert forall|j: int| 0 <= j < k - 1 implies is_digit(t[j]) by {
            assert(t[j] == s[j + 1]);
        }
        if k < s.len() {
            assert(t[k - 1] == s[k]);
        }
        lemma_leading_digits(t, k - 1);
        assert(seq![s[0]] + t.take(k - 1) == s.take(k));
    }
}

/// The number that the first `end` characters of `v` end with.
fn number_before_in(v: &Vec<char>, end: usize) -> (r: Option<u16>)
    requires
        end <= v@.len(),
    ensures
        r == number_before(v@.take(end as int)),
{
    let mut k = end;
    while k > 0 && '0' <= v[k - 1] && v[k - 1] <= '9'
        invariant
            k <= end <= v@.len(),
            forall|j: int| k <= j < end ==> is_digit(v@[j]),
        decreases k,
    {
        k = k - 1;
    }
    proof {
        let s = v@.take(end as int);
        assert forall|j: int| k <= j < s.len() implies is_digit(s[j]) by {}
        if k > 0 {
            assert(s[k - 1] == v@[k - 1]);
        }
        lemma_trailing_digits(s, k as int);
        assert(s.subrange(k as int, end as int) == v@.subrange(k as int, end as int));
    }
    parse_range(v, k, end)
}

/// The number that `v` starts with from position `start` on.
fn number_after_in(v: &Vec<char>, start: usize) -> (r: Option<u16>)
    requires
        start <= v@.len(),
    ensures
        r == number_after(v@.skip(start as int)),
{
    let mut k = start;
    while k < v.len() && '0' <= v[k] && v[k] <= '9'
        invariant
            start <= k <= v@.len(),
            forall|j: int| start <= j < k ==> is_digit(v@[j]),
        decreases v.len() - k,
    {
        k = k + 1;
    }
    proof {
        let s = v@.skip(start as int);
        assert forall|j: int| 0 <= j < k - start implies is_digit(s[j]) by {
            assert(s[j] == v@[start + j]);
        }
        if k < v@.len() {
            assert(s[k - start] == v@[k as int]);
        }
        lemma_leading_digits(s, k - start);
        assert(s.take(k - start) == v@.subrange(start as int, k as int));
    }
    parse_range(v, start, k)
}

/// Whether the date and time are real.
fn valid_date(y: u16, m: u16, d: u16, h: u16, min: u16) -> (r: bool)
    ensures
        r == date_ok(y, m, d, h, min),
{
    if !(1970 <= y && y <= 9999) || !(1 <= m && m <= 12) || h > 23 || min > 59 {
        return false;
    }
    let leap = y % 4 == 0 && (y % 100 != 0 || y % 400 == 0);
    let max: u16 = if m == 2 {
        if leap { 29 } else { 28 }
    } else if m == 4 || m == 6 || m == 9 || m == 11 {
        30
    } else {
        31
    };
    d > 0 && d <= max
}


proof fn lemma_word(s: Seq<char>, k: int)
    requires
        0 <= k <= s.len(),
        forall|j: int| 0 <= j < k ==> !is_ws(s[j]),
        k == s.len() || is_ws(s[k]),
    ensures
        word(s) == s.take(k),
    decreases k,
{
    if k > 0 {
        let t = s.drop_first();
        assert forall|j: int| 0 <= j < k - 1 implies !is_ws(t[j]) by {
            assert(t[j] == s[j + 1]);
        }
        if k < s.len() {
            assert(t[k - 1] == s[k]);
        }
        lemma_word(t, k - 1);
        assert(seq![s[0]] + t.take(k - 1) == s.take(k));
    }
}

/// Where the first word of the first `end` characters of `v` lies.
fn first_word_range(v: &Vec<char>, end: usize) -> (r: Option<(usize, usize)>)
    requires
        end <= v@.len(),
    ensures
        match first_word(v@.take(end as int)) {
            None => r is None,
            Some(w) => r matches Some((a, b)) && a <= b <= end && w == v@.subrange(a as int, b as int),
        },
{
    let ghost s = v@.take(end as int);
    let mut a: usize = 0;
    while a < end && is_whitespace(v[a])
        invariant
            a <= end <= v@.len(),
            s == v@.take(end as int),
            forall|j: int| 0 <= j < a ==> is_ws(v@[j]),
        decreases end - a,
    {
        a = a + 1;
    }
    proof {
        assert forall|j: int| 0 <= j < a implies is_ws(s[j]) by {}
        if a < end {
            assert(s[a as int] == v@[a as int]);
        }
        lemma_trim_start(s, a as int);
    }
    if a == end {
        return None;
    }
    let mut b: usize = a;
    while b < end && !is_whitespace(v[b])
        invariant
            a <= b <= end <= v@.len(),
            forall|j: int| a <= j < b ==> !is_ws(v@[j]),
        decreases end - b,
    {
        b = b + 1;
    }
    proof {
        let t = s.subrange(a as int, end as int);
        assert forall|j: int| 0 <= j < b - a implies !is_ws(t[j]) by {
            assert(t[j] == v@[a + j]);
        }
        if b < end {
            assert(t[b - a] == v@[b as int]);
        }
        lemma_word(t, b - a);
        assert(t.take(b - a) == v@.subrange(a as int, b as int));
    }
    Some((a, b))
}

/// The numbers between the dashes of the characters `a..b` of `v`.
fn dash_numbers(v: &Vec<char>, a: usize, b: usize) -> (r: Option<Vec<u16>>)
    requires
        a <= b <= v@.len(),
    ensures
        ({
            let parts = split_dash(v@.subrange(a as int, b as int));
            match r {
                Some(ns) => {
                    &&& all_numbers(parts)
                    &&& ns@.len() == parts.len()
                    &&& forall|i: int| 0 <= i < parts.len() ==> ns@[i] == parse_u16(parts[i])->0
                },
                None => !all_numbers(parts),
            }
        }),
{
    let ghost w = v@.subrange(a as int, b as int);
    let mut ok = true;
    let mut nums: Vec<u16> = Vec::new();
    let mut seg: usize = a;
    let ghost mut done: Seq<Seq<char>> = seq![];
    assert(w.take(0) == Seq::<char>::empty());
    assert(v@.subrange(a as int, a as int) == Seq::<char>::empty());
    assert(split_dash(w.take(0)) == done.push(v@.subrange(a as int, a as int)));
    for i in a..b
        invariant
            a <= seg <= i <= b <= v@.len(),
            w == v@.subrange(a as int, b as int),
            split_dash(w.take(i - a)) == done.push(v@.subrange(seg as int, i as int)),
            ok <==> all_numbers(done),
            ok ==> nums@.len() == done.len() && forall|k: int| 0 <= k < done.len() ==> nums@[k] == parse_u16(done[k])->0,
    {
        proof {
            assert(w.take(i - a + 1).drop_last() == w.take(i - a));
            assert(w.take(i - a + 1).last() == v@[i as int]);
        }
        if v[i] == '-' {
            let n = parse_range(v, seg, i);
            let ghost piece = v@.subrange(seg as int, i as int);
            match n {
                Some(x) => {
                    if ok {
                        nums.push(x);
                    }
                },
                None => {
                    ok = false;
                },
            }
            proof {
                let nd = done.push(piece);
                if ok {
                    assert forall|k: int| 0 <= k < nd.len() implies (#[trigger] parse_u16(nd[k])) is Some by {
                        if k < done.len() {
                            assert(nd[k] == done[k]);
                        }
                    }
                    assert forall|k: int| 0 <= k < nd.len() implies nums@[k] == parse_u16(nd[k])->0 by {
                        if k < done.len() {
                            assert(nd[k] == done[k]);
                        }
                    }
                } else {
                    if all_numbers(nd) {
                        assert forall|k: int| 0 <= k < done.len() implies (#[trigger] parse_u16(done[k])) is Some by {
                            assert(nd[k] == done[k]);
                        }
                        assert(parse_u16(nd[done.len() as int]) is Some);
                    }
                }
                done = nd;
                assert(v@.subrange(i + 1, i + 1) == Seq::<char>::empty());
            }
            seg = i + 1;
        } else {
            proof {
                let r = done.push(v@.subrange(seg as int, i as int));
                assert(v@.subrange(seg as int, i as int).push(v@[i as int]) == v@.subrange(seg as int, i + 1));
                assert(r.last() == v@.subrange(seg as int, i as int));
                assert(r.update(r.len() - 1, r.last().push(v@[i as int])) == done.push(v@.subrange(seg as int, i + 1)));
            }
        }
    }
    assert(w.take(b - a) == w);
    let n = parse_range(v, seg, b);
    let ghost piece = v@.subrange(seg as int, b as int);
    let ghost nd = done.push(piece);
    match n {
        Some(x) => {
            if ok {
                nums.push(x);
                proof {
                    assert forall|k: int| 0 <= k < nd.len() implies (#[trigger] parse_u16(nd[k])) is Some by {
                        if k < done.len() {
                            assert(nd[k] == done[k]);
                        }
                    }
                    assert forall|k: int| 0 <= k < nd.len() implies nums@[k] == parse_u16(nd[k])->0 by {
                        if k < done.len() {
                            assert(nd[k] == done[k]);
                        }
                    }
                }
                Some(nums)
            } else {
                proof {
                    if all_numbers(nd) {
                        assert forall|k: int| 0 <= k < done.len() implies (#[trigger] parse_u16(done[k])) is Some by {
                            assert(nd[k] == done[k]);
                        }
                    }
                }
                None
            }
        },
        None => {
            assert(parse_u16(nd[done.len() as int]) is None);
            None
        },
    }
}

/// `n` in two digits, appended.
fn push_two_digits(s: &mut String, n: u16)
    ensures
        final(s)@ == old(s)@ + two_digits(n),
{
    if n < 10 {
        push_char(s, '0');
        push_decimal(s, n as u64);
        assert(crate::text::decimal(n as nat) == seq![digit(n as nat)]);
    } else {
        push_decimal(s, n as u64);
    }
}

/// "YYYY-MM-DD HH:MM" for `t`.
pub fn canonical_string(t: LocalDateTime) -> (r: String)
    ensures
        r@ == canonical(t),
{
    let mut s = String::new();
    push_decimal(&mut s, t.year as u64);
    push_char(&mut s, '-');
    push_two_digits(&mut s, t.month);
    push_char(&mut s, '-');
    push_two_digits(&mut s, t.day);
    push_char(&mut s, ' ');
    push_two_digits(&mut s, t.hour);
    push_char(&mut s, ':');
    push_two_digits(&mut s, t.minute);
    s
}

/// The date and time that `text` names; see `infer_spec`.
pub fn infer_local(text: &str, year: u16) -> (r: Option<LocalDateTime>)
    ensures
        r == infer_spec(text@, year),
{
    let v = ascii_colon_chars(text);
    let colon = char_index(&v, ':');
    if colon >= v.len() {
        return None;
    }
    proof {
        lemma_char_pos(v@, ':');
    }
    let hour = number_before_in(&v, colon);
    let minute = number_after_in(&v, colon + 1);
    let m = char_index(&v, '月');
    let d = char_index(&v, '日');
    let date: Option<(u16, u16, u16)> = if m < v.len() && d < v.len() {
        let p = char_index(&v, '年');
        let y = if p < v.len() {
            match number_before_in(&v, p) {
                Some(x) => x,
                None => year,
            }
        } else {
            year
        };
        if d <= m {
            None
        } else {
            match (number_before_in(&v, m), number_before_in(&v, d)) {
                (Some(mm), Some(dd)) => Some((y, mm, dd)),
                _ => None,
            }
        }
    } else {
        match first_word_range(&v, colon) {
            None => None,
            Some((a, b)) => match dash_numbers(&v, a, b) {
                None => None,
                Some(ns) => {
                    if ns.len() == 3 {
                        Some((ns[0], ns[1], ns[2]))
                    } else if ns.len() == 2 {
                        Some((year, ns[0], ns[1]))
                    } else {
                        None
                    }
                },
            },
        }
    };
    assert(date == date_part(v@, colon as int, year));
    match (hour, minute, date) {
        (Some(h), Some(min), Some((y, mo, dd))) => {
            if valid_date(y, mo, dd, h, min) {
                Some(LocalDateTime { year: y, month: mo, day: dd, hour: h, minute: min })
            } else {
                None
            }
        },
        _ => None,
    }
}

/// The canonical "YYYY-MM-DD HH:MM" form of the date and time that `text`
/// names, with `year` for a date without a year.
pub fn infer(text: &str, year: u16) -> (r: Option<String>)
    ensures
        match infer_spec(text@, year) {
            Some(t) => r matches Some(s) && s@ == canonical(t),
            None => r is None,
        },
{
    match infer_local(text, year) {
        Some(t) => Some(canonical_string(t)),
        None => None,
    }
}


/// `rem` is the reminder set up from these values: the note cut to 1000
/// characters, and an alert that already went out stays sent while its time
/// is unchanged.
pub open spec fn built_reminder(
    rem: Reminder,
    enabled: bool,
    due_at: u64,
    early_at: Option<u64>,
    note: Seq<char>,
    old: Option<Reminder>,
) -> bool {
    &&& rem.enabled == enabled
    &&& rem.due_at == due_at
    &&& rem.early_at == early_at
    &&& rem.early_note@ == prefix(note, 1000)
    &&& rem.due_sent == (old matches Some(o) && o.due_at == due_at && o.due_sent)
    &&& rem.early_sent == (old matches Some(o) && o.early_at == early_at && o.early_sent)
}

/// The early alert is not before the due time.
pub open spec fn early_not_before(due_at: u64, early_at: Option<u64>) -> bool {
    early_at matches Some(e) && e >= due_at
}

/// Sets up a reminder from instants already converted.
pub fn reminder_from(
    enabled: bool,
    due_at: u64,
    early_at: Option<u64>,
    note: &str,
    old: Option<&Reminder>,
) -> (r: Result<Reminder, String>)
    ensures
        early_not_before(due_at, early_at) ==> (r matches Err(e) && e@ == "提前提醒时间必须早于到点时间"@),
        !early_not_before(due_at, early_at) ==> (r matches Ok(rem) && built_reminder(
            rem,
            enabled,
            due_at,
            early_at,
            note@,
            match old {
                Some(o) => Some(*o),
                None => None,
            },
        )),
{
    let too_late = match early_at {
        Some(e) => e >= due_at,
        None => false,
    };
    if too_late {
        return Err(lit("提前提醒时间必须早于到点时间"));
    }
    let v = chars_of(note);
    let v = take_chars(&v, 1000);
    let (due_sent, early_sent) = match old {
        Some(o) => (o.due_at == due_at && o.due_sent, o.early_at == early_at && o.early_sent),
        None => (false, false),
    };
    Ok(Reminder { enabled, due_at, early_at, early_note: string_of(&v), due_sent, early_sent })
}

/// The instant of the local time that `input` names, by `to_utc`.
pub fn local_instant<F: Fn(LocalDateTime) -> Result<u64, String>>(
    input: &str,
    year: u16,
    to_utc: &F,
) -> (r: Result<u64, String>)
    requires
        forall|t: LocalDateTime| to_utc.requires((t,)),
    ensures
        match infer_spec(trim(input@), year) {
            None => r matches Err(e) && e@ == "请输入有效日期，例如 2026-09-09 19:00（也支持 9月9日 19:00）"@,
            Some(t) => to_utc.ensures((t,), r),
        },
{
    let v = chars_of(input);
    let v = trimmed(&v);
    let s = string_of(&v);
    match infer_local(s.as_str(), year) {
        None => Err(lit("请输入有效日期，例如 2026-09-09 19:00（也支持 9月9日 19:00）")),
        Some(t) => to_utc(t),
    }
}

/// What `configured` returns once the early time is known.
pub open spec fn finished(
    r: Result<Option<Reminder>, String>,
    enabled: bool,
    due_at: u64,
    early_at: Option<u64>,
    note: Seq<char>,
    old: Option<Reminder>,
) -> bool {
    if early_not_before(due_at, early_at) {
        r matches Err(e) && e@ == "提前提醒时间必须早于到点时间"@
    } else {
        r matches Ok(Some(rem)) && built_reminder(rem, enabled, due_at, early_at, note, old)
    }
}

/// What `configured` returns once the due time is known.
pub open spec fn with_early<F: Fn(LocalDateTime) -> Result<u64, String>>(
    r: Result<Option<Reminder>, String>,
    enabled: bool,
    due_at: u64,
    early: Seq<char>,
    note: Seq<char>,
    old: Option<Reminder>,
    year: u16,
    to_utc: F,
) -> bool {
    if trim(early).len() == 0 {
        finished(r, enabled, due_at, None, note, old)
    } else {
        match infer_spec(trim(early), year) {
            None => r matches Err(e) && e@ == "请输入有效日期，例如 2026-09-09 19:00（也支持 9月9日 19:00）"@,
            Some(t) => exists|er: Result<u64, String>|
                #[trigger] to_utc.ensures((t,), er) && match er {
                    Err(e) => r == Err::<Option<Reminder>, String>(e),
                    Ok(early_at) => finished(r, enabled, due_at, Some(early_at), note, old),
                },
        }
    }
}

/// Sets up a reminder from the due and early times as typed. A blank due
/// time removes the reminder, unless it is to be enabled. `year` is used
/// for dates without a year; `to_utc` turns a local time into an instant.
pub fn configured<F: Fn(LocalDateTime) -> Result<u64, String>>(
    enabled: bool,
    due: &str,
    early: &str,
    note: &str,
    old: Option<&Reminder>,
    year: u16,
    to_utc: F,
) -> (r: Result<Option<Reminder>, String>)
    requires
        forall|t: LocalDateTime| to_utc.requires((t,)),
    ensures
        ({
            let old_rem = match old {
                Some(o) => Some(*o),
                None => None,
            };
            if trim(due@).len() == 0 {
                if enabled {
                    r matches Err(e) && e@ == "开启提醒前，请先填写到点时间"@
                } else {
                    r == Ok::<Option<Reminder>, String>(None)
                }
            } else {
                match infer_spec(trim(due@), year) {
                    None => r matches Err(e) && e@ == "请输入有效日期，例如 2026-09-09 19:00（也支持 9月9日 19:00）"@,
                    Some(t) => exists|dr: Result<u64, String>|
                        #[trigger] to_utc.ensures((t,), dr) && match dr {
                            Err(e) => r == Err::<Option<Reminder>, String>(e),
                            Ok(due_at) => with_early(r, enabled, due_at, early@, note@, old_rem, year, to_utc),
                        },
                }
            }
        }),
{
    let ghost old_rem = match old {
        Some(o) => Some(*o),
        None => None,
    };
    let dv = chars_of(due);
    let dv = trimmed(&dv);
    if dv.len() == 0 {
        if enabled {
            return Err(lit("开启提醒前，请先填写到点时间"));
        }
        return Ok(None);
    }
    let dr = local_instant(due, year, &to_utc);
    let due_at = match dr {
        Err(e) => {
            return Err(e);
        },
        Ok(x) => x,
    };
    let ev = chars_of(early);
    let ev = trimmed(&ev);
    let early_at = if ev.len() == 0 {
        None
    } else {
        let er = local_instant(early, year, &to_utc);
        match er {
            Err(e) => {
                proof {
                    assert(infer_spec(trim(due@), year) is Some);
                    if infer_spec(trim(early@), year) is Some {
                        assert(to_utc.ensures((infer_spec(trim(early@), year)->0,), er));
                    }
                }
                return Err(e);
            },
            Ok(x) => Some(x),
        }
    };
    let rem = reminder_from(enabled, due_at, early_at, note, old);
    match rem {
        Err(e) => Err(e),
        Ok(x) => Ok(Some(x)),
    }
}


/// Days from 1970-01-01 to the first day of year `y`.
pub open spec fn days_before_year(y: u16) -> nat
    decreases y,
{
    if y <= 1970 {
        0
    } else {
        days_before_year((y - 1) as u16) + if is_leap((y - 1) as u16) {
            366nat
        } else {
            365nat
        }
    }
}

/// Days from the first of January of year `y` to the first day of month `m`.
pub open spec fn days_before_month(y: u16, m: u16) -> nat
    decreases m,
{
    if m <= 1 {
        0
    } else {
        days_before_month(y, (m - 1) as u16) + days_in_month(y, (m - 1) as u16) as nat
    }
}

/// Milliseconds from 1970-01-01 00:00 UTC to `t` read as a UTC time.
pub open spec fn utc_millis(t: LocalDateTime) -> nat {
    ((((days_before_year(t.year) + days_before_month(t.year, t.month) + t.day - 1) * 24 + t.hour) * 60
        + t.minute) * 60000) as nat
}

proof fn lemma_days_before_year(y: u16)
    requires
        1970 <= y,
    ensures
        days_before_year(y) <= 366 * (y - 1970),
    decreases y,
{
    if y > 1970 {
        lemma_days_before_year((y - 1) as u16);
    }
}

proof fn lemma_days_before_month(y: u16, m: u16)
    requires
        1 <= m,
    ensures
        days_before_month(y, m) <= 31 * (m - 1),
    decreases m,
{
    if m > 1 {
        lemma_days_before_month(y, (m - 1) as u16);
    }
}

/// Reads a local time as a UTC time: the conversion for a machine whose
/// zone is UTC, and the one to use where no time zone is at hand. Fails on
/// dates that `infer` would not give.
pub fn utc_instant(t: LocalDateTime) -> (r: Result<u64, String>)
    ensures
        date_ok(t.year, t.month, t.day, t.hour, t.minute) ==> r == Ok::<u64, String>(utc_millis(t) as u64)
            && utc_millis(t) <= u64::MAX,
        !date_ok(t.year, t.month, t.day, t.hour, t.minute) ==> (r matches Err(e) && e@ == "无法转换此日期时间"@),
{
    if !valid_date(t.year, t.month, t.day, t.hour, t.minute) {
        return Err(lit("无法转换此日期时间"));
    }
    let mut days: u64 = 0;
    let mut y: u16 = 1970;
    while y < t.year
        invariant
            1970 <= y <= t.year <= 9999,
            days == days_before_year(y),
            days <= 366 * (y - 1970),
        decreases t.year - y,
    {
        let leap = y % 4 == 0 && (y % 100 != 0 || y % 400 == 0);
        days = days + if leap { 366 } else { 365 };
        y = y + 1;
    }
    let mut m: u16 = 1;
    let mut md: u64 = 0;
    while m < t.month
        invariant
            1 <= m <= t.month <= 12,
            1970 <= t.year <= 9999,
            md == days_before_month(t.year, m),
            md <= 31 * (m - 1),
        decreases t.month - m,
    {
        let leap = t.year % 4 == 0 && (t.year % 100 != 0 || t.year % 400 == 0);
        let n: u64 = if m == 2 {
            if leap { 29 } else { 28 }
        } else if m == 4 || m == 6 || m == 9 || m == 11 {
            30
        } else {
            31
        };
        md = md + n;
        m = m + 1;
    }
    let total = days + md + (t.day as u64) - 1;
    assert(total <= 366 * 8029 + 31 * 11 + 31);
    assert(((total * 24 + t.hour as u64) * 60 + t.minute as u64) * 60000 <= u64::MAX) by (nonlinear_arith)
        requires
            total <= 366 * 8029 + 31 * 11 + 31,
            t.hour <= 23,
            t.minute <= 59,
    ;
    Ok(((total * 24 + t.hour as u64) * 60 + t.minute as u64) * 60000)
}

proof fn lemma_digit(k: nat)
    requires
        k < 10,
    ensures
        is_digit(digit(k)),
        digit_value(digit(k)) == k,
        !is_ws(digit(k)),
        digit(k) != '-' && digit(k) != ':' && digit(k) != '：' && digit(k) != '+',
        digit(k) != '月' && digit(k) != '日',
{
}

/// The sixteen characters of "YYYY-MM-DD HH:MM" for a year of four digits.
proof fn lemma_canonical_chars(t: LocalDateTime)
    requires
        1000 <= t.year <= 9999,
        t.month < 100 && t.day < 100 && t.hour < 100 && t.minute < 100,
    ensures
        canonical(t) == seq![
            digit((t.year / 1000) as nat), digit((t.year / 100 % 10) as nat), digit((t.year / 10 % 10) as nat),
            digit((t.year % 10) as nat), '-', digit((t.month / 10) as nat), digit((t.month % 10) as nat), '-',
            digit((t.day / 10) as nat), digit((t.day % 10) as nat), ' ', digit((t.hour / 10) as nat),
            digit((t.hour % 10) as nat), ':', digit((t.minute / 10) as nat), digit((t.minute % 10) as nat)],
{
    let y = t.year as nat;
    assert(y / 10 / 10 == y / 100);
    assert(y / 100 / 10 == y / 1000);
    assert(decimal(y / 1000) == seq![digit(y / 1000)]);
    assert(decimal(y / 100) == seq![digit(y / 1000), digit(y / 100 % 10)]);
    assert(decimal(y / 10) == seq![digit(y / 1000), digit(y / 100 % 10), digit(y / 10 % 10)]);
    assert(decimal(y) == seq![digit(y / 1000), digit(y / 100 % 10), digit(y / 10 % 10), digit(y % 10)]);
    assert forall|n: u16| n < 100 implies #[trigger] two_digits(n) == seq![digit((n / 10) as nat), digit((n % 10) as nat)] by {
        if n >= 10 {
            assert(decimal((n / 10) as nat) == seq![digit((n / 10) as nat)]);
        }
    }
    assert(canonical(t) =~= seq![
        digit((t.year / 1000) as nat), digit((t.year / 100 % 10) as nat), digit((t.year / 10 % 10) as nat),
        digit((t.year % 10) as nat), '-', digit((t.month / 10) as nat), digit((t.month % 10) as nat), '-',
        digit((t.day / 10) as nat), digit((t.day % 10) as nat), ' ', digit((t.hour / 10) as nat),
        digit((t.hour % 10) as nat), ':', digit((t.minute / 10) as nat), digit((t.minute % 10) as nat)]);
}

proof fn lemma_split_dash_append(s: Seq<char>, t: Seq<char>)
    requires
        forall|i: int| 0 <= i < t.len() ==> t[i] != '-',
    ensures
        split_dash(s).len() >= 1,
        split_dash(s + t) == split_dash(s).update(split_dash(s).len() - 1, split_dash(s).last() + t),
    decreases t.len(),
{
    lemma_split_dash_len(s);
    let sd = split_dash(s);
    if t.len() == 0 {
        assert(s + t =~= s);
        assert(sd.last() + t =~= sd.last());
        assert(sd.update(sd.len() - 1, sd.last()) =~= sd);
    } else {
        let u = t.drop_last();
        let x = t.last();
        assert forall|i: int| 0 <= i < u.len() implies u[i] != '-' by {
            assert(u[i] == t[i]);
        }
        lemma_split_dash_append(s, u);
        let r = split_dash(s + u);
        assert(r == sd.update(sd.len() - 1, sd.last() + u));
        assert((s + t).drop_last() =~= s + u);
        assert((s + t).last() == x);
        assert(x != '-');
        assert(split_dash(s + t) == r.update(r.len() - 1, r.last().push(x)));
        assert(r.last() == sd.last() + u);
        assert((sd.last() + u).push(x) =~= sd.last() + t);
        assert(r.update(r.len() - 1, sd.last() + t) =~= sd.update(sd.len() - 1, sd.last() + t));
    }
}

proof fn lemma_split_dash_len(s: Seq<char>)
    ensures
        split_dash(s).len() >= 1,
    decreases s.len(),
{
    if s.len() > 0 {
        lemma_split_dash_len(s.drop_last());
    }
}

proof fn lemma_split_dash_cut(s: Seq<char>)
    ensures
        split_dash(s + seq!['-']) == split_dash(s).push(seq![]),
{
    assert((s + seq!['-']).drop_last() == s);
}

/// The value of two or four digit characters.
proof fn lemma_digits_value_small(a: char, b: char, c: char, d: char)
    ensures
        digits_value(seq![a, b]) == digit_value(a) * 10 + digit_value(b),
        digits_value(seq![a, b, c, d]) == ((digit_value(a) * 10 + digit_value(b)) * 10 + digit_value(c)) * 10
            + digit_value(d),
{
    let one = seq![a];
    let two = seq![a, b];
    let three = seq![a, b, c];
    let four = seq![a, b, c, d];
    assert(one.drop_last() =~= Seq::<char>::empty());
    assert(digits_value(Seq::<char>::empty()) == 0);
    assert(digits_value(one) == digit_value(a));
    assert(two.drop_last() =~= one);
    assert(digits_value(two) == digit_value(a) * 10 + digit_value(b));
    assert(three.drop_last() =~= two);
    assert(digits_value(three) == (digit_value(a) * 10 + digit_value(b)) * 10 + digit_value(c));
    assert(four.drop_last() =~= three);
}

/// `c` has the shape "DDDD-DD-DD DD:DD", D a decimal digit.
pub open spec fn canonical_shape(c: Seq<char>) -> bool {
    &&& c.len() == 16
    &&& c[4] == '-' && c[7] == '-' && c[10] == ' ' && c[13] == ':'
    &&& is_digit(c[0]) && is_digit(c[1]) && is_digit(c[2]) && is_digit(c[3])
    &&& is_digit(c[5]) && is_digit(c[6]) && is_digit(c[8]) && is_digit(c[9])
    &&& is_digit(c[11]) && is_digit(c[12]) && is_digit(c[14]) && is_digit(c[15])
}

/// The number that the digits at positions `i` and `i + 1` of `c` write.
pub open spec fn two_at(c: Seq<char>, i: int) -> nat {
    digit_value(c[i]) * 10 + digit_value(c[i + 1])
}

proof fn lemma_year_digits(y: nat)
    requires
        1000 <= y <= 9999,
    ensures
        (((y / 1000) * 10 + y / 100 % 10) * 10 + y / 10 % 10) * 10 + y % 10 == y,
        y / 1000 < 10,
{
    assert(y / 10 / 10 == y / 100);
    assert(y / 100 / 10 == y / 1000);
    assert(y == (y / 10) * 10 + y % 10);
    assert(y / 10 == (y / 100) * 10 + y / 10 % 10);
    assert(y / 100 == (y / 1000) * 10 + y / 100 % 10);
}

proof fn lemma_canonical_shape(t: LocalDateTime)
    requires
        date_ok(t.year, t.month, t.day, t.hour, t.minute),
    ensures
        canonical_shape(canonical(t)),
        (two_at(canonical(t), 0) * 10 + digit_value(canonical(t)[2])) * 10 + digit_value(canonical(t)[3]) == t.year,
        two_at(canonical(t), 5) == t.month,
        two_at(canonical(t), 8) == t.day,
        two_at(canonical(t), 11) == t.hour,
        two_at(canonical(t), 14) == t.minute,
{
    lemma_canonical_chars(t);
    let c = canonical(t);
    let y = t.year as nat;
    lemma_year_digits(y);
    lemma_digit(y / 1000);
    lemma_digit(y / 100 % 10);
    lemma_digit(y / 10 % 10);
    lemma_digit(y % 10);
    assert(c[0] == digit(y / 1000) && c[1] == digit(y / 100 % 10) && c[2] == digit(y / 10 % 10) && c[3] == digit(y % 10));
    assert(c[4] == '-' && c[7] == '-' && c[10] == ' ' && c[13] == ':');
    lemma_two_digits_at(c, 5, t.month);
    lemma_two_digits_at(c, 8, t.day);
    lemma_two_digits_at(c, 11, t.hour);
    lemma_two_digits_at(c, 14, t.minute);
}

proof fn lemma_two_digits_at(c: Seq<char>, i: int, n: u16)
    requires
        n < 100,
        0 <= i && i + 1 < c.len(),
        c[i] == digit((n / 10) as nat),
        c[i + 1] == digit((n % 10) as nat),
    ensures
        is_digit(c[i]) && is_digit(c[i + 1]),
        two_at(c, i) == n,
{
    lemma_digit((n / 10) as nat);
    lemma_digit((n % 10) as nat);
}

proof fn lemma_shape_time(c: Seq<char>)
    requires
        canonical_shape(c),
    ensures
        ascii_colons(c) == c,
        char_pos(c, ':') == 13,
        number_before(c.take(13)) == Some(two_at(c, 11) as u16),
        number_after(c.skip(14)) == Some(two_at(c, 14) as u16),
        !has_char(c, '月'),
        trim(c) == c,
{
    assert(ascii_colons(c) =~= c);
    lemma_char_pos_at(c, ':', 13);
    let before = c.take(13);
    lemma_trailing_digits(before, 11);
    assert(before.subrange(11, 13) =~= seq![c[11], c[12]]);
    lemma_digits_value_small(c[11], c[12], c[0], c[0]);
    let after = c.skip(14);
    lemma_leading_digits(after, 2);
    assert(after.take(2) =~= seq![c[14], c[15]]);
    lemma_digits_value_small(c[14], c[15], c[0], c[0]);
    lemma_char_pos_at(c, '月', 16);
    assert(trim_start(c) == c);
    assert(trim_end(c) == c);
}

proof fn lemma_shape_date(c: Seq<char>, year: u16)
    requires
        canonical_shape(c),
    ensures
        date_part(c, 13, year) == Some((
            ((two_at(c, 0) * 10 + digit_value(c[2])) * 10 + digit_value(c[3])) as u16,
            two_at(c, 5) as u16,
            two_at(c, 8) as u16,
        )),
{
    lemma_char_pos_at(c, '月', 16);
    let before = c.take(13);
    assert(trim_start(before) == before);
    lemma_word(before, 10);
    let w = before.take(10);
    let ys = seq![c[0], c[1], c[2], c[3]];
    let ms = seq![c[5], c[6]];
    let ds = seq![c[8], c[9]];
    assert(w =~= ys + seq!['-'] + ms + seq!['-'] + ds);
    assert(Seq::<char>::empty() + ys =~= ys);
    lemma_split_dash_append(Seq::<char>::empty(), ys);
    assert(split_dash(ys) =~= seq![ys]);
    lemma_split_dash_cut(ys);
    lemma_split_dash_append(ys + seq!['-'], ms);
    assert(split_dash(ys + seq!['-'] + ms) =~= seq![ys, ms]);
    lemma_split_dash_cut(ys + seq!['-'] + ms);
    lemma_split_dash_append(ys + seq!['-'] + ms + seq!['-'], ds);
    let parts = split_dash(w);
    assert(parts =~= seq![ys, ms, ds]);
    lemma_digits_value_small(c[0], c[1], c[2], c[3]);
    lemma_digits_value_small(c[5], c[6], c[0], c[0]);
    lemma_digits_value_small(c[8], c[9], c[0], c[0]);
    assert(all_digits(ys));
    assert(all_digits(ms));
    assert(all_digits(ds));
    assert(all_numbers(parts));
}

/// Reading back the canonical form of a valid date and time gives that
/// date and time, whatever year is assumed: showing a reminder's time and
/// reading it again does not move the reminder.
pub proof fn law_canonical_round_trip(t: LocalDateTime, year: u16)
    requires
        date_ok(t.year, t.month, t.day, t.hour, t.minute),
    ensures
        infer_spec(canonical(t), year) == Some(t),
        trim(canonical(t)) == canonical(t),
{
    lemma_canonical_shape(t);
    lemma_shape_time(canonical(t));
    lemma_shape_date(canonical(t), year);
}

/// Editing a reminder keeps an alert marked as sent only while its own time
/// stays the same: moving the early time makes the early alert go out again,
/// whatever happens to the due time, and moving the due time makes the due
/// alert go out again; a new reminder has neither marked.
pub proof fn law_sent_marks_follow_their_times(
    rem: Reminder,
    enabled: bool,
    due_at: u64,
    early_at: Option<u64>,
    note: Seq<char>,
    old: Option<Reminder>,
)
    requires
        built_reminder(rem, enabled, due_at, early_at, note, old),
    ensures
        old is None ==> !rem.due_sent && !rem.early_sent,
        old is Some && old->0.early_at != early_at ==> !rem.early_sent,
        old is Some && old->0.due_at != due_at ==> !rem.due_sent,
        old is Some && old->0.early_at == early_at ==> rem.early_sent == old->0.early_sent,
        old is Some && old->0.due_at == due_at ==> rem.due_sent == old->0.due_sent,
        rem.due_at == due_at && rem.early_at == early_at && rem.enabled == enabled,
{
}

/// "MM-DD HH:MM": a date without a year, each number in two digits.
pub open spec fn short_form(month: u16, day: u16, hour: u16, minute: u16) -> Seq<char> {
    two_digits(month) + seq!['-'] + two_digits(day) + seq![' '] + two_digits(hour) + seq![':'] + two_digits(minute)
}

/// `c` has the shape "DD-DD DD:DD", D a decimal digit.
pub open spec fn short_shape(c: Seq<char>) -> bool {
    &&& c.len() == 11
    &&& c[2] == '-' && c[5] == ' ' && c[8] == ':'
    &&& is_digit(c[0]) && is_digit(c[1]) && is_digit(c[3]) && is_digit(c[4])
    &&& is_digit(c[6]) && is_digit(c[7]) && is_digit(c[9]) && is_digit(c[10])
}

proof fn lemma_short_shape(month: u16, day: u16, hour: u16, minute: u16)
    requires
        month < 100 && day < 100 && hour < 100 && minute < 100,
    ensures
        short_shape(short_form(month, day, hour, minute)),
        two_at(short_form(month, day, hour, minute), 0) == month,
        two_at(short_form(month, day, hour, minute), 3) == day,
        two_at(short_form(month, day, hour, minute), 6) == hour,
        two_at(short_form(month, day, hour, minute), 9) == minute,
{
    assert forall|n: u16| n < 100 implies #[trigger] two_digits(n) == seq![digit((n / 10) as nat), digit((n % 10) as nat)] by {
        if n >= 10 {
            assert(decimal((n / 10) as nat) == seq![digit((n / 10) as nat)]);
        }
    }
    let c = short_form(month, day, hour, minute);
    assert(c =~= seq![
        digit((month / 10) as nat), digit((month % 10) as nat), '-', digit((day / 10) as nat), digit((day % 10) as nat),
        ' ', digit((hour / 10) as nat), digit((hour % 10) as nat), ':', digit((minute / 10) as nat),
        digit((minute % 10) as nat)]);
    lemma_two_digits_at(c, 0, month);
    lemma_two_digits_at(c, 3, day);
    lemma_two_digits_at(c, 6, hour);
    lemma_two_digits_at(c, 9, minute);
}

proof fn lemma_short_shape_read(c: Seq<char>, year: u16)
    requires
        short_shape(c),
    ensures
        ascii_colons(c) == c,
        char_pos(c, ':') == 8,
        number_before(c.take(8)) == Some(two_at(c, 6) as u16),
        number_after(c.skip(9)) == Some(two_at(c, 9) as u16),
        date_part(c, 8, year) == Some((year, two_at(c, 0) as u16, two_at(c, 3) as u16)),
{
    assert(ascii_colons(c) =~= c);
    lemma_char_pos_at(c, ':', 8);
    let before = c.take(8);
    lemma_trailing_digits(before, 6);
    assert(before.subrange(6, 8) =~= seq![c[6], c[7]]);
    lemma_digits_value_small(c[6], c[7], c[0], c[0]);
    let after = c.skip(9);
    lemma_leading_digits(after, 2);
    assert(after.take(2) =~= seq![c[9], c[10]]);
    lemma_digits_value_small(c[9], c[10], c[0], c[0]);
    lemma_char_pos_at(c, '月', 11);
    assert(trim_start(before) == before);
    lemma_word(before, 5);
    let w = before.take(5);
    let ms = seq![c[0], c[1]];
    let ds = seq![c[3], c[4]];
    assert(w =~= ms + seq!['-'] + ds);
    assert(Seq::<char>::empty() + ms =~= ms);
    lemma_split_dash_append(Seq::<char>::empty(), ms);
    assert(split_dash(ms) =~= seq![ms]);
    lemma_split_dash_cut(ms);
    lemma_split_dash_append(ms + seq!['-'], ds);
    let parts = split_dash(w);
    assert(parts =~= seq![ms, ds]);
    lemma_digits_value_small(c[0], c[1], c[0], c[0]);
    lemma_digits_value_small(c[3], c[4], c[0], c[0]);
    assert(all_digits(ms));
    assert(all_digits(ds));
    assert(all_numbers(parts));
}

/// A date written month first without a year, "MM-DD HH:MM", reads as that
/// month and that day of the assumed year, at that time, when it is a real
/// date and time; and as nothing when it is not (a day and month read the
/// other way round never count).
pub proof fn law_month_day_form(year: u16, month: u16, day: u16, hour: u16, minute: u16)
    requires
        month < 100 && day < 100 && hour < 100 && minute < 100,
    ensures
        date_ok(year, month, day, hour, minute) ==> infer_spec(short_form(month, day, hour, minute), year) == Some(
            LocalDateTime { year, month, day, hour, minute },
        ),
        !date_ok(year, month, day, hour, minute) ==> infer_spec(short_form(month, day, hour, minute), year) is None,
{
    lemma_short_shape(month, day, hour, minute);
    lemma_short_shape_read(short_form(month, day, hour, minute), year);
}

} // verus!
