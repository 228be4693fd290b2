//! Character-level text rules shared by tasks, goals and reminders.
use vstd::prelude::*;

verus! {

broadcast use vstd::string::group_string_axioms;

/// Unicode `White_Space`, the set that `char::is_whitespace` and `str::trim` use.
pub open spec fn is_ws(c: char) -> bool {
    ||| c == '\t' || c == '\n' || c == '\u{0B}' || c == '\u{0C}' || c == '\r' || c == ' '
    ||| c == '\u{85}' || c == '\u{A0}' || c == '\u{1680}'
    ||| ('\u{2000}' <= c && c <= '\u{200A}')
    ||| c == '\u{2028}' || c == '\u{2029}' || c == '\u{202F}' || c == '\u{205F}' || c == '\u{3000}'
}

/// The characters of `s` without any NUL.
pub open spec fn remove_nul(s: Seq<char>) -> Seq<char> {
    s.filter(|c: char| c != '\0')
}

pub open spec fn trim_start(s: Seq<char>) -> Seq<char>
    decreases s.len(),
{
    if s.len() > 0 && is_ws(s[0]) {
        trim_start(s.drop_first())
    } else {
        s
    }
}

pub open spec fn trim_end(s: Seq<char>) -> Seq<char>
    decreases s.len(),
{
    if s.len() > 0 && is_ws(s.last()) {
        trim_end(s.drop_last())
    } else {
        s
    }
}

/// `s` without leading and trailing white space.
pub open spec fn trim(s: Seq<char>) -> Seq<char> {
    trim_end(trim_start(s))
}

/// The first `n` characters of `s`, or all of them when there are fewer.
pub open spec fn prefix(s: Seq<char>, n: nat) -> Seq<char> {
    if s.len() <= n {
        s
    } else {
        s.take(n as int)
    }
}

pub fn is_whitespace(c: char) -> (r: bool)
    ensures
        r == is_ws(c),
{
    c == '\t' || c == '\n' || c == '\u{0B}' || c == '\u{0C}' || c == '\r' || c == ' ' || c
        == '\u{85}' || c == '\u{A0}' || c == '\u{1680}' || ('\u{2000}' <= c && c <= '\u{200A}')
        || c == '\u{2028}' || c == '\u{2029}' || c == '\u{202F}' || c == '\u{205F}' || c
        == '\u{3000}'
}

/// The characters of `s`, one by one.
pub fn chars_of(s: &str) -> (v: Vec<char>)
    ensures
        v@ == s@,
{
    let mut v: Vec<char> = Vec::new();
    for c in it: s.chars()
        invariant
            v@ == it.seq().take(it.index() as int),
    {
        v.push(c);
    }
    v
}

/// Trusted: `String::push`. The contract claims that afterwards the string
/// holds its old characters followed by `c`, as std documents.
#[verifier::external_body]
pub(crate) fn push_char(s: &mut String, c: char)
    ensures
        final(s)@ == old(s)@.push(c),
{
    s.push(c);
}

/// The string made of the characters of `v`.
pub fn string_of(v: &Vec<char>) -> (s: String)
    ensures
        s@ == v@,
{
    let mut s = String::new();
    for i in 0..v.len()
        invariant
            s@ == v@.take(i as int),
    {
        push_char(&mut s, v[i]);
        assert(v@.take(i + 1) == v@.take(i as int).push(v@[i as int]));
    }
    s
}

pub fn lit(s: &str) -> (r: String)
    ensures
        r@ == s@,
{
    s.to_string()
}


pub proof fn lemma_trim_start(s: Seq<char>, a: int)
    requires
        0 <= a <= s.len(),
        forall|j: int| 0 <= j < a ==> is_ws(s[j]),
        a == s.len() || !is_ws(s[a]),
    ensures
        trim_start(s) == s.subrange(a, s.len() as int),
    decreases a,
{
    if a > 0 {
        let t = s.drop_first();
        assert forall|j: int| 0 <= j < a - 1 implies is_ws(t[j]) by {
            assert(t[j] == s[j + 1]);
        }
        lemma_trim_start(t, a - 1);
        assert(t.subrange(a - 1, t.len() as int) == s.subrange(a, s.len() as int));
    } else {
        assert(s.subrange(0, s.len() as int) == s);
    }
}

proof fn lemma_trim_end(s: Seq<char>, b: int)
    requires
        0 <= b <= s.len(),
        forall|j: int| b <= j < s.len() ==> is_ws(s[j]),
        b == 0 || !is_ws(s[b - 1]),
    ensures
        trim_end(s) == s.subrange(0, b),
    decreases s.len() - b,
{
    if b < s.len() {
        let t = s.drop_last();
        assert forall|j: int| b <= j < t.len() implies is_ws(t[j]) by {
            assert(t[j] == s[j]);
        }
        lemma_trim_end(t, b);
        assert(t.subrange(0, b) == s.subrange(0, b));
    } else {
        assert(s.subrange(0, s.len() as int) == s);
    }
}

/// `v` without NUL characters.
pub fn strip_nul(v: &Vec<char>) -> (r: Vec<char>)
    ensures
        r@ == remove_nul(v@),
{
    let mut r: Vec<char> = Vec::new();
    for i in 0..v.len()
        invariant
            r@ == remove_nul(v@.take(i as int)),
    {
        proof {
            let t = v@.take(i + 1);
            assert(t.drop_last() == v@.take(i as int));
            assert(t.last() == v@[i as int]);
            reveal_with_fuel(Seq::filter, 1);
            assert(remove_nul(t) == if v@[i as int] != '\0' {
                remove_nul(v@.take(i as int)).push(v@[i as int])
            } else {
                remove_nul(v@.take(i as int))
            });
        }
        if v[i] != '\0' {
            r.push(v[i]);
        }
    }
    assert(v@.take(v.len() as int) == v@);
    r
}

/// `v` without leading and trailing white space.
pub fn trimmed(v: &Vec<char>) -> (r: Vec<char>)
    ensures
        r@ == trim(v@),
{
    let n = v.len();
    let mut a: usize = 0;
    while a < n && is_whitespace(v[a])
        invariant
            a <= n,
            n == v@.len(),
            forall|j: int| 0 <= j < a ==> is_ws(v@[j]),
        decreases n - a,
    {
        a = a + 1;
    }
    proof {
        lemma_trim_start(v@, a as int);
    }
    let ghost t = v@.subrange(a as int, n as int);
    let mut b: usize = n;
    while b > a && is_whitespace(v[b - 1])
        invariant
            a <= b <= n,
            n == v@.len(),
            forall|j: int| b <= j < n ==> is_ws(v@[j]),
        decreases b,
    {
        b = b - 1;
    }
    proof {
        assert forall|j: int| b - a <= j < t.len() implies is_ws(t[j]) by {
            assert(t[j] == v@[j + a]);
        }
        if b > a {
            assert(t[b - a - 1] == v@[b - 1]);
        }
        lemma_trim_end(t, b - a);
        assert(t.subrange(0, b - a) == v@.subrange(a as int, b as int));
    }
    let mut r: Vec<char> = Vec::new();
    for i in a..b
        invariant
            a <= b <= n,
            n == v@.len(),
            r@ == v@.subrange(a as int, i as int),
    {
        r.push(v[i]);
        assert(v@.subrange(a as int, i + 1) == v@.subrange(a as int, i as int).push(v@[i as int]));
    }
    r
}

/// The first `limit` characters of `v`.
pub fn take_chars(v: &Vec<char>, limit: usize) -> (r: Vec<char>)
    ensures
        r@ == prefix(v@, limit as nat),
{
    let mut r: Vec<char> = Vec::new();
    let end = if v.len() < limit {
        v.len()
    } else {
        limit
    };
    for i in 0..end
        invariant
            end <= v@.len(),
            end == v@.len() || end == limit,
            r@ == v@.take(i as int),
    {
        r.push(v[i]);
        assert(v@.take(i + 1) == v@.take(i as int).push(v@[i as int]));
    }
    if v.len() <= limit {
        assert(v@.take(end as int) == v@);
    }
    r
}

/// NULs removed, white space trimmed, at most `limit` characters: how titles
/// and descriptions typed by the user are stored.
pub fn clean_line(s: &str, limit: usize) -> (r: String)
    ensures
        r@ == prefix(trim(remove_nul(s@)), limit as nat),
{
    let v = chars_of(s);
    let v = strip_nul(&v);
    let v = trimmed(&v);
    let v = take_chars(&v, limit);
    string_of(&v)
}

/// NULs removed, at most `limit` characters.
pub fn clean_text(s: &str, limit: usize) -> (r: String)
    ensures
        r@ == prefix(remove_nul(s@), limit as nat),
{
    let v = chars_of(s);
    let v = strip_nul(&v);
    let v = take_chars(&v, limit);
    string_of(&v)
}

/// Whether `s` holds a NUL character.
pub fn has_nul(s: &str) -> (r: bool)
    ensures
        r == s@.contains('\0'),
{
    let v = chars_of(s);
    for i in 0..v.len()
        invariant
            v@ == s@,
            forall|j: int| 0 <= j < i ==> v@[j] != '\0',
    {
        if v[i] == '\0' {
            assert(v@[i as int] == '\0');
            return true;
        }
    }
    false
}


/// The decimal digit for `d`.
pub open spec fn digit(d: nat) -> char {
    if d == 0 { '0' } else if d == 1 { '1' } else if d == 2 { '2' } else if d == 3 { '3' }
    else if d == 4 { '4' } else if d == 5 { '5' } else if d == 6 { '6' } else if d == 7 { '7' }
    else if d == 8 { '8' } else { '9' }
}

/// `n` written in decimal, without leading zeros.
pub open spec fn decimal(n: nat) -> Seq<char>
    decreases n,
{
    if n < 10 {
        seq![digit(n)]
    } else {
        decimal(n / 10).push(digit(n % 10))
    }
}

fn digit_char(d: u64) -> (c: char)
    requires
        d < 10,
    ensures
        c == digit(d as nat),
{
    if d == 0 { '0' } else if d == 1 { '1' } else if d == 2 { '2' } else if d == 3 { '3' }
    else if d == 4 { '4' } else if d == 5 { '5' } else if d == 6 { '6' } else if d == 7 { '7' }
    else if d == 8 { '8' } else { '9' }
}

/// Appends `n` in decimal to `s`.
pub fn push_decimal(s: &mut String, n: u64)
    ensures
        final(s)@ == old(s)@ + decimal(n as nat),
    decreases n,
{
    if n < 10 {
        push_char(s, digit_char(n));
    } else {
        push_decimal(s, n / 10);
        push_char(s, digit_char(n % 10));
    }
}

/// `n` in decimal.
pub fn decimal_string(n: u64) -> (r: String)
    ensures
        r@ == decimal(n as nat),
{
    let mut s = String::new();
    push_decimal(&mut s, n);
    s
}

/// Appends `t` to `s`.
pub fn append(s: &mut String, t: &str)
    ensures
        final(s)@ == old(s)@ + t@,
{
    let v = chars_of(t);
    let ghost start = s@;
    for i in 0..v.len()
        invariant
            v@ == t@,
            s@ == start + t@.take(i as int),
    {
        push_char(s, v[i]);
        assert(t@.take(i + 1) == t@.take(i as int).push(t@[i as int]));
    }
    assert(t@.take(t@.len() as int) == t@);
}


/// Bytes that UTF-8 takes for `c`.
pub open spec fn utf8_width(c: char) -> nat {
    if (c as u32) <= 0x7F {
        1
    } else if (c as u32) <= 0x7FF {
        2
    } else if (c as u32) <= 0xFFFF {
        3
    } else {
        4
    }
}

/// Bytes that UTF-8 takes for `s`.
pub open spec fn width_sum(s: Seq<char>) -> nat
    decreases s.len(),
{
    if s.len() == 0 {
        0
    } else {
        utf8_width(s[0]) + width_sum(s.drop_first())
    }
}

pub proof fn lemma_utf8_len(s: Seq<char>)
    ensures
        vstd::utf8::encode_utf8(s).len() == width_sum(s),
    decreases s.len(),
{
    if s.len() > 0 {
        vstd::utf8::char_is_scalar(s[0]);
        lemma_utf8_len(s.drop_first());
    }
}

proof fn lemma_width_sum_push(s: Seq<char>, c: char)
    ensures
        width_sum(s.push(c)) == width_sum(s) + utf8_width(c),
    decreases s.len(),
{
    if s.len() > 0 {
        assert(s.push(c).drop_first() == s.drop_first().push(c));
        lemma_width_sum_push(s.drop_first(), c);
    } else {
        assert(s.push(c).drop_first() == s);
    }
}

/// Whether the UTF-8 encoding of `s` is longer than `limit` bytes.
pub fn utf8_len_over(s: &str, limit: usize) -> (r: bool)
    requires
        limit <= 1_000_000,
    ensures
        r == (vstd::utf8::encode_utf8(s@).len() > limit),
{
    proof {
        lemma_utf8_len(s@);
    }
    let v = chars_of(s);
    let mut total: usize = 0;
    for i in 0..v.len()
        invariant
            v@ == s@,
            limit <= 1_000_000,
            total == width_sum(v@.take(i as int)),
            total <= limit,
    {
        let c = v[i];
        let u = #[verifier::truncate] (c as u32);
        let w: usize = if u <= 0x7F {
            1
        } else if u <= 0x7FF {
            2
        } else if u <= 0xFFFF {
            3
        } else {
            4
        };
        proof {
            assert(v@.take(i + 1) == v@.take(i as int).push(c));
            lemma_width_sum_push(v@.take(i as int), c);
        }
        total = total + w;
        if total > limit {
            proof {
                lemma_width_sum_prefix(v@, i + 1);
                lemma_utf8_len(s@);
            }
            return true;
        }
    }
    assert(v@.take(v@.len() as int) == v@);
    false
}

proof fn lemma_width_sum_prefix(s: Seq<char>, i: int)
    requires
        0 <= i <= s.len(),
    ensures
        width_sum(s.take(i)) <= width_sum(s),
    decreases s.len() - i,
{
    if i < s.len() {
        lemma_width_sum_prefix(s, i + 1);
        assert(s.take(i + 1) == s.take(i).push(s[i]));
        lemma_width_sum_push(s.take(i), s[i]);
    } else {
        assert(s.take(i) == s);
    }
}


/// `s` cut at every line feed; there is always at least one piece.
pub open spec fn split_nl(s: Seq<char>) -> Seq<Seq<char>>
    decreases s.len(),
{
    if s.len() == 0 {
        seq![seq![]]
    } else {
        let r = split_nl(s.drop_last());
        if s.last() == '\n' {
            r.push(seq![])
        } else {
            r.update(r.len() - 1, r.last().push(s.last()))
        }
    }
}

proof fn lemma_split_nl_nonempty(s: Seq<char>)
    ensures
        split_nl(s).len() >= 1,
    decreases s.len(),
{
    if s.len() > 0 {
        lemma_split_nl_nonempty(s.drop_last());
    }
}

/// One task per piece that is not blank: trimmed, NULs removed, at most 10 000 characters.
pub open spec fn task_lines(pieces: Seq<Seq<char>>) -> Seq<Seq<char>>
    decreases pieces.len(),
{
    if pieces.len() == 0 {
        seq![]
    } else {
        let rest = task_lines(pieces.drop_last());
        if trim(pieces.last()).len() > 0 {
            rest.push(prefix(remove_nul(trim(pieces.last())), 10_000))
        } else {
            rest
        }
    }
}

/// The texts of the tasks that pasting `s` adds: one per non-blank line.
pub open spec fn lines_of(s: Seq<char>) -> Seq<Seq<char>> {
    task_lines(split_nl(s))
}

proof fn lemma_task_lines_len(pieces: Seq<Seq<char>>)
    ensures
        task_lines(pieces).len() <= pieces.len(),
    decreases pieces.len(),
{
    if pieces.len() > 0 {
        lemma_task_lines_len(pieces.drop_last());
    }
}

proof fn lemma_split_nl_len(s: Seq<char>)
    ensures
        split_nl(s).len() <= s.len() + 1,
    decreases s.len(),
{
    if s.len() > 0 {
        lemma_split_nl_len(s.drop_last());
        lemma_split_nl_nonempty(s.drop_last());
    }
}

/// Pasting `s` gives at most one task more than `s` has characters, so
/// `add`'s new next id, the old one plus the number of tasks, never wraps.
pub proof fn lemma_lines_of_len(s: Seq<char>)
    ensures
        lines_of(s).len() <= s.len() + 1,
{
    lemma_task_lines_len(split_nl(s));
    lemma_split_nl_len(s);
}

/// The task texts in `s`, in order; see `lines_of`.
pub fn task_texts(s: &str) -> (r: Vec<String>)
    ensures
        r@.map_values(|t: String| t@) == lines_of(s@),
        r@.len() <= s@.len() + 1,
{
    let v = chars_of(s);
    let mut out: Vec<String> = Vec::new();
    let mut cur: Vec<char> = Vec::new();
    let ghost mut done: Seq<Seq<char>> = seq![];
    for i in 0..v.len()
        invariant
            v@ == s@,
            split_nl(v@.take(i as int)) == done.push(cur@),
            out@.map_values(|t: String| t@) == task_lines(done),
    {
        let c = v[i];
        proof {
            assert(v@.take(i + 1).drop_last() == v@.take(i as int));
            assert(v@.take(i + 1).last() == c);
        }
        if c == '\n' {
            let t = trimmed(&cur);
            proof {
                assert(done.push(cur@).drop_last() == done);
            }
            if t.len() > 0 {
                let t2 = strip_nul(&t);
                let t3 = take_chars(&t2, 10_000);
                let line = string_of(&t3);
                out.push(line);
                proof {
                    assert(out@.map_values(|t: String| t@) == task_lines(done).push(line@));
                }
            }
            proof {
                done = done.push(cur@);
            }
            cur = Vec::new();
            proof {
                assert(split_nl(v@.take(i + 1)) == done.push(cur@));
            }
        } else {
            let ghost old_cur = cur@;
            cur.push(c);
            proof {
                let r = done.push(old_cur);
                assert(r.update(r.len() - 1, r.last().push(c)) == done.push(cur@));
            }
        }
    }
    let t = trimmed(&cur);
    proof {
        assert(v@.take(v@.len() as int) == v@);
        assert(done.push(cur@).drop_last() == done);
        assert(done.push(cur@).last() == cur@);
    }
    if t.len() > 0 {
        let t2 = strip_nul(&t);
        let t3 = take_chars(&t2, 10_000);
        let line = string_of(&t3);
        out.push(line);
        proof {
            assert(out@.map_values(|t: String| t@) == task_lines(done).push(line@));
        }
    }
    proof {
        lemma_task_lines_len(split_nl(s@));
        lemma_split_nl_len(s@);
        assert(out@.len() == out@.map_values(|t: String| t@).len());
    }
    out
}

} // verus!
