//! Text as sequences of characters: trimming, lines, columns, numbers.
use vstd::prelude::*;

verus! {

/// What is cut off at the ends of a text.
#[derive(Clone, Copy, Debug, PartialEq, Eq, Structural)]
pub enum Cut {
    Space,
    Quote,
}

/// The characters with the Unicode property White_Space.
pub open spec fn white(c: char) -> bool {
    ||| '\u{9}' <= c <= '\u{d}'
    ||| c == ' '
    ||| c == '\u{85}'
    ||| c == '\u{a0}'
    ||| c == '\u{1680}'
    ||| '\u{2000}' <= c <= '\u{200a}'
    ||| c == '\u{2028}'
    ||| c == '\u{2029}'
    ||| c == '\u{202f}'
    ||| c == '\u{205f}'
    ||| c == '\u{3000}'
}

pub open spec fn falls_to(c: char, cut: Cut) -> bool {
    match cut {
        Cut::Space => white(c),
        Cut::Quote => c == '"',
    }
}

/// `s` without the leading characters that `cut` takes.
pub open spec fn cut_front(s: Seq<char>, cut: Cut) -> Seq<char>
    decreases s.len(),
{
    if s.len() > 0 && falls_to(s.first(), cut) {
        cut_front(s.drop_first(), cut)
    } else {
        s
    }
}

/// `s` without the trailing characters that `cut` takes.
pub open spec fn cut_back(s: Seq<char>, cut: Cut) -> Seq<char>
    decreases s.len(),
{
    if s.len() > 0 && falls_to(s.last(), cut) {
        cut_back(s.drop_last(), cut)
    } else {
        s
    }
}

/// `s` without the characters at both ends that `cut` takes.
pub open spec fn cut_ends(s: Seq<char>, cut: Cut) -> Seq<char> {
    cut_back(cut_front(s, cut), cut)
}

/// `s` without white space at its ends.
pub open spec fn trimmed(s: Seq<char>) -> Seq<char> {
    cut_ends(s, Cut::Space)
}

/// `s` begins with `p`.
pub open spec fn starts(s: Seq<char>, p: Seq<char>) -> bool {
    p.len() <= s.len() && s.take(p.len() as int) == p
}

/// `s` ends with `p`.
pub open spec fn ends(s: Seq<char>, p: Seq<char>) -> bool {
    p.len() <= s.len() && s.skip(s.len() - p.len()) == p
}

/// `p` occurs in `s`.
pub open spec fn occurs(s: Seq<char>, p: Seq<char>) -> bool {
    exists|i: int|
        0 <= i && i + p.len() <= s.len() && #[trigger] s.subrange(i, i + p.len() as int) == p
}

/// The place of the first `c` in `s` at or after `from`, or the length of `s`.
pub open spec fn place_of(s: Seq<char>, c: char, from: int) -> int
    decreases s.len() - from,
{
    if from >= s.len() {
        s.len() as int
    } else if s[from] == c {
        from
    } else {
        place_of(s, c, from + 1)
    }
}

/// A line without the carriage return that ends it before its line feed.
pub open spec fn without_return(s: Seq<char>) -> Seq<char> {
    if s.len() > 0 && s.last() == '\r' {
        s.drop_last()
    } else {
        s
    }
}

/// The lines of `s` from `from` on: a line ends with a line feed, which a
/// carriage return may precede, and the last line may lack it.
pub open spec fn lines_from(s: Seq<char>, from: int) -> Seq<Seq<char>>
    decreases s.len() - from,
    when 0 <= from
{
    if from >= s.len() {
        Seq::empty()
    } else {
        let i = place_of(s, '\n', from);
        if from <= i < s.len() {
            seq![without_return(s.subrange(from, i))] + lines_from(s, i + 1)
        } else {
            seq![s.skip(from)]
        }
    }
}

/// The lines of `s`.
pub open spec fn lines(s: Seq<char>) -> Seq<Seq<char>> {
    lines_from(s, 0)
}

pub open spec fn digit(c: char) -> bool {
    '0' <= c <= '9'
}

/// The number that decimal digits write.
pub open spec fn number(s: Seq<char>) -> nat
    decreases s.len(),
{
    if s.len() == 0 {
        0
    } else {
        (number(s.drop_last()) * 10 + (s.last() as int - '0' as int)) as nat
    }
}

/// Digits and nothing else.
pub open spec fn all_digits(s: Seq<char>) -> bool {
    s.len() > 0 && forall|i: int| 0 <= i < s.len() ==> digit(#[trigger] s[i])
}

/// `s` without a plus sign in front of it.
pub open spec fn unsigned(s: Seq<char>) -> Seq<char> {
    if s.len() > 1 && s[0] == '+' {
        s.skip(1)
    } else {
        s
    }
}

/// The number of at most 32 bits that `s` writes in decimal, with or without a
/// plus sign.
pub open spec fn small_number(s: Seq<char>) -> Option<u32> {
    if all_digits(unsigned(s)) && number(unsigned(s)) <= u32::MAX {
        Some(number(unsigned(s)) as u32)
    } else {
        None
    }
}

/// An upper-case letter of the ASCII alphabet in lower case.
pub open spec fn lower(c: char) -> char {
    if 'A' <= c <= 'Z' {
        (c as u32 + 32) as char
    } else {
        c
    }
}

pub open spec fn lowered(s: Seq<char>) -> Seq<char> {
    s.map_values(|c: char| lower(c))
}

/// The decimal digit of value `d`.
pub open spec fn digit_char(d: nat) -> char {
    (d + '0' as nat) as char
}

/// The decimal digits of `n`.
pub open spec fn digits(n: nat) -> Seq<char>
    decreases n,
{
    if n < 10 {
        seq![digit_char(n)]
    } else {
        digits(n / 10).push(digit_char(n % 10))
    }
}

/// A whole number in decimal.
pub open spec fn decimal(n: int) -> Seq<char> {
    if n < 0 {
        seq!['-'] + digits((-n) as nat)
    } else {
        digits(n as nat)
    }
}

/// The characters of a text.
pub fn chars_of(s: &str) -> (r: Vec<char>)
    ensures
        r@ == s@,
{
    let mut r: Vec<char> = Vec::new();
    for c in it: s.chars()
        invariant
            it.seq() == s@,
            r@ == s@.take(it.index()),
    {
        r.push(c);
        assert(s@.take(it.index() + 1) == s@.take(it.index()).push(c));
    }
    assert(s@.take(s@.len() as int) == s@);
    r
}

fn is_white(c: char) -> (r: bool)
    ensures
        r == white(c),
{
    ('\u{9}' <= c && c <= '\u{d}') || c == ' ' || c == '\u{85}' || c == '\u{a0}' || c == '\u{1680}'
        || ('\u{2000}' <= c && c <= '\u{200a}') || c == '\u{2028}' || c == '\u{2029}' || c
        == '\u{202f}' || c == '\u{205f}' || c == '\u{3000}'
}

fn is_cut(c: char, cut: Cut) -> (r: bool)
    ensures
        r == falls_to(c, cut),
{
    match cut {
        Cut::Space => is_white(c),
        Cut::Quote => c == '"',
    }
}

/// The text without the characters at both ends that `cut` takes.
pub fn trim_by<'a>(s: &'a str, cut: Cut) -> (r: &'a str)
    ensures
        r@ == cut_ends(s@, cut),
{
    let c: Vec<char> = chars_of(s);
    let n: usize = c.len();
    let mut lo: usize = 0;
    assert(s@.skip(0) == s@);
    while lo < n && is_cut(c[lo], cut)
        invariant
            lo <= n,
            c@ == s@,
            n == c.len(),
            cut_front(s@, cut) == cut_front(s@.skip(lo as int), cut),
        decreases n - lo,
    {
        assert(s@.skip(lo as int).drop_first() == s@.skip(lo + 1));
        lo = lo + 1;
    }
    let ghost front = s@.skip(lo as int);
    assert(cut_front(s@, cut) == front);
    let mut hi: usize = n;
    assert(s@.subrange(lo as int, n as int) == front);
    while hi > lo && is_cut(c[hi - 1], cut)
        invariant
            lo <= hi <= n,
            c@ == s@,
            n == c.len(),
            cut_back(front, cut) == cut_back(s@.subrange(lo as int, hi as int), cut),
        decreases hi,
    {
        assert(s@.subrange(lo as int, hi as int).drop_last() == s@.subrange(lo as int, hi - 1));
        hi = hi - 1;
    }
    s.substring_char(lo, hi)
}

/// The text without white space at its ends.
pub fn trim<'a>(s: &'a str) -> (r: &'a str)
    ensures
        r@ == trimmed(s@),
{
    trim_by(s, Cut::Space)
}

/// The two texts hold the same characters.
pub fn same(a: &str, b: &str) -> (r: bool)
    ensures
        r == (a@ == b@),
{
    let x: Vec<char> = chars_of(a);
    let y: Vec<char> = chars_of(b);
    if x.len() != y.len() {
        return false;
    }
    let mut i: usize = 0;
    while i < x.len()
        invariant
            i <= x.len(),
            x.len() == y.len(),
            x@ == a@,
            y@ == b@,
            forall|j: int| 0 <= j < i ==> x[j] == y[j],
        decreases x.len() - i,
    {
        if x[i] != y[i] {
            assert(a@[i as int] != b@[i as int]);
            return false;
        }
        i = i + 1;
    }
    assert(a@ =~= b@);
    true
}

/// What follows the prefix `p`, where the text begins with it.
pub fn strip_prefix<'a>(s: &'a str, p: &str) -> (r: Option<&'a str>)
    ensures
        r is Some <==> starts(s@, p@),
        r matches Some(rest) ==> rest@ == s@.skip(p@.len() as int),
{
    let n: usize = s.unicode_len();
    let k: usize = p.unicode_len();
    if k > n {
        return None;
    }
    let head: &str = s.substring_char(0, k);
    assert(head@ == s@.take(k as int));
    if same(head, p) {
        let rest: &str = s.substring_char(k, n);
        assert(rest@ == s@.skip(k as int));
        Some(rest)
    } else {
        None
    }
}

/// The text ends with `p`.
pub fn ends_with(s: &str, p: &str) -> (r: bool)
    ensures
        r == ends(s@, p@),
{
    let n: usize = s.unicode_len();
    let k: usize = p.unicode_len();
    if k > n {
        return false;
    }
    let tail: &str = s.substring_char(n - k, n);
    assert(tail@ == s@.skip(n - k));
    same(tail, p)
}

fn lower_char(c: char) -> (r: char)
    ensures
        r == lower(c),
{
    if 'A' <= c && c <= 'Z' {
        ((c as u8) + 32) as char
    } else {
        c
    }
}

fn matches_at(c: &Vec<char>, i: usize, p: &Vec<char>) -> (r: bool)
    requires
        i + p.len() <= c.len(),
    ensures
        r == (c@.subrange(i as int, i + p.len() as int) == p@),
{
    let ghost here = c@.subrange(i as int, i + p.len() as int);
    let mut j: usize = 0;
    while j < p.len()
        invariant
            j <= p.len(),
            i + p.len() <= c.len(),
            here == c@.subrange(i as int, i + p.len() as int),
            here.take(j as int) == p@.take(j as int),
        decreases p.len() - j,
    {
        if c[i + j] != p[j] {
            assert(here[j as int] != p[j as int]);
            return false;
        }
        assert(here.take(j + 1) == here.take(j as int).push(here[j as int]));
        assert(p@.take(j + 1) == p@.take(j as int).push(p[j as int]));
        j = j + 1;
    }
    assert(here.take(j as int) == here);
    assert(p@.take(j as int) == p@);
    true
}

/// The text in lower case holds `p`.
pub fn contains_lowered(s: &str, p: &str) -> (r: bool)
    ensures
        r == occurs(lowered(s@), p@),
{
    let c: Vec<char> = chars_of(s);
    let q: Vec<char> = chars_of(p);
    let mut low: Vec<char> = Vec::new();
    let mut k: usize = 0;
    while k < c.len()
        invariant
            k <= c.len(),
            c@ == s@,
            low@ == lowered(s@).take(k as int),
        decreases c.len() - k,
    {
        low.push(lower_char(c[k]));
        assert(lowered(s@).take(k + 1) == lowered(s@).take(k as int).push(lower(s@[k as int])));
        k = k + 1;
    }
    assert(low@ == lowered(s@));
    let mut i: usize = 0;
    while low.len() - i >= q.len()
        invariant
            i <= low.len(),
            q@ == p@,
            low@ == lowered(s@),
            forall|j: int|
                0 <= j < i && j + p@.len() <= low@.len() ==> #[trigger] low@.subrange(
                    j,
                    j + p@.len() as int,
                ) != p@,
        decreases low.len() - i,
    {
        if matches_at(&low, i, &q) {
            return true;
        }
        assert(q.len() > 0) by {
            if q.len() == 0 {
                assert(low@.subrange(i as int, i + q.len() as int) =~= q@);
            }
        }
        i = i + 1;
    }
    false
}

/// The first `c` at or after `from`, or the length of the text.
fn find_char(s: &Vec<char>, c: char, from: usize) -> (r: usize)
    requires
        from <= s.len(),
    ensures
        r == place_of(s@, c, from as int),
        from <= r <= s.len(),
        r < s.len() ==> s[r as int] == c,
        forall|k: int| from <= k < r ==> s[k] != c,
{
    let mut i: usize = from;
    while i < s.len() && s[i] != c
        invariant
            from <= i <= s.len(),
            place_of(s@, c, from as int) == place_of(s@, c, i as int),
            forall|k: int| from <= k < i ==> s[k] != c,
        decreases s.len() - i,
    {
        i = i + 1;
    }
    i
}

/// The lines of a text.
pub fn split_lines<'a>(s: &'a str) -> (r: Vec<&'a str>)
    ensures
        r.len() == lines(s@).len(),
        forall|i: int| 0 <= i < r.len() ==> (#[trigger] r[i])@ == lines(s@)[i],
{
    let c: Vec<char> = chars_of(s);
    let n: usize = c.len();
    let mut r: Vec<&'a str> = Vec::new();
    let mut at: usize = 0;
    while at < n
        invariant
            at <= n,
            n == c.len(),
            c@ == s@,
            lines(s@).len() == r.len() + lines_from(s@, at as int).len(),
            forall|i: int| 0 <= i < r.len() ==> (#[trigger] r[i])@ == lines(s@)[i],
            forall|i: int|
                0 <= i < lines_from(s@, at as int).len() ==> lines(s@)[r.len() + i]
                    == #[trigger] lines_from(s@, at as int)[i],
        decreases n - at,
    {
        let ghost before = lines_from(s@, at as int);
        let end: usize = find_char(&c, '\n', at);
        if end < n {
            let stop: usize = if end > at && c[end - 1] == '\r' {
                end - 1
            } else {
                end
            };
            let line: &str = s.substring_char(at, stop);
            proof {
                let raw = s@.subrange(at as int, end as int);
                if end > at {
                    assert(raw.last() == c[end - 1]);
                    assert(raw.drop_last() == s@.subrange(at as int, end - 1));
                }
                assert(line@ == without_return(raw));
                let rest = lines_from(s@, end + 1);
                assert(before == seq![line@] + rest);
                assert(before[0] == line@);
                assert forall|i: int| 0 <= i < rest.len() implies lines(s@)[r.len() + 1 + i]
                    == #[trigger] rest[i] by {
                    assert(before[i + 1] == rest[i]);
                }
            }
            r.push(line);
            at = end + 1;
        } else {
            let line: &str = s.substring_char(at, n);
            proof {
                assert(line@ == s@.skip(at as int));
                assert(before == seq![line@]);
                assert(before[0] == line@);
            }
            r.push(line);
            at = n;
        }
    }
    r
}

/// The part of the text before the first `c` at or after `from`, and whether
/// there is one.
pub fn column<'a>(s: &'a str, c: char, from: usize) -> (r: (&'a str, Option<usize>))
    requires
        from <= s@.len(),
    ensures
        from <= place_of(s@, c, from as int) <= s@.len(),
        r.0@ == s@.subrange(from as int, place_of(s@, c, from as int)),
        r.1 is Some <==> place_of(s@, c, from as int) < s@.len(),
        r.1 matches Some(next) ==> next == place_of(s@, c, from as int) + 1,
{
    let v: Vec<char> = chars_of(s);
    let end: usize = find_char(&v, c, from);
    let part: &str = s.substring_char(from, end);
    if end < v.len() {
        (part, Some(end + 1))
    } else {
        (part, None)
    }
}

proof fn lemma_number_grows(s: Seq<char>, k: int)
    requires
        0 <= k <= s.len(),
        forall|i: int| 0 <= i < s.len() ==> digit(#[trigger] s[i]),
    ensures
        number(s.take(k)) <= number(s),
    decreases s.len() - k,
{
    if k < s.len() {
        let t = s.take(k + 1);
        assert(t.drop_last() == s.take(k));
        assert(t.last() == s[k]);
        lemma_number_grows(s, k + 1);
    } else {
        assert(s.take(k) == s);
    }
}

/// The number of at most 32 bits that the text writes.
pub fn parse_u32(s: &str) -> (r: Option<u32>)
    ensures
        r == small_number(s@),
{
    let c: Vec<char> = chars_of(s);
    let start: usize = if c.len() > 1 && c[0] == '+' {
        1
    } else {
        0
    };
    let ghost d = unsigned(s@);
    assert(d =~= s@.skip(start as int));
    if start == c.len() {
        return None;
    }
    let mut n: u64 = 0;
    let mut i: usize = start;
    while i < c.len()
        invariant
            start <= i <= c.len(),
            c@ == s@,
            d == s@.skip(start as int),
            d == unsigned(s@),
            n == number(d.take(i - start)),
            n <= u32::MAX,
            forall|k: int| 0 <= k < i - start ==> digit(#[trigger] d[k]),
        decreases c.len() - i,
    {
        let x: char = c[i];
        if !('0' <= x && x <= '9') {
            assert(!digit(d[i - start]));
            return None;
        }
        proof {
            let t = d.take(i - start + 1);
            assert(t.drop_last() == d.take(i - start));
            assert(t.last() == x);
        }
        n = n * 10 + ((x as u32) - ('0' as u32)) as u64;
        if n > 0xffff_ffff {
            proof {
                if all_digits(d) {
                    lemma_number_grows(d, i - start + 1);
                }
            }
            return None;
        }
        i = i + 1;
    }
    assert(d.take(i - start) == d);
    Some(n as u32)
}

fn digit_text(d: u64) -> (r: &'static str)
    requires
        d < 10,
    ensures
        r@ == seq![digit_char(d as nat)],
{
    proof {
        reveal_strlit("0");
        reveal_strlit("1");
        reveal_strlit("2");
        reveal_strlit("3");
        reveal_strlit("4");
        reveal_strlit("5");
        reveal_strlit("6");
        reveal_strlit("7");
        reveal_strlit("8");
        reveal_strlit("9");
    }
    let r: &'static str = match d {
        0 => "0",
        1 => "1",
        2 => "2",
        3 => "3",
        4 => "4",
        5 => "5",
        6 => "6",
        7 => "7",
        8 => "8",
        _ => "9",
    };
    assert(r@ =~= seq![digit_char(d as nat)]);
    r
}

/// A number in decimal.
pub fn wide_digits_of(n: u128) -> (r: String)
    ensures
        r@ == digits(n as nat),
    decreases n,
{
    if n < 10 {
        digit_text(n as u64).to_string()
    } else {
        let mut r: String = wide_digits_of(n / 10);
        r.append(digit_text((n % 10) as u64));
        assert(r@ == digits((n / 10) as nat).push(digit_char((n % 10) as nat)));
        r
    }
}

/// A number in decimal.
pub fn digits_of(n: u64) -> (r: String)
    ensures
        r@ == digits(n as nat),
{
    wide_digits_of(n as u128)
}

/// The last `places` decimal digits of a number.
pub open spec fn last_digits(n: nat, places: nat) -> Seq<char>
    decreases places,
{
    if places == 0 {
        Seq::empty()
    } else {
        last_digits(n / 10, (places - 1) as nat).push(digit_char(n % 10))
    }
}

/// The last `places` decimal digits of a number.
pub fn last_digits_of(n: u64, places: u32) -> (r: String)
    ensures
        r@ == last_digits(n as nat, places as nat),
    decreases places,
{
    if places == 0 {
        proof {
            reveal_strlit("");
        }
        let r: String = "".to_string();
        assert(r@ =~= Seq::empty());
        r
    } else {
        let mut r: String = last_digits_of(n / 10, places - 1);
        r.append(digit_text(n % 10));
        assert(r@ == last_digits((n / 10) as nat, (places - 1) as nat).push(
            digit_char((n % 10) as nat),
        ));
        r
    }
}

/// A whole number in decimal.
pub fn decimal_of(n: i64) -> (r: String)
    ensures
        r@ == decimal(n as int),
{
    if n < 0 {
        proof {
            reveal_strlit("-");
        }
        let mut r: String = "-".to_string();
        let size: u64 = (-(n + 1)) as u64 + 1;
        let d: String = digits_of(size);
        r.append(d.as_str());
        assert("-"@ =~= seq!['-']);
        r
    } else {
        digits_of(n as u64)
    }
}

/// So many spaces.
pub open spec fn spaces(n: nat) -> Seq<char> {
    Seq::new(n, |i: int| ' ')
}

/// Text filled up with spaces behind it.
pub open spec fn pad_end(s: Seq<char>, n: nat) -> Seq<char> {
    if s.len() < n {
        s + spaces((n - s.len()) as nat)
    } else {
        s
    }
}

/// Text filled up with spaces in front of it.
pub open spec fn pad_start(s: Seq<char>, n: nat) -> Seq<char> {
    if s.len() < n {
        spaces((n - s.len()) as nat) + s
    } else {
        s
    }
}

/// Append so many spaces.
fn append_spaces(r: &mut String, n: usize)
    ensures
        final(r)@ == old(r)@ + spaces(n as nat),
{
    let mut i: usize = 0;
    let ghost start = r@;
    assert(start =~= start + spaces(0));
    while i < n
        invariant
            i <= n,
            r@ == start + spaces(i as nat),
        decreases n - i,
    {
        proof {
            reveal_strlit(" ");
        }
        r.append(" ");
        assert(r@ =~= start + spaces((i + 1) as nat));
        i = i + 1;
    }
}

/// Append text filled up with spaces behind it.
pub fn append_padded_end(r: &mut String, s: &str, n: usize)
    ensures
        final(r)@ == old(r)@ + pad_end(s@, n as nat),
{
    let len: usize = s.unicode_len();
    let ghost start = r@;
    r.append(s);
    if len < n {
        append_spaces(r, n - len);
        assert(r@ =~= start + pad_end(s@, n as nat));
    }
}

/// Append text filled up with spaces in front of it.
pub fn append_padded_start(r: &mut String, s: &str, n: usize)
    ensures
        final(r)@ == old(r)@ + pad_start(s@, n as nat),
{
    let len: usize = s.unicode_len();
    let ghost start = r@;
    if len < n {
        append_spaces(r, n - len);
    }
    r.append(s);
    assert(r@ =~= start + pad_start(s@, n as nat));
}

/// A whole number in decimal, with its sign in any case.
pub open spec fn signed(n: int) -> Seq<char> {
    if n < 0 {
        decimal(n)
    } else {
        seq!['+'] + decimal(n)
    }
}

/// A whole number in decimal, with its sign in any case.
pub fn signed_of(n: i64) -> (r: String)
    ensures
        r@ == signed(n as int),
{
    if n < 0 {
        decimal_of(n)
    } else {
        proof {
            reveal_strlit("+");
        }
        let mut r: String = "+".to_string();
        let d: String = decimal_of(n);
        r.append(d.as_str());
        assert("+"@ =~= seq!['+']);
        r
    }
}

} // verus!
