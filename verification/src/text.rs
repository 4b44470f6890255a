//! Text primitives shared by the lowering passes, specified over `Seq<char>`.

use vstd::prelude::*;

verus! {

/// `p` is an initial segment of `s`.
pub open spec fn is_prefix(p: Seq<char>, s: Seq<char>) -> bool {
    p.len() <= s.len() && s.subrange(0, p.len() as int) == p
}

/// `p` is a final segment of `s`.
pub open spec fn is_suffix(p: Seq<char>, s: Seq<char>) -> bool {
    p.len() <= s.len() && s.subrange(s.len() - p.len(), s.len() as int) == p
}

/// The characters of a string slice, in order.
pub fn chars_of(s: &str) -> (out: Vec<char>)
    ensures
        out@ == s@,
{
    let mut out: Vec<char> = Vec::new();
    for c in it: s.chars()
        invariant
            it.seq() == s@,
            out@ == s@.take(it.index()),
    {
        assert(s@.take(it.index() + 1) =~= s@.take(it.index()).push(c));
        out.push(c);
    }
    assert(s@.take(s@.len() as int) =~= s@);
    out
}

/// Whether the characters `s[from..]` begin with `p`.
fn matches_at(s: &Vec<char>, from: usize, p: &Vec<char>) -> (r: bool)
    requires
        from <= s.len(),
    ensures
        r == (from + p.len() <= s.len() && s@.subrange(from as int, from + p.len()) == p@),
{
    if p.len() > s.len() - from {
        return false;
    }
    let mut i: usize = 0;
    while i < p.len()
        invariant
            from + p.len() <= s.len(),
            i <= p.len(),
            s@.subrange(from as int, from + i) == p@.take(i as int),
        decreases p.len() - i,
    {
        if s[from + i] != p[i] {
            assert(s@.subrange(from as int, from + p.len())[i as int] != p@[i as int]);
            return false;
        }
        assert(s@.subrange(from as int, from + i + 1) =~= s@.subrange(from as int, from + i).push(
            s@[from + i],
        ));
        assert(p@.take(i + 1) =~= p@.take(i as int).push(p@[i as int]));
        i += 1;
    }
    assert(p@.take(p@.len() as int) =~= p@);
    true
}

/// Whether two string slices hold the same characters.
pub fn same_text(a: &str, b: &str) -> (r: bool)
    ensures
        r == (a@ == b@),
{
    let x = chars_of(a);
    let y = chars_of(b);
    let r = x.len() == y.len() && matches_at(&x, 0, &y);
    assert(x@.subrange(0, x@.len() as int) =~= x@);
    r
}

/// Whether a character buffer holds exactly the characters of `word`.
pub fn spells(s: &Vec<char>, word: &str) -> (r: bool)
    ensures
        r == (s@ == word@),
{
    let y = chars_of(word);
    let r = s.len() == y.len() && matches_at(s, 0, &y);
    assert(s@.subrange(0, s@.len() as int) =~= s@);
    r
}

/// Whether a character buffer begins with the characters of `prefix`.
pub fn starts_with(s: &Vec<char>, prefix: &str) -> (r: bool)
    ensures
        r == is_prefix(prefix@, s@),
{
    let y = chars_of(prefix);
    matches_at(s, 0, &y)
}

/// Whether a character buffer ends with the characters of `suffix`.
pub fn ends_with(s: &Vec<char>, suffix: &str) -> (r: bool)
    ensures
        r == is_suffix(suffix@, s@),
{
    let y = chars_of(suffix);
    if y.len() > s.len() {
        return false;
    }
    matches_at(s, s.len() - y.len(), &y)
}

/// Whether `c` is one of the ten ASCII decimal digits.
pub open spec fn is_digit(c: char) -> bool {
    '0' <= c && c <= '9'
}

/// The number that the decimal digit `c` stands for.
pub open spec fn digit_value(c: char) -> nat {
    (c as int - '0' as int) as nat
}

/// The decimal digit that stands for `d`, for `d` below ten.
pub open spec fn digit_char(d: nat) -> char {
    if d == 0 {
        '0'
    } else if d == 1 {
        '1'
    } else if d == 2 {
        '2'
    } else if d == 3 {
        '3'
    } else if d == 4 {
        '4'
    } else if d == 5 {
        '5'
    } else if d == 6 {
        '6'
    } else if d == 7 {
        '7'
    } else if d == 8 {
        '8'
    } else {
        '9'
    }
}

/// Every character of `s` is a decimal digit.
pub open spec fn all_digits(s: Seq<char>) -> bool {
    forall|i: int| 0 <= i < s.len() ==> is_digit(#[trigger] s[i])
}

/// The number written by the digits of `s`, most significant first.
pub open spec fn digits_value(s: Seq<char>) -> nat
    decreases s.len(),
{
    if s.len() == 0 {
        0
    } else {
        digits_value(s.drop_last()) * 10 + digit_value(s.last())
    }
}

/// The number that `s` writes in decimal, if `s` is a non-empty run of digits.
pub open spec fn decimal_value(s: Seq<char>) -> Option<nat> {
    if s.len() > 0 && all_digits(s) {
        Some(digits_value(s))
    } else {
        None
    }
}

/// The decimal numeral of `n`, without leading zeros.
pub open spec fn decimal_text(n: nat) -> Seq<char>
    decreases n,
{
    if n < 10 {
        seq![digit_char(n)]
    } else {
        decimal_text(n / 10).push(digit_char(n % 10))
    }
}

/// Reading back the numeral of `n` gives `n`.
pub proof fn lemma_decimal_round_trip(n: nat)
    ensures
        decimal_value(decimal_text(n)) == Some(n),
    decreases n,
{
    if n < 10 {
        let t = decimal_text(n);
        assert(t.drop_last() =~= Seq::<char>::empty());
        assert(digits_value(t.drop_last()) == 0);
        assert(digit_value(digit_char(n)) == n);
    } else {
        lemma_decimal_round_trip(n / 10);
        let t = decimal_text(n);
        let u = decimal_text(n / 10);
        assert(t.drop_last() =~= u);
        assert(digit_value(digit_char(n % 10)) == n % 10);
        assert forall|i: int| 0 <= i < t.len() implies is_digit(#[trigger] t[i]) by {
            if i < u.len() {
                assert(t[i] == u[i]);
            }
        }
    }
}

/// Different numbers have different numerals.
pub proof fn lemma_decimal_text_injective(a: nat, b: nat)
    requires
        decimal_text(a) == decimal_text(b),
    ensures
        a == b,
{
    lemma_decimal_round_trip(a);
    lemma_decimal_round_trip(b);
}

/// The index of the first decimal digit of `s`, or the length of `s` if it has none.
pub open spec fn first_digit(s: Seq<char>) -> int
    decreases s.len(),
{
    if s.len() == 0 {
        0
    } else if is_digit(s[0]) {
        0
    } else {
        1 + first_digit(s.subrange(1, s.len() as int))
    }
}

/// Where the first digit of a text lies: no digit stands before it.
pub proof fn lemma_first_digit(s: Seq<char>)
    ensures
        0 <= first_digit(s) <= s.len(),
        first_digit(s) < s.len() ==> is_digit(s[first_digit(s)]),
        forall|i: int| 0 <= i < first_digit(s) ==> !is_digit(#[trigger] s[i]),
    decreases s.len(),
{
    if s.len() > 0 && !is_digit(s[0]) {
        let t = s.subrange(1, s.len() as int);
        lemma_first_digit(t);
        assert forall|i: int| 0 <= i < first_digit(s) implies !is_digit(#[trigger] s[i]) by {
            if i > 0 {
                assert(s[i] == t[i - 1]);
            }
        }
    }
}

/// The nesting level that a node kind such as `heading2` carries: the number
/// written from the first digit of the kind to its end, when that tail is all
/// digits and the number fits in 64 bits.
pub open spec fn level_of(kind: Seq<char>) -> Option<u64> {
    let tail = kind.subrange(first_digit(kind), kind.len() as int);
    match decimal_value(tail) {
        Some(n) => if n <= u64::MAX {
            Some(n as u64)
        } else {
            None
        },
        None => None,
    }
}

proof fn lemma_digits_value_push(s: Seq<char>, k: int)
    requires
        0 <= k < s.len(),
    ensures
        digits_value(s.take(k + 1)) == digits_value(s.take(k)) * 10 + digit_value(s[k]),
{
    assert(s.take(k + 1).drop_last() =~= s.take(k));
}

proof fn lemma_digits_value_grows(s: Seq<char>, k: int)
    requires
        0 <= k <= s.len(),
    ensures
        digits_value(s.take(k)) <= digits_value(s),
    decreases s.len() - k,
{
    if k < s.len() {
        lemma_digits_value_push(s, k);
        lemma_digits_value_grows(s, k + 1);
    } else {
        assert(s.take(k) =~= s);
    }
}

/// Tests whether a character is an ASCII decimal digit.
pub fn char_is_digit(c: char) -> (r: bool)
    ensures
        r == is_digit(c),
{
    '0' <= c && c <= '9'
}

/// Reads the nesting level out of a node kind.
pub fn read_level(s: &Vec<char>) -> (r: Option<u64>)
    ensures
        r == level_of(s@),
{
    let n: usize = s.len();
    let mut i: usize = 0;
    proof {
        lemma_first_digit(s@);
    }
    while i < n && !char_is_digit(s[i])
        invariant
            n == s.len(),
            i <= n,
            forall|j: int| 0 <= j < i ==> !is_digit(#[trigger] s@[j]),
            0 <= first_digit(s@) <= s.len(),
            first_digit(s@) < s.len() ==> is_digit(s@[first_digit(s@)]),
            forall|j: int| 0 <= j < first_digit(s@) ==> !is_digit(#[trigger] s@[j]),
        decreases n - i,
    {
        i += 1;
    }
    assert(i == first_digit(s@));
    let ghost tail = s@.subrange(i as int, n as int);
    if i == n {
        return None;
    }
    let mut acc: u64 = 0;
    let mut j: usize = i;
    while j < n
        invariant
            n == s.len(),
            i <= j <= n,
            i == first_digit(s@),
            tail == s@.subrange(i as int, n as int),
            all_digits(tail.take(j - i)),
            acc == digits_value(tail.take(j - i)),
        decreases n - j,
    {
        let c = s[j];
        proof {
            lemma_digits_value_push(tail, j - i);
            lemma_digits_value_grows(tail, j - i + 1);
        }
        if !char_is_digit(c) {
            assert(!is_digit(tail[j - i]));
            return None;
        }
        let d: u64 = (c as u32 - '0' as u32) as u64;
        assert(d == digit_value(tail[j - i]));
        if acc > (u64::MAX - d) / 10 {
            assert(acc * 10 + d > u64::MAX);
            return None;
        }
        acc = acc * 10 + d;
        assert forall|k: int| 0 <= k < j - i + 1 implies is_digit(#[trigger] tail.take(j - i + 1)[k]) by {
            if k < j - i {
                assert(tail.take(j - i + 1)[k] == tail.take(j - i)[k]);
            }
        }
        j += 1;
    }
    assert(tail.take(n - i) =~= tail);
    Some(acc)
}

fn digit_text(d: u64) -> (r: &'static str)
    requires
        d < 10,
    ensures
        r@ == seq![digit_char(d as nat)],
{
    proof {
        reveal_strlit("0");
        reveal_strlit("1");
        reveal_strlit("2");
        reveal_strlit("3");
        reveal_strlit("4");
        reveal_strlit("5");
        reveal_strlit("6");
        reveal_strlit("7");
        reveal_strlit("8");
        reveal_strlit("9");
    }
    let r = if d == 0 {
        "0"
    } else if d == 1 {
        "1"
    } else if d == 2 {
        "2"
    } else if d == 3 {
        "3"
    } else if d == 4 {
        "4"
    } else if d == 5 {
        "5"
    } else if d == 6 {
        "6"
    } else if d == 7 {
        "7"
    } else if d == 8 {
        "8"
    } else {
        "9"
    };
    assert(r@ =~= seq![digit_char(d as nat)]);
    r
}

/// Writes a number in decimal.
pub fn decimal(n: u64) -> (r: String)
    ensures
        r@ == decimal_text(n as nat),
    decreases n,
{
    if n < 10 {
        String::from_str(digit_text(n))
    } else {
        let mut r = decimal(n / 10);
        r.append(digit_text(n % 10));
        assert(r@ =~= decimal_text(n as nat));
        r
    }
}

/// Copies the characters `s[from..to]` into a new string.
pub fn slice_text(s: &str, from: usize, to: usize) -> (r: String)
    requires
        from <= to <= s@.len(),
    ensures
        r@ == s@.subrange(from as int, to as int),
{
    String::from_str(s.substring_char(from, to))
}

/// `s` without its first character; the empty text stays empty.
pub open spec fn without_first(s: Seq<char>) -> Seq<char> {
    if s.len() > 0 {
        s.subrange(1, s.len() as int)
    } else {
        s
    }
}

/// Drops the first character of `s`.
pub fn drop_first(s: &str) -> (r: String)
    ensures
        r@ == without_first(s@),
{
    let n: usize = s.unicode_len();
    if n > 0 {
        slice_text(s, 1, n)
    } else {
        let r = String::new();
        assert(r@ =~= s@);
        r
    }
}

/// `s` without its first and its last character; a text of fewer than two
/// characters has nothing between its delimiters.
pub open spec fn inner_text(s: Seq<char>) -> Seq<char> {
    if s.len() >= 2 {
        s.subrange(1, s.len() - 1)
    } else {
        Seq::empty()
    }
}

/// Strips one delimiter character from each side of `s`.
pub fn strip_delimiters(s: &str) -> (r: String)
    ensures
        r@ == inner_text(s@),
{
    let n: usize = s.unicode_len();
    if n >= 2 {
        slice_text(s, 1, n - 1)
    } else {
        String::new()
    }
}

/// The characters with the Unicode property `White_Space`.
pub open spec fn is_space(c: char) -> bool {
    ||| ('\u{9}' <= c && c <= '\u{d}')
    ||| c == ' '
    ||| c == '\u{85}'
    ||| c == '\u{a0}'
    ||| c == '\u{1680}'
    ||| ('\u{2000}' <= c && c <= '\u{200a}')
    ||| c == '\u{2028}'
    ||| c == '\u{2029}'
    ||| c == '\u{202f}'
    ||| c == '\u{205f}'
    ||| c == '\u{3000}'
}

/// Tests whether a character is white space.
pub fn char_is_space(c: char) -> (r: bool)
    ensures
        r == is_space(c),
{
    ('\u{9}' <= c && c <= '\u{d}') || c == ' ' || c == '\u{85}' || c == '\u{a0}' || c == '\u{1680}'
        || ('\u{2000}' <= c && c <= '\u{200a}') || c == '\u{2028}' || c == '\u{2029}' || c
        == '\u{202f}' || c == '\u{205f}' || c == '\u{3000}'
}

/// `s` without its leading white space.
pub open spec fn trim_start(s: Seq<char>) -> Seq<char>
    decreases s.len(),
{
    if s.len() > 0 && is_space(s[0]) {
        trim_start(s.subrange(1, s.len() as int))
    } else {
        s
    }
}

/// `s` without its trailing white space.
pub open spec fn trim_end(s: Seq<char>) -> Seq<char>
    decreases s.len(),
{
    if s.len() > 0 && is_space(s.last()) {
        trim_end(s.drop_last())
    } else {
        s
    }
}

/// `s` without leading and trailing white space.
pub open spec fn trimmed(s: Seq<char>) -> Seq<char> {
    trim_end(trim_start(s))
}

/// The bounds of `trimmed` within a character buffer: `s[from..to]` without
/// its surrounding white space is `s[a..b]`.
fn trim_bounds(s: &Vec<char>, from: usize, to: usize) -> (r: (usize, usize))
    requires
        from <= to <= s.len(),
    ensures
        from <= r.0 <= r.1 <= to,
        s@.subrange(r.0 as int, r.1 as int) == trimmed(s@.subrange(from as int, to as int)),
{
    let mut a: usize = from;
    while a < to && char_is_space(s[a])
        invariant
            from <= a <= to <= s.len(),
            trim_start(s@.subrange(from as int, to as int)) == trim_start(
                s@.subrange(a as int, to as int),
            ),
        decreases to - a,
    {
        let ghost t = s@.subrange(a as int, to as int);
        assert(t.subrange(1, t.len() as int) =~= s@.subrange(a + 1, to as int));
        a += 1;
    }
    let mut b: usize = to;
    while b > a && char_is_space(s[b - 1])
        invariant
            a <= b <= to <= s.len(),
            trim_end(s@.subrange(a as int, to as int)) == trim_end(s@.subrange(a as int, b as int)),
        decreases b - a,
    {
        let ghost t = s@.subrange(a as int, b as int);
        assert(t.drop_last() =~= s@.subrange(a as int, b - 1));
        b -= 1;
    }
    (a, b)
}

/// Removes leading and trailing white space.
pub fn trim(s: &str) -> (r: String)
    ensures
        r@ == trimmed(s@),
{
    let chars = chars_of(s);
    assert(chars@.subrange(0, chars@.len() as int) =~= chars@);
    let (a, b) = trim_bounds(&chars, 0, chars.len());
    slice_text(s, a, b)
}

/// The index of the first occurrence of `c` in `s`, or the length of `s` if
/// `c` does not occur.
pub open spec fn position_of(s: Seq<char>, c: char) -> int
    decreases s.len(),
{
    if s.len() == 0 {
        0
    } else if s[0] == c {
        0
    } else {
        1 + position_of(s.subrange(1, s.len() as int), c)
    }
}

/// Where the first occurrence of a character lies: none stands before it.
pub proof fn lemma_position_of(s: Seq<char>, c: char)
    ensures
        0 <= position_of(s, c) <= s.len(),
        position_of(s, c) < s.len() ==> s[position_of(s, c)] == c,
        forall|i: int| 0 <= i < position_of(s, c) ==> #[trigger] s[i] != c,
    decreases s.len(),
{
    if s.len() > 0 && s[0] != c {
        let t = s.subrange(1, s.len() as int);
        lemma_position_of(t, c);
        assert forall|i: int| 0 <= i < position_of(s, c) implies #[trigger] s[i] != c by {
            if i > 0 {
                assert(s[i] == t[i - 1]);
            }
        }
    }
}

/// Finds the first occurrence of `c` in `s[from..]`, relative to `from`.
fn find_from(s: &Vec<char>, from: usize, c: char) -> (r: usize)
    requires
        from <= s.len(),
    ensures
        r == position_of(s@.subrange(from as int, s@.len() as int), c),
        from + r <= s.len(),
{
    let ghost t = s@.subrange(from as int, s@.len() as int);
    proof {
        lemma_position_of(t, c);
    }
    let mut i: usize = from;
    while i < s.len() && s[i] != c
        invariant
            from <= i <= s.len(),
            t == s@.subrange(from as int, s@.len() as int),
            forall|j: int| 0 <= j < i - from ==> #[trigger] t[j] != c,
            0 <= position_of(t, c) <= t.len(),
            position_of(t, c) < t.len() ==> t[position_of(t, c)] == c,
            forall|j: int| 0 <= j < position_of(t, c) ==> #[trigger] t[j] != c,
        decreases s.len() - i,
    {
        i += 1;
    }
    assert(i < s.len() ==> t[i - from] == c);
    i - from
}

/// The key and the value of a metadata line: the text before and after its
/// first colon, each without surrounding white space. A line without a colon
/// is a key with an empty value.
pub open spec fn entry_of(line: Seq<char>) -> (Seq<char>, Seq<char>) {
    let i = position_of(line, ':');
    if i < line.len() {
        (trimmed(line.subrange(0, i)), trimmed(line.subrange(i + 1, line.len() as int)))
    } else {
        (trimmed(line), Seq::empty())
    }
}

/// Splits a metadata line at its first colon.
pub fn split_entry(line: &str) -> (r: (String, String))
    ensures
        (r.0@, r.1@) == entry_of(line@),
{
    let chars = chars_of(line);
    let n: usize = chars.len();
    assert(chars@.subrange(0, n as int) =~= chars@);
    let i: usize = find_from(&chars, 0, ':');
    if i < n {
        let (a, b) = trim_bounds(&chars, 0, i);
        let (c, d) = trim_bounds(&chars, i + 1, n);
        (slice_text(line, a, b), slice_text(line, c, d))
    } else {
        let (a, b) = trim_bounds(&chars, 0, n);
        (slice_text(line, a, b), String::new())
    }
}

/// The lines of `s`: the runs of characters between its line feeds.
pub open spec fn lines_of(s: Seq<char>) -> Seq<Seq<char>>
    decreases s.len(),
{
    let i = position_of(s, '\n');
    if 0 <= i && i < s.len() {
        seq![s.subrange(0, i)] + lines_of(s.subrange(i + 1, s.len() as int))
    } else {
        seq![s]
    }
}

/// The views of a sequence of strings.
pub open spec fn texts(v: Seq<String>) -> Seq<Seq<char>> {
    Seq::new(v.len(), |i: int| v[i]@)
}

/// Splits a text at its line feeds.
pub fn split_lines(s: &str) -> (r: Vec<String>)
    ensures
        texts(r@) == lines_of(s@),
{
    let chars = chars_of(s);
    let n: usize = chars.len();
    let mut out: Vec<String> = Vec::new();
    let mut start: usize = 0;
    assert(chars@.subrange(0, n as int) =~= chars@);
    loop
        invariant_except_break
            n == chars.len(),
            chars@ == s@,
            start <= n,
            lines_of(s@) == texts(out@) + lines_of(chars@.subrange(start as int, n as int)),
        ensures
            texts(out@) == lines_of(s@),
        decreases n - start,
    {
        let ghost rest = chars@.subrange(start as int, n as int);
        let ghost before = texts(out@);
        let i: usize = find_from(&chars, start, '\n');
        let piece = slice_text(s, start, start + i);
        assert(piece@ =~= rest.subrange(0, i as int));
        out.push(piece);
        assert(texts(out@) =~= before + seq![rest.subrange(0, i as int)]);
        if start + i < n {
            assert(rest.subrange(i + 1, rest.len() as int) =~= chars@.subrange(
                start + i + 1,
                n as int,
            ));
            start = start + i + 1;
        } else {
            assert(rest.subrange(0, i as int) =~= rest);
            break;
        }
    }
    out
}

/// `s` with every `~` replaced by `home`.
pub open spec fn expand_home(s: Seq<char>, home: Seq<char>) -> Seq<char>
    decreases s.len(),
{
    if s.len() == 0 {
        Seq::empty()
    } else if s[0] == '~' {
        home + expand_home(s.subrange(1, s.len() as int), home)
    } else {
        seq![s[0]] + expand_home(s.subrange(1, s.len() as int), home)
    }
}

proof fn lemma_expand_plain(s: Seq<char>, home: Seq<char>, k: int)
    requires
        0 <= k <= s.len(),
        forall|i: int| 0 <= i < k ==> #[trigger] s[i] != '~',
    ensures
        expand_home(s, home) == s.subrange(0, k) + expand_home(s.subrange(k, s.len() as int), home),
    decreases k,
{
    if k == 0 {
        assert(s.subrange(0, s.len() as int) =~= s);
        assert(s.subrange(0, 0) + expand_home(s, home) =~= expand_home(s, home));
    } else {
        let t = s.subrange(1, s.len() as int);
        assert forall|i: int| 0 <= i < k - 1 implies #[trigger] t[i] != '~' by {
            assert(t[i] == s[i + 1]);
        }
        lemma_expand_plain(t, home, k - 1);
        assert(t.subrange(k - 1, t.len() as int) =~= s.subrange(k, s.len() as int));
        assert(seq![s[0]] + t.subrange(0, k - 1) =~= s.subrange(0, k));
        assert(seq![s[0]] + (t.subrange(0, k - 1) + expand_home(
            s.subrange(k, s.len() as int),
            home,
        )) =~= s.subrange(0, k) + expand_home(s.subrange(k, s.len() as int), home));
    }
}

/// Replaces every `~` of a path by the home directory.
pub fn replace_home(s: &str, home: &str) -> (r: String)
    ensures
        r@ == expand_home(s@, home@),
{
    let chars = chars_of(s);
    let n: usize = chars.len();
    let mut out = String::new();
    let mut start: usize = 0;
    assert(chars@.subrange(0, n as int) =~= chars@);
    assert(out@ + expand_home(s@, home@) =~= expand_home(s@, home@));
    loop
        invariant_except_break
            n == chars.len(),
            chars@ == s@,
            start <= n,
            expand_home(s@, home@) == out@ + expand_home(
                chars@.subrange(start as int, n as int),
                home@,
            ),
        ensures
            out@ == expand_home(s@, home@),
        decreases n - start,
    {
        let ghost rest = chars@.subrange(start as int, n as int);
        let ghost before = out@;
        let i: usize = find_from(&chars, start, '~');
        proof {
            lemma_position_of(rest, '~');
            lemma_expand_plain(rest, home@, i as int);
        }
        let piece = slice_text(s, start, start + i);
        assert(piece@ =~= rest.subrange(0, i as int));
        out.append(piece.as_str());
        if start + i < n {
            out.append(home);
            let ghost tail = rest.subrange(i as int, rest.len() as int);
            assert(tail[0] == '~');
            assert(tail.subrange(1, tail.len() as int) =~= chars@.subrange(start + i + 1, n as int));
            assert(out@ + expand_home(chars@.subrange(start + i + 1, n as int), home@) =~= before
                + (rest.subrange(0, i as int) + expand_home(tail, home@)));
            start = start + i + 1;
        } else {
            assert(rest.subrange(i as int, rest.len() as int) =~= Seq::<char>::empty());
            assert(out@ =~= before + (rest.subrange(0, i as int) + Seq::<char>::empty()));
            break;
        }
    }
    out
}

} // verus!
