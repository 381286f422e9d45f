//! Text as sequences of characters: trimming, words, lines, and the number grammars.

use vstd::prelude::*;
use vstd::slice::slice_subrange;
use vstd::utf8::{decode_utf8, valid_utf8};

verus! {

/// `String::push`: appends one character.
pub assume_specification[ String::push ](s: &mut String, c: char)
    ensures
        final(s)@ == old(s)@.push(c),
;

/// `std::str::from_utf8`: the text behind bytes that are valid UTF-8.
#[verifier::external_body]
pub(crate) fn utf8_text(bytes: &[u8]) -> (r: Option<String>)
    ensures
        r is Some <==> valid_utf8(bytes@),
        r matches Some(s) ==> s@ == decode_utf8(bytes@),
{
    std::str::from_utf8(bytes).ok().map(|s| s.to_owned())
}

/// The white space of Unicode.
pub open spec fn is_space(c: char) -> bool {
    let u = c as u32;
    ||| 0x09 <= u <= 0x0D
    ||| u == 0x20
    ||| u == 0x85
    ||| u == 0xA0
    ||| u == 0x1680
    ||| 0x2000 <= u <= 0x200A
    ||| u == 0x2028
    ||| u == 0x2029
    ||| u == 0x202F
    ||| u == 0x205F
    ||| u == 0x3000
}

/// Whether `c` is white space.
pub fn space(c: char) -> (r: bool)
    ensures
        r == is_space(c),
{
    let u: u32 = c as u32;
    (0x09 <= u && u <= 0x0D) || u == 0x20 || u == 0x85 || u == 0xA0 || u == 0x1680 || (0x2000 <= u
        && u <= 0x200A) || u == 0x2028 || u == 0x2029 || u == 0x202F || u == 0x205F || u == 0x3000
}

/// The characters of `s`.
pub fn chars_of(s: &str) -> (r: Vec<char>)
    ensures
        r@ == s@,
{
    let mut r: Vec<char> = Vec::new();
    for c in it: s.chars()
        invariant
            r@ == it.seq().take(it.index() as int),
            it.seq() == s@,
    {
        r.push(c);
        assert(r@ =~= it.seq().take(it.index() + 1));
    }
    assert(r@ =~= s@);
    r
}

/// The string of these characters.
pub fn string_of(s: &[char]) -> (r: String)
    ensures
        r@ == s@,
{
    let mut r = String::new();
    let mut i: usize = 0;
    while i < s.len()
        invariant
            i <= s@.len(),
            r@ == s@.take(i as int),
        decreases s@.len() - i,
    {
        r.push(s[i]);
        i += 1;
        assert(r@ =~= s@.take(i as int));
    }
    assert(s@.take(i as int) =~= s@);
    r
}

/// A copy of a string.
pub fn copied(s: &str) -> (r: String)
    ensures
        r@ == s@,
{
    s.to_owned()
}

/// Whether two texts are the same.
pub fn same(a: &[char], b: &[char]) -> (r: bool)
    ensures
        r == (a@ == b@),
{
    if a.len() != b.len() {
        return false;
    }
    let mut i: usize = 0;
    while i < a.len()
        invariant
            i <= a@.len(),
            a@.len() == b@.len(),
            forall|j: int| 0 <= j < i ==> a@[j] == b@[j],
        decreases a@.len() - i,
    {
        if a[i] != b[i] {
            return false;
        }
        i += 1;
    }
    assert(a@ =~= b@);
    true
}

/// Whether the characters are those of `lit`.
pub fn is_word(s: &[char], lit: &str) -> (r: bool)
    ensures
        r == (s@ == lit@),
{
    let l = chars_of(lit);
    same(s, &l)
}

/// Whether two strings are the same.
pub fn same_str(a: &str, b: &str) -> (r: bool)
    ensures
        r == (a@ == b@),
{
    let x = chars_of(a);
    let y = chars_of(b);
    same(&x, &y)
}

/// An ASCII letter in lower case, anything else as it is.
pub open spec fn lower(c: char) -> char {
    if 'A' <= c <= 'Z' {
        ((c as u32) + 32) as char
    } else {
        c
    }
}

/// The text with its ASCII letters in lower case.
pub open spec fn lowered(s: Seq<char>) -> Seq<char> {
    s.map_values(|c: char| lower(c))
}

/// The text with its ASCII letters in lower case.
pub fn to_lower(s: &[char]) -> (r: Vec<char>)
    ensures
        r@ == lowered(s@),
{
    let mut r: Vec<char> = Vec::new();
    let mut i: usize = 0;
    while i < s.len()
        invariant
            i <= s@.len(),
            r@ == lowered(s@.take(i as int)),
        decreases s@.len() - i,
    {
        let c: char = s[i];
        let l: char = if 'A' <= c && c <= 'Z' {
            ((c as u8) + 32) as char
        } else {
            c
        };
        r.push(l);
        i += 1;
        assert(r@ =~= lowered(s@.take(i as int)));
    }
    assert(s@.take(i as int) =~= s@);
    r
}

/// Whether `s` starts with `p`.
pub open spec fn starts_with(s: Seq<char>, p: Seq<char>) -> bool {
    s.len() >= p.len() && s.take(p.len() as int) == p
}

/// Whether `s` ends with `p`.
pub open spec fn ends_with(s: Seq<char>, p: Seq<char>) -> bool {
    s.len() >= p.len() && s.skip(s.len() - p.len()) == p
}

/// What follows the prefix `p`, if `s` starts with it.
pub fn after_prefix<'a>(s: &'a [char], p: &str) -> (r: Option<&'a [char]>)
    ensures
        r is Some <==> starts_with(s@, p@),
        r matches Some(t) ==> t@ == s@.skip(p@.len() as int),
{
    let l = chars_of(p);
    if s.len() < l.len() {
        return None;
    }
    if same(slice_subrange(s, 0, l.len()), &l) {
        assert(s@.subrange(0, l@.len() as int) =~= s@.take(l@.len() as int));
        let t = slice_subrange(s, l.len(), s.len());
        assert(t@ =~= s@.skip(p@.len() as int));
        Some(t)
    } else {
        assert(s@.subrange(0, l@.len() as int) =~= s@.take(l@.len() as int));
        None
    }
}

/// Whether `s` ends with `p`.
pub fn has_suffix(s: &[char], p: &str) -> (r: bool)
    ensures
        r == ends_with(s@, p@),
{
    let l = chars_of(p);
    if s.len() < l.len() {
        return false;
    }
    let t = slice_subrange(s, s.len() - l.len(), s.len());
    assert(t@ =~= s@.skip(s@.len() - p@.len()));
    same(t, &l)
}

/// The text without white space in front.
pub open spec fn trim_start(s: Seq<char>) -> Seq<char>
    decreases s.len(),
{
    if s.len() > 0 && is_space(s[0]) {
        trim_start(s.skip(1))
    } else {
        s
    }
}

/// The text without white space behind.
pub open spec fn trim_end(s: Seq<char>) -> Seq<char>
    decreases s.len(),
{
    if s.len() > 0 && is_space(s.last()) {
        trim_end(s.drop_last())
    } else {
        s
    }
}

/// The text without white space in front or behind.
pub open spec fn trimmed(s: Seq<char>) -> Seq<char> {
    trim_end(trim_start(s))
}

/// The text without white space in front or behind.
pub fn trim<'a>(s: &'a [char]) -> (r: &'a [char])
    ensures
        r@ == trimmed(s@),
{
    let mut i: usize = 0;
    assert(s@.skip(0) =~= s@);
    while i < s.len() && space(s[i])
        invariant
            i <= s@.len(),
            trim_start(s@) == trim_start(s@.skip(i as int)),
        decreases s@.len() - i,
    {
        assert(s@.skip(i as int).skip(1) =~= s@.skip(i + 1));
        i += 1;
    }
    let ghost t = s@.skip(i as int);
    let mut j: usize = s.len();
    assert(s@.subrange(i as int, j as int) =~= t);
    while j > i && space(s[j - 1])
        invariant
            i <= j <= s@.len(),
            trim_end(t) == trim_end(s@.subrange(i as int, j as int)),
        decreases j,
    {
        assert(s@.subrange(i as int, j as int).drop_last() =~= s@.subrange(i as int, j - 1));
        j -= 1;
    }
    slice_subrange(s, i, j)
}

/// How many characters come before the first white space.
pub open spec fn word_len(s: Seq<char>) -> nat
    decreases s.len(),
{
    if s.len() > 0 && !is_space(s[0]) {
        1 + word_len(s.skip(1))
    } else {
        0
    }
}

/// The words between white space.
pub open spec fn words(s: Seq<char>) -> Seq<Seq<char>>
    decreases s.len(),
{
    let t = trim_start(s);
    let n = word_len(t) as int;
    if t.len() == 0 || n <= 0 || n > t.len() || t.len() > s.len() {
        Seq::empty()
    } else {
        seq![t.take(n)] + words(t.skip(n))
    }
}

pub proof fn lemma_trim_start_len(s: Seq<char>)
    ensures
        trim_start(s).len() <= s.len(),
        trim_start(s).len() > 0 ==> !is_space(trim_start(s)[0]),
    decreases s.len(),
{
    if s.len() > 0 && is_space(s[0]) {
        lemma_trim_start_len(s.skip(1));
    }
}

pub proof fn lemma_word_len(s: Seq<char>)
    ensures
        word_len(s) <= s.len(),
        s.len() > 0 && !is_space(s[0]) ==> word_len(s) > 0,
    decreases s.len(),
{
    if s.len() > 0 && !is_space(s[0]) {
        lemma_word_len(s.skip(1));
    }
}

/// The texts behind a list of slices.
pub open spec fn texts(v: Seq<&[char]>) -> Seq<Seq<char>> {
    v.map_values(|x: &[char]| x@)
}

/// The words between white space.
pub fn split_words<'a>(s: &'a [char]) -> (r: Vec<&'a [char]>)
    ensures
        texts(r@) == words(s@),
{
    let mut r: Vec<&'a [char]> = Vec::new();
    let mut i: usize = 0;
    assert(s@.skip(0) =~= s@);
    assert(texts(r@) + words(s@) =~= words(s@));
    loop
        invariant
            i <= s@.len(),
            texts(r@) + words(s@.skip(i as int)) == words(s@),
        decreases s@.len() - i,
    {
        let ghost from = s@.skip(i as int);
        while i < s.len() && space(s[i])
            invariant
                i <= s@.len(),
                s@.len() - i <= from.len(),
                trim_start(from) == trim_start(s@.skip(i as int)),
            decreases s@.len() - i,
        {
            assert(s@.skip(i as int).skip(1) =~= s@.skip(i + 1));
            i += 1;
        }
        let ghost t = s@.skip(i as int);
        proof {
            assert(trim_start(from) == t);
            lemma_word_len(t);
        }
        if i >= s.len() {
            assert(words(from) =~= Seq::<Seq<char>>::empty());
            assert(texts(r@) =~= words(s@));
            return r;
        }
        let start: usize = i;
        while i < s.len() && !space(s[i])
            invariant
                start <= i <= s@.len(),
                word_len(t) == i - start + word_len(s@.skip(i as int)),
            decreases s@.len() - i,
        {
            assert(s@.skip(i as int).skip(1) =~= s@.skip(i + 1));
            i += 1;
        }
        let w = slice_subrange(s, start, i);
        let ghost before = r@;
        r.push(w);
        proof {
            let n = word_len(t) as int;
            assert(n == i - start);
            assert(t.take(n) =~= w@);
            assert(t.skip(n) =~= s@.skip(i as int));
            assert(texts(r@) =~= texts(before).push(w@));
            assert(texts(r@) + words(s@.skip(i as int)) =~= texts(before) + (seq![w@] + words(
                t.skip(n),
            )));
        }
    }
}

/// Where `c` first occurs, or the length.
pub open spec fn index_of_char(s: Seq<char>, c: char) -> int
    decreases s.len(),
{
    if s.len() == 0 || s[0] == c {
        0
    } else {
        1 + index_of_char(s.skip(1), c)
    }
}

pub proof fn lemma_index_of_char(s: Seq<char>, c: char)
    ensures
        0 <= index_of_char(s, c) <= s.len(),
    decreases s.len(),
{
    if s.len() > 0 && s[0] != c {
        lemma_index_of_char(s.skip(1), c);
    }
}

/// Where `c` first occurs from `from` on, or the length.
pub fn find_char(s: &[char], from: usize, c: char) -> (r: usize)
    requires
        from <= s@.len(),
    ensures
        from <= r <= s@.len(),
        r - from == index_of_char(s@.skip(from as int), c),
        r < s@.len() ==> s@[r as int] == c,
{
    let mut i: usize = from;
    while i < s.len() && s[i] != c
        invariant
            from <= i <= s@.len(),
            index_of_char(s@.skip(from as int), c) == i - from + index_of_char(
                s@.skip(i as int),
                c,
            ),
        decreases s@.len() - i,
    {
        assert(s@.skip(i as int).skip(1) =~= s@.skip(i + 1));
        i += 1;
    }
    i
}

/// The pieces between occurrences of `c`: always at least one.
pub open spec fn split_at_char(s: Seq<char>, c: char) -> Seq<Seq<char>>
    decreases s.len(),
{
    let n = index_of_char(s, c);
    if n < 0 || n >= s.len() {
        seq![s]
    } else {
        seq![s.take(n)] + split_at_char(s.skip(n + 1), c)
    }
}

/// The pieces between occurrences of `c`.
pub fn split_char<'a>(s: &'a [char], c: char) -> (r: Vec<&'a [char]>)
    ensures
        texts(r@) == split_at_char(s@, c),
        r@.len() >= 1,
{
    let mut r: Vec<&'a [char]> = Vec::new();
    let mut i: usize = 0;
    assert(s@.skip(0) =~= s@);
    assert(texts(r@) + split_at_char(s@, c) =~= split_at_char(s@, c));
    loop
        invariant
            i <= s@.len(),
            texts(r@) + split_at_char(s@.skip(i as int), c) == split_at_char(s@, c),
        decreases s@.len() - i,
    {
        let n: usize = find_char(s, i, c);
        let ghost t = s@.skip(i as int);
        let ghost before = r@;
        let piece = slice_subrange(s, i, n);
        r.push(piece);
        proof {
            assert(t.take(n - i) =~= piece@);
            assert(texts(r@) =~= texts(before).push(piece@));
        }
        if n >= s.len() {
            assert(t =~= piece@);
            assert(texts(r@) =~= texts(before) + seq![t]);
            return r;
        }
        proof {
            assert(t.skip(n - i + 1) =~= s@.skip(n + 1));
            assert(texts(r@) + split_at_char(s@.skip(n + 1), c) =~= texts(before) + (seq![piece@]
                + split_at_char(t.skip(n - i + 1), c)));
        }
        i = n + 1;
    }
}

/// The lines of a text: each ends at a line feed, or at a carriage return and a line feed; the
/// last one may end with the text.
pub open spec fn lines(s: Seq<char>) -> Seq<Seq<char>>
    decreases s.len(),
{
    if s.len() == 0 {
        Seq::empty()
    } else {
        let n = index_of_char(s, '\n');
        if n < 0 || n >= s.len() {
            seq![s]
        } else {
            seq![line_before(s.take(n))] + lines(s.skip(n + 1))
        }
    }
}

/// A line up to its line feed, without the carriage return in front of that.
pub open spec fn line_before(s: Seq<char>) -> Seq<char> {
    if s.len() > 0 && s.last() == '\r' {
        s.drop_last()
    } else {
        s
    }
}

/// The lines of a text.
pub fn split_lines<'a>(s: &'a [char]) -> (r: Vec<&'a [char]>)
    ensures
        texts(r@) == lines(s@),
{
    let mut r: Vec<&'a [char]> = Vec::new();
    let mut i: usize = 0;
    assert(s@.skip(0) =~= s@);
    assert(texts(r@) + lines(s@) =~= lines(s@));
    while i < s.len()
        invariant
            i <= s@.len(),
            texts(r@) + lines(s@.skip(i as int)) == lines(s@),
        decreases s@.len() - i,
    {
        let n: usize = find_char(s, i, '\n');
        let ghost t = s@.skip(i as int);
        let ghost before = r@;
        if n >= s.len() {
            let line = slice_subrange(s, i, n);
            r.push(line);
            proof {
                assert(line@ =~= t);
                assert(texts(r@) =~= texts(before) + seq![t]);
            }
            return r;
        }
        let end: usize = if n > i && s[n - 1] == '\r' {
            n - 1
        } else {
            n
        };
        let line = slice_subrange(s, i, end);
        r.push(line);
        proof {
            assert(line@ =~= line_before(t.take(n - i)));
            assert(texts(r@) =~= texts(before).push(line@));
            assert(t.skip(n - i + 1) =~= s@.skip(n + 1));
            assert(texts(r@) + lines(s@.skip(n + 1)) =~= texts(before) + (seq![line@] + lines(
                t.skip(n - i + 1),
            )));
        }
        i = n + 1;
    }
    proof {
        assert(s@.skip(i as int) =~= Seq::<char>::empty());
        assert(texts(r@) + lines(s@.skip(i as int)) =~= texts(r@));
    }
    r
}

/// The text with every `a` replaced by `b`.
pub open spec fn replaced(s: Seq<char>, a: char, b: char) -> Seq<char> {
    s.map_values(
        |c: char|
            if c == a {
                b
            } else {
                c
            },
    )
}

/// The text with every `a` replaced by `b`.
pub fn replace_char(s: &[char], a: char, b: char) -> (r: String)
    ensures
        r@ == replaced(s@, a, b),
{
    let mut r = String::new();
    let mut i: usize = 0;
    while i < s.len()
        invariant
            i <= s@.len(),
            r@ == replaced(s@.take(i as int), a, b),
        decreases s@.len() - i,
    {
        r.push(
            if s[i] == a {
                b
            } else {
                s[i]
            },
        );
        i += 1;
        assert(r@ =~= replaced(s@.take(i as int), a, b));
    }
    assert(s@.take(i as int) =~= s@);
    r
}

/// Whether `c` is a decimal digit.
pub open spec fn is_digit(c: char) -> bool {
    '0' <= c <= '9'
}

/// The value of a decimal digit.
pub open spec fn digit_value(c: char) -> int {
    c as u32 - '0' as u32
}

pub open spec fn all_digits(s: Seq<char>) -> bool {
    forall|i: int| 0 <= i < s.len() ==> is_digit(#[trigger] s[i])
}

/// The number that a row of decimal digits stands for.
pub open spec fn digits_value(s: Seq<char>) -> int
    decreases s.len(),
{
    if s.len() == 0 {
        0
    } else {
        10 * digits_value(s.drop_last()) + digit_value(s.last())
    }
}

/// A whole number without sign, or with a plus, up to `max`.
pub open spec fn parsed_unsigned(s: Seq<char>, max: int) -> Option<int> {
    let d = if s.len() > 0 && s[0] == '+' {
        s.skip(1)
    } else {
        s
    };
    if d.len() > 0 && all_digits(d) && digits_value(d) <= max {
        Some(digits_value(d))
    } else {
        None
    }
}

/// A whole number with or without sign, from `min` to `max`.
pub open spec fn parsed_signed(s: Seq<char>, min: int, max: int) -> Option<int> {
    if s.len() > 0 && s[0] == '-' {
        let d = s.skip(1);
        if d.len() > 0 && all_digits(d) && -digits_value(d) >= min {
            Some(-digits_value(d))
        } else {
            None
        }
    } else {
        parsed_unsigned(s, max)
    }
}

proof fn lemma_digits_prefix(s: Seq<char>, n: int)
    requires
        all_digits(s),
        0 <= n <= s.len(),
    ensures
        0 <= digits_value(s.take(n)) <= digits_value(s),
    decreases s.len(),
{
    if n < s.len() {
        assert(s.drop_last().take(n) =~= s.take(n));
        assert(all_digits(s.drop_last())) by {
            assert forall|i: int| 0 <= i < s.drop_last().len() implies is_digit(
                #[trigger] s.drop_last()[i],
            ) by {
                assert(is_digit(s[i]));
            }
        }
        lemma_digits_prefix(s.drop_last(), n);
        assert(is_digit(s.last()));
    } else {
        assert(s.take(n) =~= s);
        if s.len() > 0 {
            assert(all_digits(s.drop_last())) by {
                assert forall|i: int| 0 <= i < s.drop_last().len() implies is_digit(
                    #[trigger] s.drop_last()[i],
                ) by {
                    assert(is_digit(s[i]));
                }
            }
            lemma_digits_prefix(s.drop_last(), s.len() - 1);
            assert(is_digit(s.last()));
        }
    }
}

/// The number behind a row of digits, if there is one and it does not exceed `max`.
fn parse_digits(s: &[char], max: u64) -> (r: Option<u64>)
    ensures
        match r {
            Some(v) => s@.len() > 0 && all_digits(s@) && digits_value(s@) == v && v <= max,
            None => !(s@.len() > 0 && all_digits(s@) && digits_value(s@) <= max),
        },
{
    if s.len() == 0 {
        return None;
    }
    let mut v: u64 = 0;
    let mut i: usize = 0;
    while i < s.len()
        invariant
            i <= s@.len(),
            v <= max,
            all_digits(s@.take(i as int)),
            v == digits_value(s@.take(i as int)),
        decreases s@.len() - i,
    {
        let c: char = s[i];
        if c < '0' || c > '9' {
            proof {
                assert(!is_digit(s@[i as int]));
            }
            return None;
        }
        let d: u64 = (c as u32 - '0' as u32) as u64;
        let ghost next = s@.take(i + 1);
        proof {
            assert(next.drop_last() =~= s@.take(i as int));
            assert forall|j: int| 0 <= j < next.len() implies is_digit(#[trigger] next[j]) by {
                if j < i {
                    assert(s@.take(i as int)[j] == next[j]);
                    assert(is_digit(s@.take(i as int)[j]));
                }
            }
            assert(digits_value(next) == 10 * v + d);
            if all_digits(s@) {
                lemma_digits_prefix(s@, i + 1);
            }
        }
        let w: u128 = 10 * v as u128 + d as u128;
        if w > max as u128 {
            return None;
        }
        v = w as u64;
        i += 1;
    }
    assert(s@.take(i as int) =~= s@);
    Some(v)
}

/// A whole number without sign, or with a plus, up to `max`.
fn parse_unsigned(s: &[char], max: u64) -> (r: Option<u64>)
    ensures
        match r {
            Some(v) => parsed_unsigned(s@, max as int) == Some(v as int),
            None => parsed_unsigned(s@, max as int) is None,
        },
{
    if s.len() > 0 && s[0] == '+' {
        let t = slice_subrange(s, 1, s.len());
        assert(t@ =~= s@.skip(1));
        parse_digits(t, max)
    } else {
        parse_digits(s, max)
    }
}

/// A `usize` in decimal.
pub fn parse_usize(s: &[char]) -> (r: Option<usize>)
    ensures
        match r {
            Some(v) => parsed_unsigned(s@, usize::MAX as int) == Some(v as int),
            None => parsed_unsigned(s@, usize::MAX as int) is None,
        },
{
    match parse_unsigned(s, usize::MAX as u64) {
        Some(v) => Some(v as usize),
        None => None,
    }
}

/// An `i64` in decimal.
pub fn parse_i64(s: &[char]) -> (r: Option<i64>)
    ensures
        match r {
            Some(v) => parsed_signed(s@, i64::MIN as int, i64::MAX as int) == Some(v as int),
            None => parsed_signed(s@, i64::MIN as int, i64::MAX as int) is None,
        },
{
    if s.len() > 0 && s[0] == '-' {
        let t = slice_subrange(s, 1, s.len());
        assert(t@ =~= s@.skip(1));
        match parse_digits(t, 0x8000_0000_0000_0000) {
            Some(v) => Some(
                if v == 0x8000_0000_0000_0000 {
                    i64::MIN
                } else {
                    -(v as i64)
                },
            ),
            None => None,
        }
    } else {
        match parse_unsigned(s, i64::MAX as u64) {
            Some(v) => Some(v as i64),
            None => None,
        }
    }
}

/// An `i32` in decimal.
pub fn parse_i32(s: &[char]) -> (r: Option<i32>)
    ensures
        match r {
            Some(v) => parsed_signed(s@, i32::MIN as int, i32::MAX as int) == Some(v as int),
            None => parsed_signed(s@, i32::MIN as int, i32::MAX as int) is None,
        },
{
    if s.len() > 0 && s[0] == '-' {
        let t = slice_subrange(s, 1, s.len());
        assert(t@ =~= s@.skip(1));
        match parse_digits(t, 0x8000_0000) {
            Some(v) => Some(
                if v == 0x8000_0000 {
                    i32::MIN
                } else {
                    -(v as i32)
                },
            ),
            None => None,
        }
    } else {
        match parse_unsigned(s, i32::MAX as u64) {
            Some(v) => Some(v as i32),
            None => None,
        }
    }
}

/// How many decimal digits the text starts with.
pub open spec fn digit_run(s: Seq<char>) -> nat
    decreases s.len(),
{
    if s.len() > 0 && is_digit(s[0]) {
        1 + digit_run(s.skip(1))
    } else {
        0
    }
}

/// The text without one sign in front.
pub open spec fn unsigned_part(s: Seq<char>) -> Seq<char> {
    if s.len() > 0 && (s[0] == '+' || s[0] == '-') {
        s.skip(1)
    } else {
        s
    }
}

/// An exponent, or nothing.
pub open spec fn is_exponent(s: Seq<char>) -> bool {
    s.len() == 0 || {
        let d = unsigned_part(s.skip(1));
        (s[0] == 'e' || s[0] == 'E') && d.len() > 0 && digit_run(d) == d.len()
    }
}

/// Digits with at most one point among them, and an exponent or none.
pub open spec fn is_decimal(s: Seq<char>) -> bool {
    let a = digit_run(s) as int;
    if a < s.len() && s[a] == '.' {
        let b = digit_run(s.skip(a + 1)) as int;
        a + b > 0 && is_exponent(s.skip(a + 1 + b))
    } else {
        a > 0 && is_exponent(s.skip(a))
    }
}

/// The grammar of floating-point numbers: a sign or none, and a decimal number, an infinity or a
/// NaN, whatever the case of the letters.
pub open spec fn is_float(s: Seq<char>) -> bool {
    let t = unsigned_part(s);
    let l = lowered(t);
    l == "inf"@ || l == "infinity"@ || l == "nan"@ || is_decimal(t)
}

pub proof fn lemma_digit_run(s: Seq<char>)
    ensures
        digit_run(s) <= s.len(),
    decreases s.len(),
{
    if s.len() > 0 && is_digit(s[0]) {
        lemma_digit_run(s.skip(1));
    }
}

fn count_digits(s: &[char], from: usize) -> (n: usize)
    requires
        from <= s@.len(),
    ensures
        n == digit_run(s@.skip(from as int)),
        from + n <= s@.len(),
{
    let mut i: usize = from;
    while i < s.len() && s[i] >= '0' && s[i] <= '9'
        invariant
            from <= i <= s@.len(),
            digit_run(s@.skip(from as int)) == i - from + digit_run(s@.skip(i as int)),
        decreases s@.len() - i,
    {
        assert(s@.skip(i as int).skip(1) =~= s@.skip(i + 1));
        i += 1;
    }
    i - from
}

fn exponent_at(s: &[char], from: usize) -> (r: bool)
    requires
        from <= s@.len(),
    ensures
        r == is_exponent(s@.skip(from as int)),
{
    let ghost e = s@.skip(from as int);
    if from == s.len() {
        return true;
    }
    if s[from] != 'e' && s[from] != 'E' {
        return false;
    }
    let mut i: usize = from + 1;
    assert(e.skip(1) =~= s@.skip(i as int));
    if i < s.len() && (s[i] == '+' || s[i] == '-') {
        assert(e.skip(1).skip(1) =~= s@.skip(i + 1));
        i += 1;
    }
    let n: usize = count_digits(s, i);
    n > 0 && i + n == s.len()
}

fn decimal(s: &[char]) -> (r: bool)
    ensures
        r == is_decimal(s@),
{
    assert(s@.skip(0) =~= s@);
    let a: usize = count_digits(s, 0);
    if a < s.len() && s[a] == '.' {
        let b: usize = count_digits(s, a + 1);
        (a > 0 || b > 0) && exponent_at(s, a + 1 + b)
    } else {
        a > 0 && exponent_at(s, a)
    }
}

/// Whether the text is a floating-point number.
pub fn float(s: &[char]) -> (r: bool)
    ensures
        r == is_float(s@),
{
    let signed: bool = s.len() > 0 && (s[0] == '+' || s[0] == '-');
    let t = if signed {
        slice_subrange(s, 1, s.len())
    } else {
        s
    };
    assert(t@ =~= unsigned_part(s@));
    let l = to_lower(t);
    is_word(&l, "inf") || is_word(&l, "infinity") || is_word(&l, "nan") || decimal(t)
}

} // verus!
