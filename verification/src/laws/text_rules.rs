//! Text: words, trimming, pieces, lines, and which words are numbers.

use crate::decimal::{decimal_text, lemma_decimal_text};
use crate::text::{
    all_digits, digit_run, digits_value, ends_with, index_of_char, is_decimal, is_digit,
    is_exponent, is_float, is_space, lemma_trim_start_len, lemma_word_len, lines, lower, lowered,
    parsed_signed, parsed_unsigned, replaced, split_at_char, starts_with, trim_end, trim_start,
    trimmed, unsigned_part, word_len, words,
};
use vstd::prelude::*;

verus! {

/// Whether a text is one word: it is not empty, and has no white space in it.
pub open spec fn solid(s: Seq<char>) -> bool {
    s.len() > 0 && forall|i: int| 0 <= i < s.len() ==> !is_space(#[trigger] s[i])
}

/// Whether a text has neither white space at its ends nor is empty.
pub open spec fn tight(s: Seq<char>) -> bool {
    s.len() > 0 && !is_space(s[0]) && !is_space(s.last())
}

/// A blank is white space.
pub proof fn blanks_are_space()
    ensures
        is_space(' ') && is_space('\t') && is_space('\n') && is_space('\r'),
        forall|c: char| '!' <= c <= '~' ==> !#[trigger] is_space(c),
{
}

/// A word reaches to the first white space.
pub proof fn words_end_at_space(a: Seq<char>, rest: Seq<char>)
    requires
        solid(a),
        rest.len() > 0 ==> is_space(rest[0]),
    ensures
        word_len(a + rest) == a.len(),
    decreases a.len(),
{
    let s = a + rest;
    assert(s[0] == a[0]);
    assert(!is_space(a[0]));
    let t = a.skip(1);
    assert(s.skip(1) =~= t + rest);
    if t.len() > 0 {
        assert(solid(t)) by {
            assert forall|i: int| 0 <= i < t.len() implies !is_space(#[trigger] t[i]) by {
                assert(!is_space(a[i + 1]));
            }
        }
        words_end_at_space(t, rest);
    } else {
        assert(t + rest =~= rest);
    }
}

/// A word, and white space behind it, is the first of the words; the others are those of the rest.
pub proof fn words_come_one_by_one(a: Seq<char>, rest: Seq<char>)
    requires
        solid(a),
        rest.len() > 0 ==> is_space(rest[0]),
    ensures
        words(a + rest) == seq![a] + words(rest),
{
    let s = a + rest;
    assert(!is_space(a[0]));
    assert(s[0] == a[0]);
    assert(trim_start(s) == s);
    words_end_at_space(a, rest);
    assert(s.take(a.len() as int) =~= a);
    assert(s.skip(a.len() as int) =~= rest);
}

/// White space before words does not matter.
pub proof fn space_before_words_is_skipped(c: char, s: Seq<char>)
    requires
        is_space(c),
    ensures
        words(seq![c] + s) == words(s),
{
    let t = seq![c] + s;
    assert(t.skip(1) =~= s);
    assert(trim_start(t) == trim_start(s));
    lemma_trim_start_len(s);
    lemma_word_len(trim_start(s));
}

/// A word has itself as its only word.
pub proof fn a_word_is_its_only_word(a: Seq<char>)
    requires
        solid(a),
    ensures
        words(a) == seq![a],
{
    words_come_one_by_one(a, Seq::empty());
    assert(a + Seq::<char>::empty() =~= a);
    assert(words(Seq::<char>::empty()) =~= Seq::<Seq<char>>::empty());
    assert(seq![a] + words(Seq::<char>::empty()) =~= seq![a]);
}

/// Two words with a blank between them.
pub open spec fn two_words(a: Seq<char>, b: Seq<char>) -> Seq<char> {
    a + seq![' '] + b
}

/// Three words with blanks between them.
pub open spec fn three_words(a: Seq<char>, b: Seq<char>, c: Seq<char>) -> Seq<char> {
    a + seq![' '] + b + seq![' '] + c
}

/// Words with blanks between them are found again, in their order.
pub proof fn words_are_found_again(a: Seq<char>, b: Seq<char>, c: Seq<char>)
    requires
        solid(a),
        solid(b),
        solid(c),
    ensures
        words(two_words(a, b)) == seq![a, b],
        words(three_words(a, b, c)) == seq![a, b, c],
        tight(two_words(a, b)),
        tight(three_words(a, b, c)),
        tight(a),
{
    blanks_are_space();
    a_word_is_its_only_word(b);
    a_word_is_its_only_word(c);
    let tail = seq![' '] + c;
    assert(two_words(a, b) =~= a + (seq![' '] + b));
    words_come_one_by_one(a, seq![' '] + b);
    space_before_words_is_skipped(' ', b);
    assert(seq![a] + seq![b] =~= seq![a, b]);
    assert(three_words(a, b, c) =~= a + (seq![' '] + (b + tail)));
    words_come_one_by_one(a, seq![' '] + (b + tail));
    space_before_words_is_skipped(' ', b + tail);
    words_come_one_by_one(b, tail);
    space_before_words_is_skipped(' ', c);
    assert(seq![a] + (seq![b] + seq![c]) =~= seq![a, b, c]);
    assert(two_words(a, b)[0] == a[0] && two_words(a, b).last() == b.last());
    assert(three_words(a, b, c)[0] == a[0] && three_words(a, b, c).last() == c.last());
}

/// Trimming takes white space off both ends, all of it and nothing else.
pub proof fn trimming_takes_only_space(before: Seq<char>, s: Seq<char>, after: Seq<char>)
    requires
        forall|i: int| 0 <= i < before.len() ==> is_space(#[trigger] before[i]),
        forall|i: int| 0 <= i < after.len() ==> is_space(#[trigger] after[i]),
        s.len() == 0 || tight(s),
    ensures
        trimmed(before + s + after) == s,
    decreases before.len(),
{
    let t = before + s + after;
    if before.len() > 0 {
        assert(is_space(before[0]));
        assert(t[0] == before[0]);
        let b = before.skip(1);
        assert forall|i: int| 0 <= i < b.len() implies is_space(#[trigger] b[i]) by {
            assert(is_space(before[i + 1]));
        }
        assert(t.skip(1) =~= b + s + after);
        trimming_takes_only_space(b, s, after);
    } else {
        assert(t =~= s + after);
        if s.len() > 0 {
            assert(t[0] == s[0]);
            assert(trim_start(t) == t);
            lemma_trim_end(s, after);
        } else {
            assert(t =~= after);
            lemma_all_space(after);
        }
    }
}

proof fn lemma_trim_end(s: Seq<char>, after: Seq<char>)
    requires
        tight(s),
        forall|i: int| 0 <= i < after.len() ==> is_space(#[trigger] after[i]),
    ensures
        trim_end(s + after) == s,
    decreases after.len(),
{
    let t = s + after;
    if after.len() > 0 {
        assert(is_space(after[after.len() - 1]));
        assert(t.last() == after.last());
        assert(t.drop_last() =~= s + after.drop_last());
        assert forall|i: int| 0 <= i < after.drop_last().len() implies is_space(
            #[trigger] after.drop_last()[i],
        ) by {
            assert(is_space(after[i]));
        }
        lemma_trim_end(s, after.drop_last());
    } else {
        assert(t =~= s);
    }
}

proof fn lemma_all_space(s: Seq<char>)
    requires
        forall|i: int| 0 <= i < s.len() ==> is_space(#[trigger] s[i]),
    ensures
        trim_start(s) == Seq::<char>::empty(),
        trimmed(s) == Seq::<char>::empty(),
    decreases s.len(),
{
    if s.len() > 0 {
        assert(is_space(s[0]));
        assert forall|i: int| 0 <= i < s.skip(1).len() implies is_space(#[trigger] s.skip(1)[i]) by {
            assert(is_space(s[i + 1]));
        }
        lemma_all_space(s.skip(1));
    } else {
        assert(s =~= Seq::<char>::empty());
    }
}

/// A text without white space at its ends is left as it is.
pub proof fn tight_text_is_left_alone(s: Seq<char>)
    requires
        tight(s),
    ensures
        trimmed(s) == s,
{
    let none = Seq::<char>::empty();
    trimming_takes_only_space(none, s, none);
    assert(none + s + none =~= s);
}

/// A character stands where it first stands, and behind the end where it does not stand at all.
pub proof fn characters_are_found_where_they_first_stand(a: Seq<char>, c: char, rest: Seq<char>)
    requires
        !a.contains(c),
        rest.len() > 0 ==> rest[0] == c,
    ensures
        index_of_char(a + rest, c) == a.len(),
    decreases a.len(),
{
    let s = a + rest;
    if a.len() > 0 {
        assert(a.contains(a[0]));
        assert(s[0] == a[0]);
        assert(s.skip(1) =~= a.skip(1) + rest);
        assert(!a.skip(1).contains(c)) by {
            if a.skip(1).contains(c) {
                let i = choose|i: int| 0 <= i < a.skip(1).len() && a.skip(1)[i] == c;
                assert(a[i + 1] == c);
            }
        }
        characters_are_found_where_they_first_stand(a.skip(1), c, rest);
    } else {
        assert(s =~= rest);
    }
}

/// A text is split at every occurrence of a character: what stands before the first is the first
/// piece, and a text without it is one piece.
pub proof fn pieces_come_one_by_one(a: Seq<char>, c: char, rest: Seq<char>)
    requires
        !a.contains(c),
    ensures
        split_at_char(a, c) == seq![a],
        split_at_char(a + seq![c] + rest, c) == seq![a] + split_at_char(rest, c),
{
    characters_are_found_where_they_first_stand(a, c, Seq::empty());
    assert(a + Seq::<char>::empty() =~= a);
    characters_are_found_where_they_first_stand(a, c, seq![c] + rest);
    let s = a + seq![c] + rest;
    assert(s =~= a + (seq![c] + rest));
    assert(s.take(a.len() as int) =~= a);
    assert(s.skip(a.len() as int + 1) =~= rest);
}

/// A text is read line by line; a carriage return at the end of a line belongs to the line break.
pub proof fn lines_come_one_by_one(a: Seq<char>, rest: Seq<char>)
    requires
        !a.contains('\n'),
        a.len() > 0 ==> a.last() != '\r',
    ensures
        lines(a + seq!['\n'] + rest) == seq![a] + lines(rest),
        lines(a + seq!['\r', '\n'] + rest) == seq![a] + lines(rest),
        a.len() > 0 ==> lines(a) == seq![a],
{
    let s = a + seq!['\n'] + rest;
    characters_are_found_where_they_first_stand(a, '\n', seq!['\n'] + rest);
    assert(s =~= a + (seq!['\n'] + rest));
    assert(s.take(a.len() as int) =~= a);
    assert(s.skip(a.len() as int + 1) =~= rest);
    let b = a.push('\r');
    let t = a + seq!['\r', '\n'] + rest;
    assert(!b.contains('\n')) by {
        if b.contains('\n') {
            let i = choose|i: int| 0 <= i < b.len() && b[i] == '\n';
            assert(a[i] == '\n');
        }
    }
    characters_are_found_where_they_first_stand(b, '\n', seq!['\n'] + rest);
    assert(t =~= b + (seq!['\n'] + rest));
    assert(t.take(b.len() as int) =~= b);
    assert(t.skip(b.len() as int + 1) =~= rest);
    assert(b.drop_last() =~= a);
    if a.len() > 0 {
        characters_are_found_where_they_first_stand(a, '\n', Seq::empty());
        assert(a + Seq::<char>::empty() =~= a);
    }
}

proof fn lemma_digit_run(d: Seq<char>, rest: Seq<char>)
    requires
        all_digits(d),
        rest.len() > 0 ==> !is_digit(rest[0]),
    ensures
        digit_run(d + rest) == d.len(),
    decreases d.len(),
{
    let s = d + rest;
    if d.len() > 0 {
        assert(is_digit(d[0]));
        assert(s.skip(1) =~= d.skip(1) + rest);
        assert(all_digits(d.skip(1))) by {
            assert forall|i: int| 0 <= i < d.skip(1).len() implies is_digit(#[trigger] d.skip(1)[i]) by {
                assert(is_digit(d[i + 1]));
            }
        }
        lemma_digit_run(d.skip(1), rest);
    } else {
        assert(s =~= rest);
    }
}

/// Digits are a number, with a sign before them, with a point and more digits behind them, and
/// with an exponent behind those.
pub proof fn digits_are_numbers(a: Seq<char>, b: Seq<char>, e: Seq<char>)
    requires
        a.len() > 0 && all_digits(a),
        b.len() > 0 && all_digits(b),
        e.len() > 0 && all_digits(e),
    ensures
        is_float(a),
        is_float(a + seq!['.'] + b),
        is_float(seq!['-'] + a),
        is_float(seq!['-'] + (a + seq!['.'] + b)),
        is_float(a + seq!['e'] + e),
        is_float(a + seq!['e', '-'] + e),
{
    let none = Seq::<char>::empty();
    assert(is_digit(a[0]) && is_digit(e[0]));
    assert(a + none =~= a);
    lemma_digit_run(a, none);
    assert(a.skip(a.len() as int) =~= none);
    assert(is_decimal(a));
    let n = a.len() as int;
    let f = a + seq!['.'] + b;
    assert(f =~= a + (seq!['.'] + b));
    lemma_digit_run(a, seq!['.'] + b);
    assert(f.skip(n + 1) =~= b);
    assert(b + none =~= b);
    lemma_digit_run(b, none);
    assert(f.skip(n + 1 + b.len()) =~= none);
    assert(f[n] == '.');
    assert(is_decimal(f));
    assert((seq!['-'] + a).skip(1) =~= a);
    assert((seq!['-'] + f).skip(1) =~= f);
    assert(e + none =~= e);
    lemma_digit_run(e, none);
    let g = a + seq!['e'] + e;
    assert(g =~= a + (seq!['e'] + e));
    lemma_digit_run(a, seq!['e'] + e);
    assert(g.skip(n) =~= seq!['e'] + e);
    assert((seq!['e'] + e).skip(1) =~= e);
    assert(g[n] == 'e');
    assert(is_decimal(g));
    let h = a + seq!['e', '-'] + e;
    let x = seq!['e', '-'] + e;
    assert(h =~= a + x);
    lemma_digit_run(a, x);
    assert(h.skip(n) =~= x);
    assert(x.skip(1) =~= seq!['-'] + e);
    assert((seq!['-'] + e).skip(1) =~= e);
    assert(h[n] == 'e');
    assert(is_exponent(x));
    assert(is_decimal(h));
}

/// Numbers in decimal digits are read as what they say, with a minus before them as less than
/// nothing.
pub proof fn decimals_are_read(n: nat, min: int, max: int)
    requires
        min <= -n,
        n <= max,
    ensures
        parsed_unsigned(decimal_text(n), max) == Some(n as int),
        parsed_signed(decimal_text(n), min, max) == Some(n as int),
        parsed_signed(seq!['-'] + decimal_text(n), min, max) == Some(-(n as int)),
        solid(decimal_text(n)),
        solid(seq!['-'] + decimal_text(n)),
        !decimal_text(n).contains('/') && !(seq!['-'] + decimal_text(n)).contains('/'),
{
    let d = decimal_text(n);
    lemma_decimal_text(n);
    blanks_are_space();
    assert(is_digit(d[0]));
    assert((seq!['-'] + d).skip(1) =~= d);
    let m = seq!['-'] + d;
    assert forall|i: int| 0 <= i < d.len() implies !is_space(#[trigger] d[i]) && d[i] != '/' by {
        assert(is_digit(d[i]));
    }
    assert forall|i: int| 0 <= i < m.len() implies !is_space(#[trigger] m[i]) && m[i] != '/' by {
        if i > 0 {
            assert(is_digit(d[i - 1]));
        }
    }
}

/// Replacing one character by another changes only that one.
pub proof fn replacing_changes_one_character(s: Seq<char>, a: char, b: char, i: int)
    requires
        0 <= i < s.len(),
    ensures
        replaced(s, a, b).len() == s.len(),
        s[i] != a ==> replaced(s, a, b)[i] == s[i],
        s[i] == a ==> replaced(s, a, b)[i] == b,
{
}

/// The value of decimal digits.
pub proof fn digits_count_by_tens(s: Seq<char>, c: char)
    requires
        is_digit(c),
    ensures
        digits_value(s.push(c)) == 10 * digits_value(s) + (c as int - '0' as int),
        digits_value(Seq::<char>::empty()) == 0,
{
    assert(s.push(c).drop_last() =~= s);
}

/// Small letters stand for capital ones; all else stays.
pub proof fn capitals_become_small(s: Seq<char>, i: int)
    requires
        0 <= i < s.len(),
    ensures
        lowered(s).len() == s.len(),
        'A' <= s[i] <= 'Z' ==> lowered(s)[i] as int == s[i] as int + ('a' as int - 'A' as int),
        !('A' <= s[i] <= 'Z') ==> lowered(s)[i] == s[i],
{
}

/// A text starts with what was put in front of it and ends with what was put behind it.
pub proof fn texts_start_and_end_as_written(a: Seq<char>, b: Seq<char>)
    ensures
        starts_with(a + b, a),
        ends_with(a + b, b),
        forall|p: Seq<char>|
            #[trigger] starts_with(a, p) ==> p.len() <= a.len() && (forall|i: int|
                0 <= i < p.len() ==> a[i] == #[trigger] p[i]),
        forall|p: Seq<char>|
            #[trigger] ends_with(a, p) ==> p.len() <= a.len() && (forall|i: int|
                0 <= i < p.len() ==> a[a.len() - p.len() + i] == #[trigger] p[i]),
{
    assert((a + b).take(a.len() as int) =~= a);
    assert((a + b).skip(a.len() as int) =~= b);
    assert forall|p: Seq<char>| #[trigger] starts_with(a, p) implies p.len() <= a.len() && (forall|
        i: int,
    |
        0 <= i < p.len() ==> a[i] == #[trigger] p[i]) by {
        assert forall|i: int| 0 <= i < p.len() implies a[i] == #[trigger] p[i] by {
            assert(a.take(p.len() as int)[i] == p[i]);
        }
    }
    assert forall|p: Seq<char>| #[trigger] ends_with(a, p) implies p.len() <= a.len() && (forall|
        i: int,
    |
        0 <= i < p.len() ==> a[a.len() - p.len() + i] == #[trigger] p[i]) by {
        assert forall|i: int| 0 <= i < p.len() implies a[a.len() - p.len() + i] == #[trigger] p[i] by {
            assert(a.skip(a.len() - p.len())[i] == p[i]);
        }
    }
}

/// A number is written with something: nothing, a sign, a point or an exponent alone is none, and
/// neither is a word that starts with another letter.
pub proof fn words_are_no_numbers(s: Seq<char>)
    ensures
        !is_float(Seq::<char>::empty()),
        s.len() > 0 && is_float(s) ==> {
            let c = s[0];
            is_digit(c) || c == '+' || c == '-' || c == '.' || c == 'i' || c == 'I' || c == 'n' || c
                == 'N'
        },
        s.len() == 1 && is_float(s) ==> is_digit(s[0]),
{
    reveal_strlit("inf");
    reveal_strlit("infinity");
    reveal_strlit("nan");
    assert("inf"@.len() == 3 && "infinity"@.len() == 8 && "nan"@.len() == 3);
    assert("inf"@[0] == 'i' && "infinity"@[0] == 'i' && "nan"@[0] == 'n');
    let none = Seq::<char>::empty();
    assert(lowered(none).len() == 0);
    if s.len() > 0 {
        let t = unsigned_part(s);
        assert(lowered(t).len() == t.len());
        if t == s {
            assert(lowered(s)[0] == lower(s[0]));
            if !is_digit(s[0]) {
                assert(digit_run(s) == 0);
            }
        }
        if s.len() == 1 {
            if t != s {
                assert(t.len() == 0);
                assert(digit_run(t) == 0);
            } else if !is_digit(s[0]) {
                assert(digit_run(s) == 0);
                assert(s.skip(1).len() == 0);
                assert(digit_run(s.skip(1)) == 0);
            }
        }
    }
}

/// What holds anything but digits, or too large a number, is not read as a whole number.
pub proof fn other_texts_are_no_whole_numbers(s: Seq<char>, max: int, i: int)
    ensures
        parsed_unsigned(Seq::<char>::empty(), max) is None,
        s.len() > 0 && all_digits(s) && digits_value(s) > max ==> parsed_unsigned(s, max) is None,
        s.len() > 0 && all_digits(s) && digits_value(s) <= max ==> parsed_unsigned(s, max) == Some(
            digits_value(s),
        ),
        0 < i < s.len() && !is_digit(s[i]) ==> parsed_unsigned(s, max) is None,
        s.len() > 0 && !is_digit(s[0]) && s[0] != '+' ==> parsed_unsigned(s, max) is None,
{
    if s.len() > 0 && all_digits(s) {
        assert(is_digit(s[0]));
    }
    if 0 < i < s.len() && !is_digit(s[i]) {
        assert(s.skip(1)[i - 1] == s[i]);
    }
}

} // verus!
