//! What texts say: where one occurs in another, numbers, times, and what is cut off.

use vstd::prelude::*;

use crate::text;
use crate::tui;
use crate::util;

verus! {

broadcast use vstd::seq::group_seq_axioms;

/// A text occurs in another exactly where that is the text with something before and behind it.
pub proof fn lemma_occurs_between(part: Seq<char>, s: Seq<char>)
    ensures
        text::occurs(part, s) <==> exists|a: Seq<char>, b: Seq<char>| s == #[trigger] (a + part + b),
{
    if text::occurs(part, s) {
        let i = choose|i: int| 0 <= i && i + part.len() <= s.len() && #[trigger] s.subrange(i, i + part.len()) == part;
        let a = s.take(i);
        let b = s.skip(i + part.len());
        assert(s =~= a + part + b) by {
            assert forall|j: int| 0 <= j < s.len() implies s[j] == (a + part + b)[j] by {
                if i <= j < i + part.len() {
                    assert(s.subrange(i, i + part.len())[j - i] == s[j]);
                }
            }
        }
    }
    if exists|a: Seq<char>, b: Seq<char>| s == #[trigger] (a + part + b) {
        let (a, b) = choose|a: Seq<char>, b: Seq<char>| s == #[trigger] (a + part + b);
        let i = a.len() as int;
        assert(s.subrange(i, i + part.len()) =~= part);
    }
}

/// The number that a row of digits stands for.
pub open spec fn value_of(s: Seq<char>) -> int
    decreases s.len(),
{
    if s.len() == 0 {
        0
    } else {
        value_of(s.drop_last()) * 10 + (s.last() as int - '0' as int)
    }
}

/// A number that is written can be read again: its text has digits only, stands for the number, and begins
/// with a zero only where it is zero.
pub proof fn lemma_numbers_read_back(n: nat)
    ensures
        value_of(text::decimal_text(n)) == n,
        text::decimal_text(n).len() > 0,
        forall|i: int| 0 <= i < text::decimal_text(n).len() ==> '0' <= #[trigger] text::decimal_text(n)[i] <= '9',
        n > 0 ==> text::decimal_text(n)[0] != '0',
        n == 0 ==> text::decimal_text(n) == seq!['0'],
    decreases n,
{
    let s = text::decimal_text(n);
    if n < 10 {
        assert(s.drop_last() =~= Seq::<char>::empty());
        assert(value_of(s.drop_last()) == 0);
        assert(s.last() == text::digit_char(n as int));
    } else {
        lemma_numbers_read_back(n / 10);
        assert(s.drop_last() =~= text::decimal_text(n / 10));
        assert(s.last() == text::digit_char((n % 10) as int));
    }
}

/// The time of day: hours, minutes and seconds with two digits each, whatever the day is.
pub proof fn lemma_the_time_of_day(days: int, h: int, m: int, s: int, unix_secs: u64)
    requires
        days >= 0,
        0 <= h < 24,
        0 <= m < 60,
        0 <= s < 60,
        unix_secs == days * 86_400 + h * 3600 + m * 60 + s,
    ensures
        tui::clock_text(unix_secs).len() == 8,
        value_of(tui::clock_text(unix_secs).subrange(0, 2)) == h,
        tui::clock_text(unix_secs)[2] == ':',
        value_of(tui::clock_text(unix_secs).subrange(3, 5)) == m,
        tui::clock_text(unix_secs)[5] == ':',
        value_of(tui::clock_text(unix_secs).subrange(6, 8)) == s,
{
    let t = tui::clock_text(unix_secs);
    lemma_clock_hands(days, h, m, s, unix_secs as int);
    lemma_two_digits(h);
    lemma_two_digits(m);
    lemma_two_digits(s);
    assert(t.subrange(0, 2) =~= tui::two_digits(h));
    assert(t.subrange(3, 5) =~= tui::two_digits(m));
    assert(t.subrange(6, 8) =~= tui::two_digits(s));
}

proof fn lemma_clock_hands(days: int, h: int, m: int, s: int, u: int)
    requires
        days >= 0,
        0 <= h < 24,
        0 <= m < 60,
        0 <= s < 60,
        u == days * 86_400 + h * 3600 + m * 60 + s,
    ensures
        (u / 3600) % 24 == h,
        (u / 60) % 60 == m,
        u % 60 == s,
{
    let hours = days * 24 + h;
    assert(u == hours * 3600 + (m * 60 + s));
    assert(u / 3600 == hours);
    assert(hours % 24 == h);
    let minutes = hours * 60 + m;
    assert(u == minutes * 60 + s);
    assert(u / 60 == minutes);
    assert(minutes % 60 == m);
}

proof fn lemma_two_digits(n: int)
    requires
        0 <= n < 100,
    ensures
        value_of(tui::two_digits(n)) == n,
{
    let s = tui::two_digits(n);
    let first = s.drop_last();
    assert(first =~= seq![text::digit_char(n / 10)]);
    assert(first.drop_last() =~= Seq::<char>::empty());
    assert(value_of(first.drop_last()) == 0);
    assert(value_of(first) == n / 10);
    assert(s.last() == text::digit_char(n % 10));
}

/// Trimming takes off white space at both ends, all of it, and nothing else.
pub proof fn lemma_trimming(s: Seq<char>) -> (r: (Seq<char>, Seq<char>))
    ensures
        s == r.0 + text::trimmed(s) + r.1,
        forall|i: int| 0 <= i < r.0.len() ==> text::is_white(#[trigger] r.0[i]),
        forall|i: int| 0 <= i < r.1.len() ==> text::is_white(#[trigger] r.1[i]),
        text::trimmed(s).len() > 0 ==> !text::is_white(text::trimmed(s)[0]) && !text::is_white(text::trimmed(s).last()),
{
    lemma_white_at_start(s);
    let n = text::white_at_start(s);
    let rest = s.skip(n);
    lemma_trim_end(rest);
    let t = text::trim_end(rest);
    let a = s.take(n);
    let b = rest.skip(t.len() as int);
    assert(s =~= a + t + b);
    assert forall|i: int| 0 <= i < b.len() implies text::is_white(#[trigger] b[i]) by {
        assert(b[i] == rest[t.len() + i]);
    }
    if t.len() > 0 {
        assert(t[0] == rest[0]);
        assert(rest[0] == s[n]);
    }
    (a, b)
}

proof fn lemma_white_at_start(s: Seq<char>)
    ensures
        0 <= text::white_at_start(s) <= s.len(),
        forall|i: int| 0 <= i < text::white_at_start(s) ==> text::is_white(#[trigger] s[i]),
        text::white_at_start(s) < s.len() ==> !text::is_white(s[text::white_at_start(s)]),
    decreases s.len(),
{
    if s.len() > 0 && text::is_white(s[0]) {
        let rest = s.drop_first();
        lemma_white_at_start(rest);
        assert forall|i: int| 0 <= i < text::white_at_start(s) implies text::is_white(#[trigger] s[i]) by {
            if i > 0 {
                assert(rest[i - 1] == s[i]);
            }
        }
        let n = text::white_at_start(rest);
        if n < rest.len() {
            assert(rest[n] == s[n + 1]);
        }
    }
}

proof fn lemma_trim_end(s: Seq<char>)
    ensures
        text::trim_end(s).len() <= s.len(),
        text::trim_end(s) == s.take(text::trim_end(s).len() as int),
        forall|i: int| text::trim_end(s).len() <= i < s.len() ==> text::is_white(#[trigger] s[i]),
        text::trim_end(s).len() > 0 ==> !text::is_white(text::trim_end(s).last()),
    decreases s.len(),
{
    if s.len() > 0 && text::is_white(s.last()) {
        let rest = s.drop_last();
        lemma_trim_end(rest);
        let n = text::trim_end(s).len() as int;
        assert(rest.take(n) =~= s.take(n));
        assert forall|i: int| n <= i < s.len() implies text::is_white(#[trigger] s[i]) by {
            if i < rest.len() {
                assert(rest[i] == s[i]);
            }
        }
    } else {
        assert(s.take(s.len() as int) =~= s);
    }
}

/// Among the characters of ASCII, white space is the blank, and tab, line feed, vertical tab, form feed and
/// carriage return.
pub proof fn lemma_white_space(c: char)
    requires
        (c as int) < 128,
    ensures
        text::is_white(c) <==> c == ' ' || (9 <= c as int && c as int <= 13),
{
}

/// A text that is cut at its end keeps its beginning, and shows that something is missing; one that fits is
/// left alone.
pub proof fn lemma_cut_at_the_end(s: Seq<char>, max: int)
    requires
        max >= 3,
    ensures
        s.len() <= max ==> util::cut_end(s, max) == s,
        s.len() > max ==> {
            let r = util::cut_end(s, max);
            &&& r.len() == max
            &&& r.take(max - 3) == s.take(max - 3)
            &&& r.skip(max - 3) == seq!['.', '.', '.']
        },
{
    reveal_strlit("...");
    if s.len() > max {
        let r = util::cut_end(s, max);
        assert(r.take(max - 3) =~= s.take(max - 3));
        assert(r.skip(max - 3) =~= seq!['.', '.', '.']);
    }
}

/// A text that is cut at its start keeps its end, and shows that something is missing; one that fits is left
/// alone.
pub proof fn lemma_cut_at_the_start(s: Seq<char>, max: int)
    requires
        max >= 3,
    ensures
        s.len() <= max ==> util::cut_start(s, max) == s,
        s.len() > max ==> {
            let r = util::cut_start(s, max);
            &&& r.len() == max
            &&& r.take(3) == seq!['.', '.', '.']
            &&& r.skip(3) == s.skip(s.len() - (max - 3))
        },
{
    reveal_strlit("...");
    if s.len() > max {
        let r = util::cut_start(s, max);
        assert(r.take(3) =~= seq!['.', '.', '.']);
        assert(r.skip(3) =~= s.skip(s.len() - (max - 3)));
    }
}

/// Where there is no room for three dots, as much of the text stays as fits: its beginning, or its end.
pub proof fn lemma_cut_very_short(s: Seq<char>, max: int)
    requires
        0 <= max < 3,
        s.len() > max,
    ensures
        util::cut_end(s, max) == s.take(max),
        util::cut_start(s, max) == s.skip(s.len() - max),
{
}

/// Names are ordered by the first character in which they differ.
pub proof fn lemma_the_first_different_character_decides(a: Seq<char>, b: Seq<char>, k: int)
    requires
        0 <= k < a.len(),
        k < b.len(),
        forall|i: int| 0 <= i < k ==> a[i] == b[i],
        a[k] != b[k],
    ensures
        text::lex_lt(a, b) <==> a[k] < b[k],
    decreases k,
{
    if k > 0 {
        assert(a[0] == b[0]);
        lemma_the_first_different_character_decides(a.drop_first(), b.drop_first(), k - 1);
    }
}

/// A name comes before every longer one that begins with it.
pub proof fn lemma_the_shorter_name_comes_first(a: Seq<char>, b: Seq<char>)
    requires
        a.len() < b.len(),
        forall|i: int| 0 <= i < a.len() ==> a[i] == b[i],
    ensures
        text::lex_lt(a, b),
        !text::lex_lt(b, a),
    decreases a.len(),
{
    if a.len() > 0 {
        assert(a[0] == b[0]);
        lemma_the_shorter_name_comes_first(a.drop_first(), b.drop_first());
    }
}

} // verus!
