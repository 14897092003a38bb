use vstd::prelude::*;
use crate::text::string_of;
use vstd::arithmetic::div_mod::{lemma_fundamental_div_mod, lemma_fundamental_div_mod_converse, lemma_mod_mod};
use crate::reference::{all_digits, digits_value};

verus! {

/// Number of seconds in one day.
pub const SECS_PER_DAY: u64 = 86400;

/// Number of seconds in one hour.
pub const SECS_PER_HOUR: u64 = 3600;

/// Number of seconds in one minute.
pub const SECS_PER_MINUTE: u64 = 60;

/// The character for the decimal digit `d` (`d < 10`).
pub open spec fn digit_char(d: nat) -> char {
    ((d + 48) as u8) as char
}

/// The decimal notation of `n`, without leading zeros.
pub open spec fn decimal(n: nat) -> Seq<char>
    decreases n,
{
    if n < 10 {
        seq![digit_char(n)]
    } else {
        decimal(n / 10).push(digit_char(n % 10))
    }
}

/// The word for `v` units of `unit` ("5m"), or no word at all when `v` is zero.
pub open spec fn unit_word(v: nat, unit: char) -> Seq<Seq<char>> {
    if v > 0 {
        seq![decimal(v).push(unit)]
    } else {
        seq![]
    }
}

/// The words joined by single spaces.
pub open spec fn join_words(w: Seq<Seq<char>>) -> Seq<char>
    decreases w.len(),
{
    if w.len() == 0 {
        seq![]
    } else if w.len() == 1 {
        w[0]
    } else {
        join_words(w.drop_last()) + seq![' '] + w.last()
    }
}

/// The non-zero day, hour, minute and second words of a duration of `secs` seconds,
/// largest unit first; none for a duration that is zero or negative.
pub open spec fn duration_words(secs: int) -> Seq<Seq<char>> {
    if secs <= 0 {
        seq![]
    } else {
        unit_word((secs / 86400) as nat, 'd') + unit_word((secs % 86400 / 3600) as nat, 'h')
            + unit_word((secs % 3600 / 60) as nat, 'm') + unit_word((secs % 60) as nat, 's')
    }
}

/// The text of a duration of `secs` seconds, such as "1d 2h 5s".
pub open spec fn duration_text(secs: int) -> Seq<char> {
    join_words(duration_words(secs))
}

/// Appends the decimal notation of `n`.
fn push_decimal(out: &mut Vec<char>, n: u64)
    ensures
        final(out)@ == old(out)@ + decimal(n as nat),
    decreases n,
{
    if n >= 10 {
        push_decimal(out, n / 10);
    }
    let d: u8 = (n % 10) as u8;
    out.push((d + 48) as char);
    assert(out@ =~= old(out)@ + decimal(n as nat));
}

/// Appends the word for `v` units of `unit` to the words already in `out`.
fn push_unit(out: &mut Vec<char>, v: u64, unit: char, Ghost(words): Ghost<Seq<Seq<char>>>)
    requires
        old(out)@ == join_words(words),
        forall|i: int| 0 <= i < words.len() ==> (#[trigger] words[i]).len() > 0,
    ensures
        final(out)@ == join_words(words + unit_word(v as nat, unit)),
{
    let ghost w2 = words + unit_word(v as nat, unit);
    if v > 0 {
        proof {
            assert(w2.drop_last() =~= words);
            if words.len() > 0 {
                lemma_join_nonempty(words);
            }
        }
        if out.len() > 0 {
            out.push(' ');
        }
        push_decimal(out, v);
        out.push(unit);
        assert(out@ =~= join_words(w2));
    } else {
        assert(w2 =~= words);
    }
}

/// Every word of a duration's text holds at least one character.
proof fn lemma_words_nonempty(secs: int)
    ensures
        forall|i: int| 0 <= i < duration_words(secs).len() ==> (#[trigger] duration_words(secs)[i]).len() > 0,
{
    let d = secs / 86400;
    let h = secs % 86400 / 3600;
    let m = secs % 3600 / 60;
    let s = secs % 60;
    if secs > 0 {
        lemma_decimal_nonempty(d as nat);
        lemma_decimal_nonempty(h as nat);
        lemma_decimal_nonempty(m as nat);
        lemma_decimal_nonempty(s as nat);
    }
}

proof fn lemma_decimal_nonempty(n: nat)
    ensures
        decimal(n).len() > 0,
    decreases n,
{
    if n >= 10 {
        lemma_decimal_nonempty(n / 10);
    }
}

/// Joining words that are not all empty gives a non-empty text.
proof fn lemma_join_nonempty(w: Seq<Seq<char>>)
    requires
        w.len() > 0,
        forall|i: int| 0 <= i < w.len() ==> (#[trigger] w[i]).len() > 0,
    ensures
        join_words(w).len() > 0,
    decreases w.len(),
{
    if w.len() > 1 {
        lemma_join_nonempty(w.drop_last());
    }
}

/// The characters of a duration of `seconds` seconds as "Xd Xh Xm Xs".
pub fn duration_chars(seconds: u64) -> (r: Vec<char>)
    ensures
        r@ == duration_text(seconds as int),
{
    let mut out: Vec<char> = Vec::new();
    if seconds > 0 {
        let ghost s = seconds as int;
        let ghost mut words: Seq<Seq<char>> = seq![];
        proof {
            lemma_words_nonempty(s);
        }
        push_unit(&mut out, seconds / SECS_PER_DAY, 'd', Ghost(words));
        proof { words = words + unit_word((s / 86400) as nat, 'd'); }
        push_unit(&mut out, seconds % SECS_PER_DAY / SECS_PER_HOUR, 'h', Ghost(words));
        proof { words = words + unit_word((s % 86400 / 3600) as nat, 'h'); }
        push_unit(&mut out, seconds % SECS_PER_HOUR / SECS_PER_MINUTE, 'm', Ghost(words));
        proof { words = words + unit_word((s % 3600 / 60) as nat, 'm'); }
        push_unit(&mut out, seconds % SECS_PER_MINUTE, 's', Ghost(words));
        proof { words = words + unit_word((s % 60) as nat, 's'); }
        assert(words =~= duration_words(s));
    }
    out
}

/// Renders a duration of `seconds` seconds as "Xd Xh Xm Xs", leaving out the units
/// that are zero; a zero duration gives an empty text.
pub fn format_duration(seconds: u64) -> (r: String)
    ensures
        r@ == duration_text(seconds as int),
{
    let out = duration_chars(seconds);
    string_of(&out)
}

/// A duration built from `days` days, `hours` hours, `minutes` minutes and `seconds` seconds
/// reads as exactly the non-zero ones of those four parts, largest unit first and separated
/// by single spaces; a zero duration reads as the empty text.
pub proof fn lemma_format_components(days: int, hours: int, minutes: int, seconds: int)
    requires
        days >= 0,
        0 <= hours < 24,
        0 <= minutes < 60,
        0 <= seconds < 60,
    ensures
        duration_text(days * 86400 + hours * 3600 + minutes * 60 + seconds) == join_words(
            unit_word(days as nat, 'd') + unit_word(hours as nat, 'h') + unit_word(
                minutes as nat,
                'm',
            ) + unit_word(seconds as nat, 's'),
        ),
        duration_text(0) == Seq::<char>::empty(),
{
    let t = days * 86400 + hours * 3600 + minutes * 60 + seconds;
    let w = unit_word(days as nat, 'd') + unit_word(hours as nat, 'h') + unit_word(
        minutes as nat,
        'm',
    ) + unit_word(seconds as nat, 's');
    let r = hours * 3600 + minutes * 60 + seconds;
    assert(0 <= r < 86400) by (nonlinear_arith)
        requires
            r == hours * 3600 + minutes * 60 + seconds,
            0 <= hours < 24,
            0 <= minutes < 60,
            0 <= seconds < 60,
    ;
    assert(days * 86400 >= 0) by (nonlinear_arith)
        requires
            days >= 0,
    ;
    if t == 0 {
        assert(w =~= Seq::<Seq<char>>::empty());
    } else {
        lemma_fundamental_div_mod_converse(t, 86400, days, r);
        assert(t == (days * 24 + hours) * 3600 + (minutes * 60 + seconds)) by (nonlinear_arith)
            requires
                t == days * 86400 + hours * 3600 + minutes * 60 + seconds,
        ;
        lemma_fundamental_div_mod_converse(t, 3600, days * 24 + hours, minutes * 60 + seconds);
        lemma_fundamental_div_mod_converse(r, 3600, hours, minutes * 60 + seconds);
        lemma_fundamental_div_mod_converse(minutes * 60 + seconds, 60, minutes, seconds);
        assert(t == (days * 1440 + hours * 60 + minutes) * 60 + seconds) by (nonlinear_arith)
            requires
                t == days * 86400 + hours * 3600 + minutes * 60 + seconds,
        ;
        lemma_fundamental_div_mod_converse(t, 60, days * 1440 + hours * 60 + minutes, seconds);
        assert(duration_words(t) =~= w);
    }
}

proof fn lemma_digit_not_space(d: nat)
    requires
        d < 10,
    ensures
        digit_char(d) != ' ',
{
}

proof fn lemma_decimal_first(n: nat)
    ensures
        decimal(n).len() > 0,
        decimal(n)[0] != ' ',
    decreases n,
{
    if n >= 10 {
        lemma_decimal_first(n / 10);
    } else {
        lemma_digit_not_space(n);
    }
}

proof fn lemma_join_ends(w: Seq<Seq<char>>)
    requires
        w.len() > 0,
        forall|i: int| 0 <= i < w.len() ==> (#[trigger] w[i]).len() > 0,
    ensures
        join_words(w).len() > 0,
        join_words(w)[0] == w[0][0],
        join_words(w).last() == w.last().last(),
    decreases w.len(),
{
    if w.len() > 1 {
        lemma_join_ends(w.drop_last());
    }
}

/// The text of a duration neither starts nor ends with a space.
pub proof fn lemma_text_trimmed(secs: int)
    ensures
        duration_text(secs).len() > 0 ==> duration_text(secs)[0] != ' ' && duration_text(
            secs,
        ).last() != ' ',
{
    let w = duration_words(secs);
    lemma_words_nonempty(secs);
    if w.len() > 0 {
        lemma_join_ends(w);
        lemma_decimal_first((secs / 86400) as nat);
        lemma_decimal_first((secs % 86400 / 3600) as nat);
        lemma_decimal_first((secs % 3600 / 60) as nat);
        lemma_decimal_first((secs % 60) as nat);
        assert(w[0][0] != ' ');
        assert(w.last().last() != ' ');
    }
}


/// The number of seconds in one `unit`: a day, an hour, a minute or a second.
pub open spec fn unit_seconds(unit: char) -> int {
    if unit == 'd' {
        86400
    } else if unit == 'h' {
        3600
    } else if unit == 'm' {
        60
    } else if unit == 's' {
        1
    } else {
        0
    }
}

/// The number of seconds a word such as "30m" stands for.
pub open spec fn word_seconds(w: Seq<char>) -> int {
    digits_value(w.drop_last()) * unit_seconds(w.last())
}

/// The number of seconds the words stand for together.
pub open spec fn words_seconds(ws: Seq<Seq<char>>) -> int
    decreases ws.len(),
{
    if ws.len() == 0 {
        0
    } else {
        words_seconds(ws.drop_last()) + word_seconds(ws.last())
    }
}

/// Reading the decimal notation of `n` gives `n` back; it is made of digits only.
pub proof fn lemma_decimal_digits(n: nat)
    ensures
        digits_value(decimal(n)) == n,
        all_digits(decimal(n)),
    decreases n,
{
    lemma_decimal_nonempty(n);
    lemma_digit_char(n % 10);
    if n >= 10 {
        lemma_decimal_digits(n / 10);
        assert(decimal(n).drop_last() =~= decimal(n / 10));
        lemma_fundamental_div_mod(n as int, 10);
        assert(digits_value(decimal(n)) == (n / 10) * 10 + n % 10);
        assert(n == 10 * (n / 10) + n % 10);
        assert forall|k: int| 0 <= k < decimal(n).len() implies crate::reference::is_digit(
            #[trigger] decimal(n)[k],
        ) by {
            if k < decimal(n).len() - 1 {
                assert(decimal(n)[k] == decimal(n / 10)[k]);
            }
        }
    } else {
        assert(decimal(n).drop_last() =~= Seq::<char>::empty());
        assert(digits_value(decimal(n)) == digits_value(Seq::<char>::empty()) * 10
            + crate::reference::digit_value(digit_char(n)));
        assert(n % 10 == n);
    }
}

proof fn lemma_digit_char(d: nat)
    requires
        d < 10,
    ensures
        crate::reference::digit_value(digit_char(d)) == d,
        crate::reference::is_digit(digit_char(d)),
{
    assert(((d + 48) as u8) as char as u32 == d + 48);
}

proof fn lemma_add_unit(ws: Seq<Seq<char>>, v: nat, unit: char)
    ensures
        words_seconds(ws + unit_word(v, unit)) == words_seconds(ws) + v * unit_seconds(unit),
{
    if v > 0 {
        let w2 = ws + unit_word(v, unit);
        assert(w2.drop_last() =~= ws);
        lemma_decimal_digits(v);
        assert(w2.last().drop_last() =~= decimal(v));
    } else {
        assert(ws + unit_word(v, unit) =~= ws);
    }
}

/// Whether `w` is a word of a duration's text: the decimal notation of a positive number
/// followed by one more character, and no space in it.
pub open spec fn unit_word_shape(w: Seq<char>) -> bool {
    &&& w.len() >= 2
    &&& all_digits(w.drop_last())
    &&& digits_value(w.drop_last()) > 0
    &&& w.drop_last() == decimal(digits_value(w.drop_last()))
    &&& !w.contains(' ')
}

proof fn lemma_unit_word_shape(v: nat, unit: char)
    requires
        unit != ' ',
    ensures
        forall|i: int| 0 <= i < unit_word(v, unit).len() ==> unit_word_shape(#[trigger] unit_word(v, unit)[i]),
{
    if v > 0 {
        let w = decimal(v).push(unit);
        lemma_decimal_digits(v);
        assert(w.drop_last() =~= decimal(v));
        assert forall|k: int| 0 <= k < w.len() implies w[k] != ' ' by {
            if k < w.len() - 1 {
                assert(all_digits(decimal(v)));
                assert(crate::reference::is_digit(decimal(v)[k]));
            }
        }
        assert(unit_word(v, unit)[0] == w);
    }
}

/// The words of a duration's text, added up by their units, give the duration back. Each word
/// is the decimal notation of a positive number followed by its unit letter, the units come
/// in the order day, hour, minute, second, each at most once, and no word holds a space.
pub proof fn lemma_words_round_trip(secs: int)
    requires
        secs >= 0,
    ensures
        words_seconds(duration_words(secs)) == secs,
        duration_text(secs) == join_words(duration_words(secs)),
        duration_words(secs).len() <= 4,
        forall|i: int|
            0 <= i < duration_words(secs).len() ==> unit_word_shape(#[trigger] duration_words(secs)[i]),
        forall|i: int, j: int|
            0 <= i < j < duration_words(secs).len() ==> unit_seconds(
                (#[trigger] duration_words(secs)[i]).last(),
            ) > unit_seconds((#[trigger] duration_words(secs)[j]).last()) > 0,
{
    let d = (secs / 86400) as nat;
    let h = (secs % 86400 / 3600) as nat;
    let m = (secs % 3600 / 60) as nat;
    let x = (secs % 60) as nat;
    if secs > 0 {
        let w1 = unit_word(d, 'd');
        let w2 = w1 + unit_word(h, 'h');
        let w3 = w2 + unit_word(m, 'm');
        lemma_add_unit(Seq::<Seq<char>>::empty(), d, 'd');
        assert(Seq::<Seq<char>>::empty() + unit_word(d, 'd') =~= w1);
        lemma_add_unit(w1, h, 'h');
        lemma_add_unit(w2, m, 'm');
        lemma_add_unit(w3, x, 's');
        lemma_fundamental_div_mod(secs, 86400);
        lemma_fundamental_div_mod(secs % 86400, 3600);
        lemma_mod_mod(secs, 3600, 24);
        assert((secs % 86400) % 3600 == secs % 3600);
        lemma_fundamental_div_mod(secs % 3600, 60);
        lemma_mod_mod(secs, 60, 60);
        assert((secs % 3600) % 60 == secs % 60);
        assert(secs == d * 86400 + h * 3600 + m * 60 + x) by (nonlinear_arith)
            requires
                secs == 86400 * (secs / 86400) + secs % 86400,
                secs % 86400 == 3600 * (secs % 86400 / 3600) + (secs % 86400) % 3600,
                (secs % 86400) % 3600 == secs % 3600,
                secs % 3600 == 60 * (secs % 3600 / 60) + (secs % 3600) % 60,
                (secs % 3600) % 60 == secs % 60,
                d == secs / 86400,
                h == secs % 86400 / 3600,
                m == secs % 3600 / 60,
                x == secs % 60,
        ;
        lemma_unit_word_shape(d, 'd');
        lemma_unit_word_shape(h, 'h');
        lemma_unit_word_shape(m, 'm');
        lemma_unit_word_shape(x, 's');
        let ws = duration_words(secs);
        assert forall|i: int| 0 <= i < ws.len() implies unit_word_shape(#[trigger] ws[i]) by {
            let a = unit_word(d, 'd');
            let b = unit_word(h, 'h');
            let c = unit_word(m, 'm');
            let e = unit_word(x, 's');
            if i < a.len() {
                assert(ws[i] == a[i]);
            } else if i < a.len() + b.len() {
                assert(ws[i] == b[i - a.len()]);
            } else if i < a.len() + b.len() + c.len() {
                assert(ws[i] == c[i - a.len() - b.len()]);
            } else {
                assert(ws[i] == e[i - a.len() - b.len() - c.len()]);
            }
        }
    }
}


proof fn lemma_join_single_spaces(w: Seq<Seq<char>>)
    requires
        forall|i: int| 0 <= i < w.len() ==> (#[trigger] w[i]).len() > 0 && !w[i].contains(' '),
    ensures
        forall|k: int|
            0 <= k < join_words(w).len() - 1 ==> !(#[trigger] join_words(w)[k] == ' ' && join_words(
                w,
            )[k + 1] == ' '),
        join_words(w).len() > 0 ==> join_words(w)[0] != ' ' && join_words(w).last() != ' ',
    decreases w.len(),
{
    if w.len() > 0 {
        assert(!w[0].contains(' ') && w[0].len() > 0);
        assert(w[0][0] != ' ');
        assert(w.last().last() != ' ') by {
            assert(w.last()[w.last().len() - 1] == w.last().last());
        }
        lemma_join_ends(w);
    }
    if w.len() > 1 {
        let rest = w.drop_last();
        lemma_join_single_spaces(rest);
        let a = join_words(rest);
        let b = w.last();
        let t = join_words(w);
        assert(t == a + seq![' '] + b);
        assert forall|k: int| 0 <= k < t.len() - 1 implies !(#[trigger] t[k] == ' ' && t[k + 1] == ' ') by {
            if k < a.len() - 1 {
                assert(t[k] == a[k] && t[k + 1] == a[k + 1]);
            } else if k == a.len() - 1 {
                assert(t[k] == a.last());
            } else if k == a.len() {
                assert(t[k + 1] == b[0]);
            } else {
                assert(t[k] == b[k - a.len() - 1]);
                assert(b.contains(t[k]) ==> t[k] != ' ');
            }
        }
    }
}

/// The text of a duration never holds two spaces in a row, and neither starts nor ends with
/// one.
pub proof fn lemma_text_single_spaces(secs: int)
    requires
        secs >= 0,
    ensures
        forall|k: int|
            0 <= k < duration_text(secs).len() - 1 ==> !(#[trigger] duration_text(secs)[k] == ' '
                && duration_text(secs)[k + 1] == ' '),
{
    lemma_words_round_trip(secs);
    lemma_join_single_spaces(duration_words(secs));
}

} // verus!
