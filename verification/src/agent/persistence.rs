//! The text form of the rating table: one record per line, the fields
//! `iteration;elo;policy;hands_played;over_max_rating` separated by
//! semicolons. The rating is written in rating points, as a decimal
//! number with up to six places and no zeros at its end.
//!
//! What is read is wider than what is written: a line may end in a
//! carriage return and a line feed, a count may have a plus sign, and a
//! rating may have a sign, a bare point and an exponent. A rating is taken
//! to millionths of a point; what lies beyond is cut off. Texts that stand
//! for no number, such as `inf` and `nan`, are refused.

use vstd::prelude::*;
use crate::agent::rating::{abs, magnitude};
use crate::agent::tournament::{records_of, AgentTournament, RatingRecord, Tournament};

verus! {

pub open spec fn is_digit(c: char) -> bool {
    '0' <= c <= '9'
}

/// The value of a digit.
pub open spec fn digit_value(c: char) -> int {
    c as int - '0' as int
}

/// The digit of a value below ten.
pub open spec fn digit_char(d: int) -> char {
    (d + '0' as int) as char
}

pub open spec fn all_digits(s: Seq<char>) -> bool {
    forall|i: int| 0 <= i < s.len() ==> is_digit(#[trigger] s[i])
}

/// The decimal digits of `n`, without leading zeros.
pub open spec fn digits_of(n: nat) -> Seq<char>
    decreases n,
{
    if n < 10 {
        seq![digit_char(n as int)]
    } else {
        digits_of(n / 10).push(digit_char((n % 10) as int))
    }
}

/// The last `width` decimal digits of `n`, with leading zeros.
pub open spec fn padded(n: nat, width: nat) -> Seq<char>
    decreases width,
{
    if width == 0 {
        Seq::empty()
    } else {
        padded(n / 10, (width - 1) as nat).push(digit_char((n % 10) as int))
    }
}

/// The places behind the decimal point that stand for `n` parts in ten to
/// the `width`: the last `width` digits of `n`, without the zeros at their
/// end.
pub open spec fn places(n: nat, width: nat) -> Seq<char>
    decreases width,
{
    if width == 0 || n == 0 {
        Seq::empty()
    } else if n % 10 == 0 {
        places(n / 10, (width - 1) as nat)
    } else {
        padded(n, width)
    }
}

/// The number that a sequence of digits stands for.
pub open spec fn digits_value(s: Seq<char>) -> nat
    decreases s.len(),
{
    if s.len() == 0 {
        0
    } else {
        (digits_value(s.drop_last()) * 10 + digit_value(s.last())) as nat
    }
}

pub open spec fn pow10(e: nat) -> nat
    decreases e,
{
    if e == 0 {
        1
    } else {
        10 * pow10((e - 1) as nat)
    }
}

/// A number of at most `max`, written in digits only.
pub open spec fn parse_nat(s: Seq<char>, max: nat) -> Option<nat> {
    if s.len() > 0 && all_digits(s) && digits_value(s) <= max {
        Some(digits_value(s))
    } else {
        None
    }
}

/// A number of at most `max`, written in digits with or without a plus
/// sign in front.
pub open spec fn parse_count(s: Seq<char>, max: nat) -> Option<nat> {
    if s.len() > 0 && s[0] == '+' {
        parse_nat(s.skip(1), max)
    } else {
        parse_nat(s, max)
    }
}

/// The first index of `c` in `s`, and the length of `s` if it is not there.
pub open spec fn first_index(s: Seq<char>, c: char) -> int
    decreases s.len(),
{
    if s.len() == 0 {
        0
    } else if s[0] == c {
        0
    } else {
        1 + first_index(s.drop_first(), c)
    }
}

/// The pieces of `s` between the occurrences of `sep`.
pub open spec fn split(s: Seq<char>, sep: char) -> Seq<Seq<char>>
    decreases s.len(),
    via split_decreases
{
    let i = first_index(s, sep);
    if i >= s.len() {
        seq![s]
    } else {
        seq![s.take(i)] + split(s.skip(i + 1), sep)
    }
}

#[via_fn]
proof fn split_decreases(s: Seq<char>, sep: char) {
    lemma_first_index(s, sep);
}

pub proof fn lemma_first_index(s: Seq<char>, c: char)
    ensures
        0 <= first_index(s, c) <= s.len(),
        forall|j: int| 0 <= j < first_index(s, c) ==> #[trigger] s[j] != c,
        first_index(s, c) < s.len() ==> s[first_index(s, c)] == c,
    decreases s.len(),
{
    if s.len() > 0 && s[0] != c {
        lemma_first_index(s.drop_first(), c);
        assert forall|j: int| 0 <= j < first_index(s, c) implies #[trigger] s[j] != c by {
            if j > 0 {
                assert(s[j] == s.drop_first()[j - 1]);
            }
        }
    }
}

/// The first index of `c` is the position before which `c` does not occur
/// and at which, if it is inside `s`, `c` stands.
pub proof fn lemma_first_index_is(s: Seq<char>, c: char, r: int)
    requires
        0 <= r <= s.len(),
        forall|j: int| 0 <= j < r ==> #[trigger] s[j] != c,
        r < s.len() ==> s[r] == c,
    ensures
        first_index(s, c) == r,
{
    lemma_first_index(s, c);
    let f = first_index(s, c);
    if f < r {
        assert(s[f] != c);
    } else if f > r {
        assert(s[r] != c);
    }
}

/// Whether `c` opens the exponent of a number.
pub open spec fn is_exp_mark(c: char) -> bool {
    c == 'e' || c == 'E'
}

/// The first index of `s` at which an exponent opens, and the length of
/// `s` if there is none.
pub open spec fn first_exp_mark(s: Seq<char>) -> int
    decreases s.len(),
{
    if s.len() == 0 {
        0
    } else if is_exp_mark(s[0]) {
        0
    } else {
        1 + first_exp_mark(s.drop_first())
    }
}

/// The exponent behind its mark: digits, with or without a sign in front.
pub open spec fn parse_exponent(s: Seq<char>) -> Option<int> {
    let signed = s.len() > 0 && (s[0] == '-' || s[0] == '+');
    let digits = if signed {
        s.skip(1)
    } else {
        s
    };
    if digits.len() > 0 && all_digits(digits) {
        if signed && s[0] == '-' {
            Some(-(digits_value(digits) as int))
        } else {
            Some(digits_value(digits) as int)
        }
    } else {
        None
    }
}

/// `d` times ten to the `shift`, and what is whole of it where `shift` is
/// negative.
pub open spec fn scale(d: nat, shift: int) -> nat {
    if shift >= 0 {
        d * pow10(shift as nat)
    } else {
        d / pow10((-shift) as nat)
    }
}

/// The number behind the sign's place, in millionths: digits with or
/// without a point among them, before it or behind it, and with or without
/// an exponent. What lies beyond the sixth place is cut off.
pub open spec fn parse_magnitude(body: Seq<char>) -> Option<nat> {
    let mark = first_exp_mark(body);
    let mantissa = body.take(mark);
    let exponent = if mark < body.len() {
        parse_exponent(body.skip(mark + 1))
    } else {
        Some(0int)
    };
    let dot = first_index(mantissa, '.');
    let whole = mantissa.take(dot);
    let frac = if dot < mantissa.len() {
        mantissa.skip(dot + 1)
    } else {
        Seq::empty()
    };
    if all_digits(whole) && all_digits(frac) && whole.len() + frac.len() > 0 && exponent is Some {
        Some(scale(digits_value(whole + frac), exponent->0 + 6 - frac.len()))
    } else {
        None
    }
}

/// A rating in millionths of a point, read from a decimal number with or
/// without a sign and an exponent; `None` where the text is no such number
/// or the rating does not fit.
pub open spec fn parse_elo(s: Seq<char>) -> Option<int> {
    let signed = s.len() > 0 && (s[0] == '-' || s[0] == '+');
    let negative = signed && s[0] == '-';
    let body = if signed {
        s.skip(1)
    } else {
        s
    };
    match parse_magnitude(body) {
        Some(m) => if negative {
            if m <= -(i64::MIN as int) {
                Some(-(m as int))
            } else {
                None
            }
        } else {
            if m <= i64::MAX {
                Some(m as int)
            } else {
                None
            }
        },
        None => None,
    }
}

/// A number of millionths as a decimal number: the whole part, and behind
/// a point the places up to the last that is not zero, of six; no point
/// where every place is zero.
pub open spec fn format_magnitude(magnitude: nat) -> Seq<char> {
    let whole = digits_of(magnitude / 1_000_000);
    if magnitude % 1_000_000 == 0 {
        whole
    } else {
        whole + seq!['.'] + places(magnitude % 1_000_000, 6)
    }
}

/// A rating as a decimal number of rating points, with a minus sign in
/// front where it is negative.
pub open spec fn format_elo(elo: int) -> Seq<char> {
    if elo < 0 {
        seq!['-'] + format_magnitude(abs(elo) as nat)
    } else {
        format_magnitude(abs(elo) as nat)
    }
}

pub open spec fn format_flag(flag: bool) -> Seq<char> {
    if flag {
        seq!['t', 'r', 'u', 'e']
    } else {
        seq!['f', 'a', 'l', 's', 'e']
    }
}

pub open spec fn parse_flag(s: Seq<char>) -> Option<bool> {
    if s == format_flag(true) {
        Some(true)
    } else if s == format_flag(false) {
        Some(false)
    } else {
        None
    }
}

/// The line of a record, without its line feed.
pub open spec fn format_record(r: RatingRecord) -> Seq<char> {
    digits_of(r.iteration as nat) + seq![';'] + format_elo(r.elo) + seq![';'] + r.network_file
        + seq![';'] + digits_of(r.hands_played as nat) + seq![';'] + format_flag(r.over_max_rating)
}

/// The text of a roster: the line of each record, in roster order, each
/// closed by a line feed.
pub open spec fn format_state(roster: Seq<RatingRecord>) -> Seq<char>
    decreases roster.len(),
{
    if roster.len() == 0 {
        Seq::empty()
    } else {
        format_record(roster[0]) + seq!['\n'] + format_state(roster.drop_first())
    }
}

/// The record of a line: at least the three fields iteration, rating and
/// policy; the number of hands and the cap flag may be missing, and are
/// then zero and unset. Fields behind the fifth are not read.
pub open spec fn parse_record(line: Seq<char>) -> Option<RatingRecord> {
    let parts = split(line, ';');
    if parts.len() < 3 {
        None
    } else {
        let iteration = parse_count(parts[0], u32::MAX as nat);
        let elo = parse_elo(parts[1]);
        let hands_played = if parts.len() > 3 {
            parse_count(parts[3], usize::MAX as nat)
        } else {
            Some(0nat)
        };
        let over_max_rating = if parts.len() > 4 {
            parse_flag(parts[4])
        } else {
            Some(false)
        };
        if iteration is Some && elo is Some && hands_played is Some && over_max_rating is Some {
            Some(
                RatingRecord {
                    network_file: parts[2],
                    elo: elo->0,
                    iteration: iteration->0 as int,
                    hands_played: hands_played->0 as int,
                    over_max_rating: over_max_rating->0,
                },
            )
        } else {
            None
        }
    }
}

/// A line without the carriage return at its end, if it has one.
pub open spec fn strip_cr(line: Seq<char>) -> Seq<char> {
    if line.len() > 0 && line.last() == '\r' {
        line.drop_last()
    } else {
        line
    }
}

/// Line `i` of the pieces between the line feeds of a text: a piece that a
/// line feed closes loses a carriage return in front of it.
pub open spec fn line_at(pieces: Seq<Seq<char>>, i: int) -> Seq<char> {
    if i < pieces.len() - 1 {
        strip_cr(pieces[i])
    } else {
        pieces[i]
    }
}

/// The lines of a text: the pieces between its line feeds, each without the
/// carriage return that may stand in front of the line feed, and without
/// the empty piece behind a closing line feed.
pub open spec fn lines_of(contents: Seq<char>) -> Seq<Seq<char>> {
    let pieces = split(contents, '\n');
    let count = if pieces.last().len() == 0 {
        pieces.len() - 1
    } else {
        pieces.len() as int
    };
    Seq::new(count as nat, |i: int| line_at(pieces, i))
}

/// The index of the first line that is no record, and the number of lines
/// if there is none.
pub open spec fn first_malformed(lines: Seq<Seq<char>>) -> int
    decreases lines.len(),
{
    if lines.len() == 0 {
        0
    } else if parse_record(lines[0]) is None {
        0
    } else {
        1 + first_malformed(lines.drop_first())
    }
}

/// The records of the lines, where every line is a record.
pub open spec fn parse_lines(lines: Seq<Seq<char>>) -> Option<Seq<RatingRecord>> {
    if first_malformed(lines) < lines.len() {
        None
    } else {
        Some(Seq::new(lines.len(), |i: int| parse_record(lines[i])->0))
    }
}

/// The roster that a text stands for; `None` where a line is malformed.
pub open spec fn parse_state(contents: Seq<char>) -> Option<Seq<RatingRecord>> {
    parse_lines(lines_of(contents))
}

/// A record that can be written and read back: its numbers fit their
/// fields, and its policy holds neither a semicolon nor a line feed.
pub open spec fn is_writable(r: RatingRecord) -> bool {
    &&& 0 <= r.iteration <= u32::MAX
    &&& 0 <= r.hands_played <= usize::MAX
    &&& i64::MIN <= r.elo <= i64::MAX
    &&& forall|i: int|
        0 <= i < r.network_file.len() ==> #[trigger] r.network_file[i] != ';' && r.network_file[i]
            != '\n'
}

/// Whether `c` does not occur in `s`.
pub open spec fn lacks(s: Seq<char>, c: char) -> bool {
    forall|i: int| 0 <= i < s.len() ==> #[trigger] s[i] != c
}

/// The digits of a number are digits, and stand for the number.
pub proof fn lemma_digits_of(n: nat)
    ensures
        digits_of(n).len() >= 1,
        all_digits(digits_of(n)),
        digits_value(digits_of(n)) == n,
    decreases n,
{
    if n < 10 {
        assert(digits_of(n).drop_last() =~= Seq::<char>::empty());
        assert(digits_of(n).last() == digit_char(n as int));
        assert(digits_value(Seq::<char>::empty()) == 0);
    } else {
        lemma_digits_of(n / 10);
        assert(digits_of(n).drop_last() =~= digits_of(n / 10));
        assert(digits_of(n).last() == digit_char((n % 10) as int));
    }
}

/// The padded digits of a number are `width` digits, and stand for the
/// number where it has no more digits than that.
pub proof fn lemma_padded(n: nat, width: nat)
    ensures
        padded(n, width).len() == width,
        all_digits(padded(n, width)),
        n < pow10(width) ==> digits_value(padded(n, width)) == n,
    decreases width,
{
    if width > 0 {
        lemma_padded(n / 10, (width - 1) as nat);
        assert(padded(n, width).drop_last() =~= padded(n / 10, (width - 1) as nat));
        if n < pow10(width) {
            assert(n / 10 < pow10((width - 1) as nat));
        }
    }
}

pub proof fn lemma_pow10_of_six()
    ensures
        pow10(0) == 1,
        pow10(1) == 10,
        pow10(2) == 100,
        pow10(3) == 1_000,
        pow10(4) == 10_000,
        pow10(5) == 100_000,
        pow10(6) == 1_000_000,
{
    reveal_with_fuel(pow10, 8);
}

pub proof fn lemma_pow10_positive(e: nat)
    ensures
        pow10(e) >= 1,
    decreases e,
{
    if e > 0 {
        lemma_pow10_positive((e - 1) as nat);
    }
}

pub proof fn lemma_pow10_add(a: nat, b: nat)
    ensures
        pow10(a + b) == pow10(a) * pow10(b),
    decreases b,
{
    if b == 0 {
        assert(pow10(a) * 1 == pow10(a)) by (nonlinear_arith);
    } else {
        lemma_pow10_add(a, (b - 1) as nat);
        assert(pow10(a + b) == 10 * pow10((a + b - 1) as nat));
        assert(pow10(b) == 10 * pow10((b - 1) as nat));
        let x = pow10(a) as int;
        let y = pow10((b - 1) as nat) as int;
        assert(10 * (x * y) == x * (10 * y)) by (nonlinear_arith);
    }
}

pub proof fn lemma_pow10_monotonic(a: nat, b: nat)
    requires
        a <= b,
    ensures
        pow10(a) <= pow10(b),
    decreases b - a,
{
    if a < b {
        lemma_pow10_monotonic(a, (b - 1) as nat);
        lemma_pow10_positive((b - 1) as nat);
    }
}

/// The digits of two texts in a row stand for the number of the first,
/// shifted by the length of the second, and the number of the second.
pub proof fn lemma_digits_value_concat(a: Seq<char>, b: Seq<char>)
    requires
        all_digits(b),
    ensures
        digits_value(a + b) == digits_value(a) * pow10(b.len()) + digits_value(b),
    decreases b.len(),
{
    if b.len() == 0 {
        assert(a + b =~= a);
        assert(digits_value(a) * 1 == digits_value(a)) by (nonlinear_arith);
    } else {
        let head = b.drop_last();
        assert forall|i: int| 0 <= i < head.len() implies is_digit(#[trigger] head[i]) by {
            assert(head[i] == b[i]);
        }
        lemma_digits_value_concat(a, head);
        assert((a + b).drop_last() =~= a + head);
        assert((a + b).last() == b.last());
        assert(is_digit(b.last()));
        let x = digits_value(a) as int;
        let y = digits_value(head) as int;
        let d = digit_value(b.last());
        let p = pow10((b.len() - 1) as nat) as int;
        assert(pow10(b.len()) == 10 * p);
        assert(digits_value(a + head) == x * p + y);
        assert(digits_value(a + b) == (x * p + y) * 10 + d);
        assert(digits_value(b) == y * 10 + d);
        assert((x * p + y) * 10 == x * (10 * p) + y * 10) by (nonlinear_arith);
    }
}

/// Digits stand for a number below ten to their count.
pub proof fn lemma_digits_value_bound(s: Seq<char>)
    requires
        all_digits(s),
    ensures
        digits_value(s) < pow10(s.len()),
    decreases s.len(),
{
    if s.len() > 0 {
        assert(is_digit(s.last()));
        assert forall|i: int| 0 <= i < s.len() - 1 implies is_digit(#[trigger] s.drop_last()[i]) by {
            assert(s.drop_last()[i] == s[i]);
        }
        lemma_digits_value_bound(s.drop_last());
    }
}

/// The first `k` of some digits stand for the number of all of them,
/// divided by ten to the count of the rest.
pub proof fn lemma_digits_value_take(s: Seq<char>, k: int)
    requires
        all_digits(s),
        0 <= k <= s.len(),
    ensures
        digits_value(s.take(k)) == digits_value(s) / pow10((s.len() - k) as nat),
    decreases s.len() - k,
{
    let total = digits_value(s) as int;
    if k == s.len() {
        assert(s.take(k) =~= s);
        assert(total / 1 == total);
    } else {
        lemma_digits_value_take(s, k + 1);
        let rest = pow10((s.len() - k - 1) as nat) as int;
        lemma_pow10_positive((s.len() - k - 1) as nat);
        assert(pow10((s.len() - k) as nat) == 10 * rest);
        assert(s.take(k + 1).drop_last() =~= s.take(k));
        assert(s.take(k + 1).last() == s[k]);
        assert(is_digit(s[k]));
        let longer = digits_value(s.take(k + 1)) as int;
        let shorter = digits_value(s.take(k)) as int;
        assert(longer == shorter * 10 + digit_value(s[k]));
        assert(longer / 10 == shorter);
        vstd::arithmetic::div_mod::lemma_div_denominator(total, rest, 10);
        assert(rest * 10 == 10 * rest);
    }
}

/// Whether a number of millionths fits a rating of either sign.
pub open spec fn fits_rating(v: nat) -> bool {
    v <= 0x8000_0000_0000_0000
}

/// Shifted by twenty places or more, only zero fits a rating; shifted
/// down by all its places or more, a number is zero.
pub proof fn lemma_scale_far(digits: Seq<char>, shift: int)
    requires
        all_digits(digits),
    ensures
        shift >= 20 && digits_value(digits) > 0 ==> !fits_rating(scale(digits_value(digits), shift)),
        shift >= 0 && digits_value(digits) == 0 ==> scale(digits_value(digits), shift) == 0,
        shift <= -digits.len() ==> scale(digits_value(digits), shift) == 0,
{
    let d = digits_value(digits) as int;
    if shift >= 0 {
        let p = pow10(shift as nat) as int;
        lemma_pow10_positive(shift as nat);
        if d == 0 {
            assert(0 * p == 0);
        } else if shift >= 20 {
            lemma_pow10_monotonic(20, shift as nat);
            assert(pow10(20) == 100_000_000_000_000_000_000) by {
                reveal_with_fuel(pow10, 22);
            }
            assert(d * p >= p) by (nonlinear_arith)
                requires
                    d >= 1,
                    p >= 1,
            ;
        }
    }
    if shift <= -digits.len() {
        lemma_digits_value_bound(digits);
        lemma_pow10_positive((-shift) as nat);
        if shift < 0 {
            lemma_pow10_monotonic(digits.len(), (-shift) as nat);
            vstd::arithmetic::div_mod::lemma_basic_div(d, pow10((-shift) as nat) as int);
        } else {
            assert(digits.len() == 0 && shift == 0);
            assert(d == 0);
            assert(0 * pow10(0) == 0);
        }
    }
}

pub proof fn lemma_first_exp_mark(s: Seq<char>)
    ensures
        0 <= first_exp_mark(s) <= s.len(),
        forall|j: int| 0 <= j < first_exp_mark(s) ==> !is_exp_mark(#[trigger] s[j]),
        first_exp_mark(s) < s.len() ==> is_exp_mark(s[first_exp_mark(s)]),
    decreases s.len(),
{
    if s.len() > 0 && !is_exp_mark(s[0]) {
        lemma_first_exp_mark(s.drop_first());
        assert forall|j: int| 0 <= j < first_exp_mark(s) implies !is_exp_mark(#[trigger] s[j]) by {
            if j > 0 {
                assert(s[j] == s.drop_first()[j - 1]);
            }
        }
    }
}

/// The first exponent mark is the position before which none stands and
/// at which, if it is inside `s`, one does.
pub proof fn lemma_first_exp_mark_is(s: Seq<char>, r: int)
    requires
        0 <= r <= s.len(),
        forall|j: int| 0 <= j < r ==> !is_exp_mark(#[trigger] s[j]),
        r < s.len() ==> is_exp_mark(s[r]),
    ensures
        first_exp_mark(s) == r,
{
    lemma_first_exp_mark(s);
    let f = first_exp_mark(s);
    if f < r {
        assert(!is_exp_mark(s[f]));
    } else if f > r {
        assert(!is_exp_mark(s[r]));
    }
}

/// Text made of digits holds nothing but digits.
pub proof fn lemma_digits_lack(s: Seq<char>, c: char)
    requires
        all_digits(s),
        !is_digit(c),
    ensures
        lacks(s, c),
{
}

/// A piece without separator in front of a separator is the first piece.
pub proof fn lemma_split_head(a: Seq<char>, sep: char, rest: Seq<char>)
    requires
        lacks(a, sep),
    ensures
        split(a + seq![sep] + rest, sep) == seq![a] + split(rest, sep),
{
    let s = a + seq![sep] + rest;
    assert forall|j: int| 0 <= j < a.len() implies #[trigger] s[j] != sep by {
        assert(s[j] == a[j]);
    }
    lemma_first_index_is(s, sep, a.len() as int);
    assert(s.take(a.len() as int) =~= a);
    assert(s.skip(a.len() as int + 1) =~= rest);
}

/// Text without separator is one piece.
pub proof fn lemma_split_single(a: Seq<char>, sep: char)
    requires
        lacks(a, sep),
    ensures
        split(a, sep) == seq![a],
{
    lemma_first_index_is(a, sep, a.len() as int);
}

/// The places of a number that needs no more than `width` of them are
/// digits, at least one and at most `width`, and stand for the number.
pub proof fn lemma_places(n: nat, width: nat)
    requires
        0 < n < pow10(width),
    ensures
        1 <= places(n, width).len() <= width,
        all_digits(places(n, width)),
        digits_value(places(n, width)) * pow10((width - places(n, width).len()) as nat) == n,
    decreases width,
{
    reveal_with_fuel(pow10, 2);
    assert(width >= 1);
    if n % 10 == 0 {
        let rest = places(n / 10, (width - 1) as nat);
        assert(pow10(width) == 10 * pow10((width - 1) as nat));
        assert(0 < n / 10 < pow10((width - 1) as nat));
        lemma_places(n / 10, (width - 1) as nat);
        assert(places(n, width) == rest);
        let value = digits_value(rest) as int;
        let e = (width - 1 - rest.len()) as nat;
        let shift = pow10(e) as int;
        assert(pow10((e + 1) as nat) == 10 * pow10(e));
        assert(value * shift == n / 10);
        assert(value * (10 * shift) == 10 * (value * shift)) by (nonlinear_arith);
        assert(10 * (n / 10) == n);
    } else {
        lemma_padded(n, width);
        assert(places(n, width) == padded(n, width));
        let value = digits_value(padded(n, width)) as int;
        assert(pow10(0) == 1);
        assert(value * 1 == value) by (nonlinear_arith);
    }
}

/// A written number of millionths holds digits and at most a point, starts
/// with a digit, and reads back as the same number.
pub proof fn lemma_magnitude_round_trip(magnitude: nat)
    ensures
        format_magnitude(magnitude).len() > 0,
        is_digit(format_magnitude(magnitude)[0]),
        parse_magnitude(format_magnitude(magnitude)) == Some(magnitude),
        forall|c: char| !is_digit(c) && c != '.' ==> lacks(format_magnitude(magnitude), c),
{
    let whole = digits_of(magnitude / 1_000_000);
    let n = magnitude % 1_000_000;
    let body = format_magnitude(magnitude);
    lemma_digits_of(magnitude / 1_000_000);
    lemma_pow10_of_six();
    lemma_digits_lack(whole, '.');
    assert(is_digit(whole[0]));
    let frac = if n == 0 {
        Seq::<char>::empty()
    } else {
        places(n, 6)
    };
    if n != 0 {
        lemma_places(n, 6);
        assert(body =~= whole + seq!['.'] + frac);
    }
    assert(body[0] == whole[0]);
    assert forall|c: char| !is_digit(c) && c != '.' implies lacks(body, c) by {
        assert forall|i: int| 0 <= i < body.len() implies #[trigger] body[i] != c by {
            if i < whole.len() {
                assert(body[i] == whole[i]);
            } else if i > whole.len() {
                assert(body[i] == frac[i - whole.len() - 1]);
            }
        }
    }
    assert(lacks(body, 'e') && lacks(body, 'E'));
    lemma_first_exp_mark_is(body, body.len() as int);
    assert(body.take(body.len() as int) =~= body);
    assert forall|j: int| 0 <= j < whole.len() implies #[trigger] body[j] != '.' by {
        assert(body[j] == whole[j]);
    }
    lemma_first_index_is(body, '.', whole.len() as int);
    assert(body.take(whole.len() as int) =~= whole);
    if n != 0 {
        assert(body.skip(whole.len() as int + 1) =~= frac);
    }
    lemma_digits_value_concat(whole, frac);
    let w = digits_value(whole) as int;
    let f = digits_value(frac) as int;
    let up = pow10(frac.len()) as int;
    let down = pow10((6 - frac.len()) as nat) as int;
    lemma_pow10_add(frac.len(), (6 - frac.len()) as nat);
    assert(up * down == 1_000_000);
    assert(f * down == n) by {
        if n == 0 {
            assert(f == 0);
            assert(0 * down == 0) by (nonlinear_arith);
        }
    }
    assert((w * up + f) * down == w * (up * down) + f * down) by (nonlinear_arith);
    assert(w * 1_000_000 + n == magnitude);
    assert(scale(digits_value(whole + frac), 6 - frac.len()) == magnitude);
}

/// A written rating holds digits, and at most a minus sign and a point.
pub proof fn lemma_format_elo_chars(elo: int, c: char)
    requires
        !is_digit(c),
        c != '-',
        c != '.',
    ensures
        lacks(format_elo(elo), c),
{
    let body = format_magnitude(abs(elo) as nat);
    lemma_magnitude_round_trip(abs(elo) as nat);
    assert(lacks(body, c));
    if elo < 0 {
        let text = format_elo(elo);
        assert forall|i: int| 0 <= i < text.len() implies #[trigger] text[i] != c by {
            if i > 0 {
                assert(text[i] == body[i - 1]);
            }
        }
    }
}

/// A rating that is written and read back is the same rating.
pub proof fn lemma_elo_round_trip(elo: int)
    requires
        i64::MIN <= elo <= i64::MAX,
    ensures
        parse_elo(format_elo(elo)) == Some(elo),
{
    let magnitude = abs(elo) as nat;
    let body = format_magnitude(magnitude);
    let text = format_elo(elo);
    lemma_magnitude_round_trip(magnitude);
    if elo < 0 {
        assert(text[0] == '-');
        assert(text.skip(1) =~= body);
    } else {
        assert(text[0] == body[0]);
        assert(text[0] != '-');
    }
}

/// A flag that is written and read back is the same flag.
pub proof fn lemma_flag_round_trip(flag: bool)
    ensures
        parse_flag(format_flag(flag)) == Some(flag),
        lacks(format_flag(flag), ';'),
        lacks(format_flag(flag), '\n'),
{
    assert(format_flag(true)[0] != format_flag(false)[0]);
}

/// A writable record that is written and read back is the same record,
/// and its line holds no line feed.
pub proof fn lemma_record_round_trip(r: RatingRecord)
    requires
        is_writable(r),
    ensures
        parse_record(format_record(r)) == Some(r),
        lacks(format_record(r), '\n'),
        strip_cr(format_record(r)) == format_record(r),
{
    let f0 = digits_of(r.iteration as nat);
    let f1 = format_elo(r.elo);
    let f2 = r.network_file;
    let f3 = digits_of(r.hands_played as nat);
    let f4 = format_flag(r.over_max_rating);
    let sep = seq![';'];
    lemma_digits_of(r.iteration as nat);
    lemma_digits_of(r.hands_played as nat);
    lemma_elo_round_trip(r.elo);
    lemma_flag_round_trip(r.over_max_rating);
    lemma_format_elo_chars(r.elo, ';');
    lemma_format_elo_chars(r.elo, '\n');
    lemma_digits_lack(f0, ';');
    lemma_digits_lack(f3, ';');
    lemma_digits_lack(f0, '\n');
    lemma_digits_lack(f3, '\n');
    let t4 = f4;
    let t3 = f3 + sep + t4;
    let t2 = f2 + sep + t3;
    let t1 = f1 + sep + t2;
    let t0 = f0 + sep + t1;
    assert(format_record(r) =~= t0);
    lemma_split_head(f0, ';', t1);
    lemma_split_head(f1, ';', t2);
    lemma_split_head(f2, ';', t3);
    lemma_split_head(f3, ';', t4);
    lemma_split_single(f4, ';');
    let parts = split(t0, ';');
    assert(parts =~= seq![f0, f1, f2, f3, f4]);
    assert(is_digit(f0[0]) && is_digit(f3[0]));
    assert(parse_count(f0, u32::MAX as nat) == Some(r.iteration as nat));
    assert(parse_count(f3, usize::MAX as nat) == Some(r.hands_played as nat));
    assert(parse_record(t0) == Some(r));
    assert(f4.last() == 'e');
    assert(t0.last() == f4.last());
}

/// The lines of a written roster are the lines of its records.
pub proof fn lemma_lines_of_state(roster: Seq<RatingRecord>)
    requires
        forall|i: int| 0 <= i < roster.len() ==> is_writable(#[trigger] roster[i]),
    ensures
        split(format_state(roster), '\n') == Seq::new(
            roster.len(),
            |i: int| format_record(roster[i]),
        ).push(Seq::empty()),
    decreases roster.len(),
{
    if roster.len() == 0 {
        lemma_split_single(Seq::empty(), '\n');
        assert(split(format_state(roster), '\n') =~= Seq::new(
            roster.len(),
            |i: int| format_record(roster[i]),
        ).push(Seq::empty()));
    } else {
        let rest = roster.drop_first();
        assert forall|i: int| 0 <= i < rest.len() implies is_writable(#[trigger] rest[i]) by {
            assert(rest[i] == roster[i + 1]);
        }
        lemma_lines_of_state(rest);
        lemma_record_round_trip(roster[0]);
        lemma_split_head(format_record(roster[0]), '\n', format_state(rest));
        assert(split(format_state(roster), '\n') =~= Seq::new(
            roster.len(),
            |i: int| format_record(roster[i]),
        ).push(Seq::empty()));
    }
}

/// Where none of the first `k` lines is malformed, the first malformed
/// line is not among them.
pub proof fn lemma_first_malformed(lines: Seq<Seq<char>>)
    ensures
        0 <= first_malformed(lines) <= lines.len(),
        forall|i: int| 0 <= i < first_malformed(lines) ==> parse_record(#[trigger] lines[i]) is Some,
        first_malformed(lines) < lines.len() ==> parse_record(lines[first_malformed(lines)]) is None,
    decreases lines.len(),
{
    if lines.len() > 0 && parse_record(lines[0]) is Some {
        let rest = lines.drop_first();
        lemma_first_malformed(rest);
        assert forall|i: int| 0 <= i < first_malformed(lines) implies parse_record(
            #[trigger] lines[i],
        ) is Some by {
            if i > 0 {
                assert(lines[i] == rest[i - 1]);
            }
        }
    }
}

/// A roster of writable records that is written and read back is the same
/// roster: every rating, every number of hands and
/// every cap flag is as it was.
pub proof fn lemma_state_round_trip(roster: Seq<RatingRecord>)
    requires
        forall|i: int| 0 <= i < roster.len() ==> is_writable(#[trigger] roster[i]),
    ensures
        parse_state(format_state(roster)) == Some(roster),
{
    let lines = lines_of(format_state(roster));
    lemma_lines_of_state(roster);
    assert forall|i: int| 0 <= i < roster.len() implies strip_cr(format_record(roster[i]))
        == format_record(roster[i]) by {
        lemma_record_round_trip(roster[i]);
    }
    assert(lines =~= Seq::new(roster.len(), |i: int| format_record(roster[i])));
    lemma_first_malformed(lines);
    assert forall|i: int| 0 <= i < lines.len() implies parse_record(#[trigger] lines[i]) == Some(
        roster[i],
    ) by {
        lemma_record_round_trip(roster[i]);
    }
    if first_malformed(lines) < lines.len() {
        assert(parse_record(lines[first_malformed(lines)]) is None);
    }
    assert(parse_lines(lines)->0 =~= roster);
}

/// The text of a roster with one more record is the text of the roster
/// with the line of the record behind it.
pub proof fn lemma_format_state_push(roster: Seq<RatingRecord>, r: RatingRecord)
    ensures
        format_state(roster.push(r)) == format_state(roster) + format_record(r) + seq!['\n'],
    decreases roster.len(),
{
    if roster.len() == 0 {
        assert(roster.push(r).drop_first() =~= roster);
        assert(format_state(roster.push(r)) =~= format_state(roster) + format_record(r) + seq![
            '\n',
        ]);
    } else {
        lemma_format_state_push(roster.drop_first(), r);
        assert(roster.push(r).drop_first() =~= roster.drop_first().push(r));
        assert(format_state(roster.push(r)) =~= format_state(roster) + format_record(r) + seq![
            '\n',
        ]);
    }
}

/// Appends a digit.
fn push_digit(out: &mut String, d: u8)
    requires
        d < 10,
    ensures
        final(out)@ == old(out)@.push(digit_char(d as int)),
{
    proof {
        reveal_strlit("0");
        reveal_strlit("1");
        reveal_strlit("2");
        reveal_strlit("3");
        reveal_strlit("4");
        reveal_strlit("5");
        reveal_strlit("6");
        reveal_strlit("7");
        reveal_strlit("8");
        reveal_strlit("9");
    }
    let text: &str = if d == 0 {
        "0"
    } else if d == 1 {
        "1"
    } else if d == 2 {
        "2"
    } else if d == 3 {
        "3"
    } else if d == 4 {
        "4"
    } else if d == 5 {
        "5"
    } else if d == 6 {
        "6"
    } else if d == 7 {
        "7"
    } else if d == 8 {
        "8"
    } else {
        "9"
    };
    out.append(text);
    assert(out@ =~= old(out)@.push(digit_char(d as int)));
}

/// Appends the decimal digits of `n`.
pub fn write_number(out: &mut String, n: u64)
    ensures
        final(out)@ == old(out)@ + digits_of(n as nat),
    decreases n,
{
    if n >= 10 {
        write_number(out, n / 10);
    }
    push_digit(out, (n % 10) as u8);
    assert(out@ =~= old(out)@ + digits_of(n as nat));
}

/// Appends the last `width` decimal digits of `n`.
pub fn write_padded(out: &mut String, n: u64, width: u8)
    ensures
        final(out)@ == old(out)@ + padded(n as nat, width as nat),
    decreases width,
{
    if width > 0 {
        write_padded(out, n / 10, width - 1);
        push_digit(out, (n % 10) as u8);
    }
    assert(out@ =~= old(out)@ + padded(n as nat, width as nat));
}

/// Appends the places that stand for `n` parts in ten to the `width`: the
/// last `width` digits of `n` without the zeros at their end.
pub fn write_places(out: &mut String, n: u64, width: u8)
    ensures
        final(out)@ == old(out)@ + places(n as nat, width as nat),
{
    let mut rest: u64 = n;
    let mut left: u8 = width;
    while left > 0 && rest != 0 && rest % 10 == 0
        invariant
            left <= width,
            places(n as nat, width as nat) == places(rest as nat, left as nat),
        decreases left,
    {
        rest = rest / 10;
        left = left - 1;
    }
    if left > 0 && rest != 0 {
        write_padded(out, rest, left);
    }
    assert(out@ =~= old(out)@ + places(n as nat, width as nat));
}

/// Appends a rating as a decimal number of rating points.
pub fn write_elo(out: &mut String, elo: i64)
    ensures
        final(out)@ == old(out)@ + format_elo(elo as int),
{
    proof {
        reveal_strlit("-");
        reveal_strlit(".");
    }
    if elo < 0 {
        out.append("-");
    }
    let size: u64 = magnitude(elo);
    write_number(out, size / 1_000_000);
    if size % 1_000_000 != 0 {
        out.append(".");
        write_places(out, size % 1_000_000, 6);
    }
    assert(out@ =~= old(out)@ + format_elo(elo as int));
}

/// Appends the line of a record, without its line feed.
pub fn write_record(out: &mut String, record: &AgentTournament)
    ensures
        final(out)@ == old(out)@ + format_record(record@),
{
    proof {
        reveal_strlit(";");
        reveal_strlit("true");
        reveal_strlit("false");
    }
    write_number(out, record.iteration as u64);
    out.append(";");
    write_elo(out, record.elo);
    out.append(";");
    out.append(record.network_file.as_str());
    out.append(";");
    write_number(out, record.hands_played as u64);
    out.append(";");
    if record.over_max_rating {
        out.append("true");
    } else {
        out.append("false");
    }
    assert(out@ =~= old(out)@ + format_record(record@));
}

impl Tournament {
    /// The text of the rating table, one line per record in roster order.
    pub fn save_state(&self) -> (text: String)
        ensures
            text@ == format_state(self.roster()),
    {
        let mut out = String::new();
        let mut i: usize = 0;
        while i < self.agents.len()
            invariant
                i <= self.agents@.len(),
                out@ == format_state(self.roster().take(i as int)),
            decreases self.agents@.len() - i,
        {
            let ghost before = out@;
            write_record(&mut out, &self.agents[i]);
            out.append("\n");
            proof {
                lemma_format_state_push(self.roster().take(i as int), self.roster()[i as int]);
                assert(self.roster().take(i + 1) =~= self.roster().take(i as int).push(
                    self.roster()[i as int],
                ));
                assert(self.agents@[i as int]@ == self.roster()[i as int]);
                reveal_strlit("\n");
                assert("\n"@ =~= seq!['\n']);
                assert(out@ =~= before + format_record(self.roster()[i as int]) + seq!['\n']);
            }
            i += 1;
        }
        assert(self.roster().take(i as int) =~= self.roster());
        out
    }
}

/// Why a text could not be read as a rating table.
#[derive(Clone, Copy, Debug, PartialEq, Eq, Structural)]
pub enum PersistenceError {
    /// The line with this index, counted from zero, is no record.
    MalformedRecord { line: usize },
}

/// More digits never stand for less.
pub proof fn lemma_digits_value_monotonic(s: Seq<char>, k: int)
    requires
        all_digits(s),
        0 <= k <= s.len(),
    ensures
        digits_value(s.take(k)) <= digits_value(s),
    decreases s.len() - k,
{
    if k < s.len() {
        lemma_digits_value_monotonic(s, k + 1);
        assert(s.take(k + 1).drop_last() =~= s.take(k));
        assert(is_digit(s[k]));
        assert(s.take(k + 1).last() == s[k]);
    } else {
        assert(s.take(k) =~= s);
    }
}

/// The characters of a text.
pub fn chars_of(s: &str) -> (v: Vec<char>)
    ensures
        v@ == s@,
{
    let mut v: Vec<char> = Vec::new();
    for c in it: s.chars()
        invariant
            v@ == it.seq().take(it.index()),
            it.seq() == s@,
    {
        v.push(c);
        assert(it.seq().take(it.index() + 1) =~= it.seq().take(it.index()).push(c));
    }
    v
}

/// The first index from `from` on at which `c` stands, and `to` if there
/// is none before it.
pub fn find_char(chars: &Vec<char>, from: usize, to: usize, c: char) -> (r: usize)
    requires
        from <= to <= chars@.len(),
    ensures
        from <= r <= to,
        r - from == first_index(chars@.subrange(from as int, to as int), c),
{
    let mut r: usize = from;
    while r < to && chars[r] != c
        invariant
            from <= r <= to <= chars@.len(),
            forall|j: int| from <= j < r ==> #[trigger] chars@[j] != c,
        decreases to - r,
    {
        r += 1;
    }
    proof {
        let sub = chars@.subrange(from as int, to as int);
        assert forall|j: int| 0 <= j < r - from implies #[trigger] sub[j] != c by {
            assert(sub[j] == chars@[from + j]);
        }
        lemma_first_index_is(sub, c, r - from);
    }
    r
}

/// The pieces that the ranges of `ranges` cut out of `chars`.
pub open spec fn pieces(chars: Seq<char>, ranges: Seq<(usize, usize)>) -> Seq<Seq<char>> {
    Seq::new(ranges.len(), |k: int| chars.subrange(ranges[k].0 as int, ranges[k].1 as int))
}

/// The pieces of `chars[from..to]` between the occurrences of `sep`, as
/// index ranges.
pub fn split_ranges(chars: &Vec<char>, from: usize, to: usize, sep: char) -> (r: Vec<
    (usize, usize),
>)
    requires
        from <= to <= chars@.len(),
    ensures
        pieces(chars@, r@) == split(chars@.subrange(from as int, to as int), sep),
        forall|k: int| 0 <= k < r@.len() ==> from <= (#[trigger] r@[k]).0 <= r@[k].1 <= to,
{
    let ghost whole = chars@.subrange(from as int, to as int);
    let mut r: Vec<(usize, usize)> = Vec::new();
    let mut cur: usize = from;
    let mut done: bool = false;
    assert(pieces(chars@, r@) + split(whole, sep) =~= split(whole, sep));
    while !done
        invariant
            from <= cur <= to <= chars@.len(),
            whole == chars@.subrange(from as int, to as int),
            forall|k: int| 0 <= k < r@.len() ==> from <= (#[trigger] r@[k]).0 <= r@[k].1 <= to,
            !done ==> split(whole, sep) == pieces(chars@, r@) + split(
                chars@.subrange(cur as int, to as int),
                sep,
            ),
            done ==> split(whole, sep) == pieces(chars@, r@),
        decreases
                if done {
                    0
                } else {
                    to - cur + 1
                },
    {
        let ghost rest = chars@.subrange(cur as int, to as int);
        let ghost before = pieces(chars@, r@);
        let i: usize = find_char(chars, cur, to, sep);
        r.push((cur, i));
        proof {
            assert(pieces(chars@, r@) =~= before.push(chars@.subrange(cur as int, i as int)));
            assert(rest.take(i - cur) =~= chars@.subrange(cur as int, i as int));
        }
        if i >= to {
            done = true;
            proof {
                assert(rest.take(i - cur) =~= rest);
                assert(before + seq![rest] =~= before.push(rest));
            }
        } else {
            proof {
                assert(rest.skip(i - cur + 1) =~= chars@.subrange(i + 1, to as int));
                assert(before + (seq![rest.take(i - cur)] + split(rest.skip(i - cur + 1), sep))
                    =~= before.push(rest.take(i - cur)) + split(rest.skip(i - cur + 1), sep));
            }
            cur = i + 1;
        }
    }
    r
}

/// Reads `chars[from..to]` as a number of at most `max`, written in
/// digits only.
pub fn read_number(chars: &Vec<char>, from: usize, to: usize, max: u64) -> (r: Option<u64>)
    requires
        from <= to <= chars@.len(),
    ensures
        r is Some <==> parse_nat(chars@.subrange(from as int, to as int), max as nat) is Some,
        r matches Some(v) ==> v == parse_nat(
            chars@.subrange(from as int, to as int),
            max as nat,
        )->0,
{
    let ghost sub = chars@.subrange(from as int, to as int);
    if from == to {
        return None;
    }
    let mut acc: u64 = 0;
    let mut i: usize = from;
    assert(sub.take(0) =~= Seq::<char>::empty());
    while i < to
        invariant
            from <= i <= to <= chars@.len(),
            sub == chars@.subrange(from as int, to as int),
            all_digits(sub.take(i - from)),
            acc == digits_value(sub.take(i - from)),
            acc <= max,
        decreases to - i,
    {
        let c: char = chars[i];
        assert(sub[i - from] == c);
        if !('0' <= c && c <= '9') {
            return None;
        }
        let d: u64 = (c as u32 - '0' as u32) as u64;
        let next: u128 = acc as u128 * 10 + d as u128;
        proof {
            assert(sub.take(i - from + 1).drop_last() =~= sub.take(i - from));
            assert(sub.take(i - from + 1).last() == c);
            assert(next == digits_value(sub.take(i - from + 1)));
            assert forall|j: int| 0 <= j < i - from + 1 implies is_digit(
                #[trigger] sub.take(i - from + 1)[j],
            ) by {
                if j < i - from {
                    assert(sub.take(i - from + 1)[j] == sub.take(i - from)[j]);
                }
            }
        }
        if next > max as u128 {
            proof {
                if all_digits(sub) {
                    lemma_digits_value_monotonic(sub, i - from + 1);
                }
            }
            return None;
        }
        acc = next as u64;
        i += 1;
    }
    assert(sub.take(to - from) =~= sub);
    Some(acc)
}

/// Reads `chars[from..to]` as a number of at most `max`, written in
/// digits with or without a plus sign in front.
pub fn read_count(chars: &Vec<char>, from: usize, to: usize, max: u64) -> (r: Option<u64>)
    requires
        from <= to <= chars@.len(),
    ensures
        r is Some <==> parse_count(chars@.subrange(from as int, to as int), max as nat) is Some,
        r matches Some(v) ==> v == parse_count(
            chars@.subrange(from as int, to as int),
            max as nat,
        )->0,
{
    let ghost sub = chars@.subrange(from as int, to as int);
    if from < to && chars[from] == '+' {
        assert(sub[0] == '+');
        assert(sub.skip(1) =~= chars@.subrange(from + 1, to as int));
        read_number(chars, from + 1, to, max)
    } else {
        if from < to {
            assert(sub[0] == chars@[from as int]);
        }
        read_number(chars, from, to, max)
    }
}

/// The lines of `chars`, as index ranges.
pub fn line_ranges(chars: &Vec<char>) -> (r: Vec<(usize, usize)>)
    ensures
        pieces(chars@, r@) == lines_of(chars@),
        forall|k: int| 0 <= k < r@.len() ==> (#[trigger] r@[k]).0 <= r@[k].1 <= chars@.len(),
{
    let ranges = split_ranges(chars, 0, chars.len(), '\n');
    let ghost parts = split(chars@, '\n');
    proof {
        assert(chars@.subrange(0, chars@.len() as int) =~= chars@);
        lemma_first_index(chars@, '\n');
        assert(pieces(chars@, ranges@).len() == ranges@.len());
    }
    let last: usize = ranges.len() - 1;
    proof {
        assert(pieces(chars@, ranges@)[last as int] == chars@.subrange(
            ranges@[last as int].0 as int,
            ranges@[last as int].1 as int,
        ));
    }
    let count: usize = if ranges[last].0 == ranges[last].1 {
        last
    } else {
        ranges.len()
    };
    let mut r: Vec<(usize, usize)> = Vec::new();
    let mut k: usize = 0;
    while k < count
        invariant
            k <= count <= ranges@.len(),
            last == ranges@.len() - 1,
            parts == pieces(chars@, ranges@),
            forall|j: int|
                0 <= j < ranges@.len() ==> (#[trigger] ranges@[j]).0 <= ranges@[j].1 <= chars@.len(),
            r@.len() == k,
            forall|j: int| 0 <= j < k ==> (#[trigger] r@[j]).0 <= r@[j].1 <= chars@.len(),
            forall|j: int|
                0 <= j < k ==> chars@.subrange((#[trigger] r@[j]).0 as int, r@[j].1 as int)
                    == line_at(parts, j),
        decreases count - k,
    {
        let (from, to) = ranges[k];
        let ghost piece = chars@.subrange(from as int, to as int);
        assert(parts[k as int] == piece);
        if k < last && to > from && chars[to - 1] == '\r' {
            assert(piece.last() == chars@[to - 1]);
            assert(piece.drop_last() =~= chars@.subrange(from as int, to - 1));
            r.push((from, to - 1));
        } else {
            if to > from {
                assert(piece.last() == chars@[to - 1]);
            }
            r.push((from, to));
        }
        k += 1;
    }
    assert(pieces(chars@, r@) =~= lines_of(chars@));
    r
}

/// Whether `chars[from..to]` holds digits only.
pub fn only_digits(chars: &Vec<char>, from: usize, to: usize) -> (r: bool)
    requires
        from <= to <= chars@.len(),
    ensures
        r == all_digits(chars@.subrange(from as int, to as int)),
{
    let ghost sub = chars@.subrange(from as int, to as int);
    let mut i: usize = from;
    while i < to
        invariant
            from <= i <= to <= chars@.len(),
            sub == chars@.subrange(from as int, to as int),
            forall|j: int| 0 <= j < i - from ==> is_digit(#[trigger] sub[j]),
        decreases to - i,
    {
        let c: char = chars[i];
        assert(sub[i - from] == c);
        if !('0' <= c && c <= '9') {
            return false;
        }
        i += 1;
    }
    true
}

/// The first index from `from` on at which an exponent opens, and `to` if
/// there is none before it.
pub fn find_exp_mark(chars: &Vec<char>, from: usize, to: usize) -> (r: usize)
    requires
        from <= to <= chars@.len(),
    ensures
        from <= r <= to,
        r - from == first_exp_mark(chars@.subrange(from as int, to as int)),
{
    let mut r: usize = from;
    while r < to && chars[r] != 'e' && chars[r] != 'E'
        invariant
            from <= r <= to <= chars@.len(),
            forall|j: int| from <= j < r ==> !is_exp_mark(#[trigger] chars@[j]),
        decreases to - r,
    {
        r += 1;
    }
    proof {
        let sub = chars@.subrange(from as int, to as int);
        assert forall|j: int| 0 <= j < r - from implies !is_exp_mark(#[trigger] sub[j]) by {
            assert(sub[j] == chars@[from + j]);
        }
        lemma_first_exp_mark_is(sub, r - from);
    }
    r
}

/// The largest exponent that is told from its neighbours: two to the 70.
/// Larger ones all shift a number out of the range of a rating.
pub const EXPONENT_CAP: i128 = 0x40_0000_0000_0000_0000;

/// `e` held within one step of `EXPONENT_CAP` on either side.
pub open spec fn capped_exponent(e: int) -> int {
    if e > EXPONENT_CAP {
        EXPONENT_CAP + 1
    } else if e < -EXPONENT_CAP {
        -EXPONENT_CAP - 1
    } else {
        e
    }
}

/// Reads `chars[from..to]` as an exponent: digits, with or without a sign
/// in front. An exponent beyond `EXPONENT_CAP` is returned as one step
/// beyond it.
pub fn read_exponent(chars: &Vec<char>, from: usize, to: usize) -> (r: Option<i128>)
    requires
        from <= to <= chars@.len(),
    ensures
        r is Some <==> parse_exponent(chars@.subrange(from as int, to as int)) is Some,
        r matches Some(v) ==> v == capped_exponent(
            parse_exponent(chars@.subrange(from as int, to as int))->0,
        ),
{
    let ghost sub = chars@.subrange(from as int, to as int);
    let signed: bool = from < to && (chars[from] == '-' || chars[from] == '+');
    let negative: bool = signed && chars[from] == '-';
    let start: usize = if signed {
        from + 1
    } else {
        from
    };
    let ghost digits = chars@.subrange(start as int, to as int);
    proof {
        if from < to {
            assert(sub[0] == chars@[from as int]);
        }
        if signed {
            assert(sub.skip(1) =~= digits);
        }
    }
    if start == to {
        assert(digits.len() == 0);
        assert(parse_exponent(sub) is None);
        return None;
    }
    let mut acc: i128 = 0;
    let mut i: usize = start;
    assert(digits.take(0) =~= Seq::<char>::empty());
    while i < to
        invariant
            from <= start <= i <= to <= chars@.len(),
            sub == chars@.subrange(from as int, to as int),
            digits == chars@.subrange(start as int, to as int),
            signed == (sub.len() > 0 && (sub[0] == '-' || sub[0] == '+')),
            signed ==> sub.skip(1) == digits,
            !signed ==> sub == digits,
            all_digits(digits.take(i - start)),
            acc == capped_exponent(digits_value(digits.take(i - start)) as int),
            0 <= acc,
        decreases to - i,
    {
        let c: char = chars[i];
        assert(digits[i - start] == c);
        if !('0' <= c && c <= '9') {
            assert(!is_digit(digits[i - start]));
            return None;
        }
        let d: i128 = (c as u32 - '0' as u32) as i128;
        proof {
            assert(digits.take(i - start + 1).drop_last() =~= digits.take(i - start));
            assert(digits.take(i - start + 1).last() == c);
            assert forall|j: int| 0 <= j < i - start + 1 implies is_digit(
                #[trigger] digits.take(i - start + 1)[j],
            ) by {
                if j < i - start {
                    assert(digits.take(i - start + 1)[j] == digits.take(i - start)[j]);
                }
            }
        }
        let next: i128 = acc * 10 + d;
        acc = if next > EXPONENT_CAP {
            EXPONENT_CAP + 1
        } else {
            next
        };
        i += 1;
    }
    assert(digits.take(to - start) =~= digits);
    if negative {
        Some(-acc)
    } else {
        Some(acc)
    }
}

/// The rating that a number of millionths stands for, where it fits.
pub open spec fn fit(v: nat) -> Option<u64> {
    if fits_rating(v) {
        Some(v as u64)
    } else {
        None
    }
}

/// The number that `digits` stand for, times ten to the `shift`, where it
/// fits a rating.
pub fn scale_digits(digits: &Vec<char>, shift: i128) -> (r: Option<u64>)
    requires
        all_digits(digits@),
    ensures
        r == fit(scale(digits_value(digits@), shift as int)),
{
    let len: usize = digits.len();
    let ghost total = digits_value(digits@);
    proof {
        assert(digits@.subrange(0, len as int) =~= digits@);
        lemma_scale_far(digits@, shift as int);
    }
    if shift >= 0 {
        let start: u64 = if len == 0 {
            0
        } else {
            match read_number(digits, 0, len, 0x8000_0000_0000_0000) {
                Some(v) => v,
                None => {
                    proof {
                        assert(total > 0x8000_0000_0000_0000);
                        lemma_pow10_positive(shift as nat);
                        let p = pow10(shift as nat) as int;
                        let d = total as int;
                        assert(d * p >= d) by (nonlinear_arith)
                            requires
                                d >= 0,
                                p >= 1,
                        ;
                    }
                    return None;
                },
            }
        };
        if start == 0 {
            return Some(0);
        }
        let mut acc: u64 = start;
        let mut i: i128 = 0;
        proof {
            assert(total * 1 == total) by (nonlinear_arith);
        }
        while i < shift
            invariant
                0 <= i <= shift,
                total >= 1,
                total == digits_value(digits@),
                acc == total * pow10(i as nat),
                acc <= 0x8000_0000_0000_0000,
            decreases shift - i,
        {
            proof {
                lemma_pow10_monotonic((i + 1) as nat, shift as nat);
                let d = total as int;
                let here = pow10(i as nat) as int;
                let end = pow10(shift as nat) as int;
                assert(pow10((i + 1) as nat) == 10 * here);
                assert(d * (10 * here) == (d * here) * 10) by (nonlinear_arith);
                assert(d * end >= d * (10 * here)) by (nonlinear_arith)
                    requires
                        d >= 1,
                        end >= 10 * here,
                ;
            }
            if acc > 0x8000_0000_0000_0000 / 10 {
                assert(total * pow10(shift as nat) > 0x8000_0000_0000_0000);
                return None;
            }
            acc = acc * 10;
            i += 1;
        }
        Some(acc)
    } else {
        if shift <= -(len as i128) {
            return Some(0);
        }
        let kept: usize = (len as i128 + shift) as usize;
        proof {
            lemma_digits_value_take(digits@, kept as int);
            assert(digits@.subrange(0, kept as int) =~= digits@.take(kept as int));
            assert forall|j: int| 0 <= j < kept implies is_digit(
                #[trigger] digits@.take(kept as int)[j],
            ) by {
                assert(digits@.take(kept as int)[j] == digits@[j]);
            }
        }
        read_number(digits, 0, kept, 0x8000_0000_0000_0000)
    }
}

/// Appends `chars[from..to]` to `out`.
pub fn copy_chars(out: &mut Vec<char>, chars: &Vec<char>, from: usize, to: usize)
    requires
        from <= to <= chars@.len(),
    ensures
        final(out)@ == old(out)@ + chars@.subrange(from as int, to as int),
{
    let mut i: usize = from;
    assert(chars@.subrange(from as int, from as int) =~= Seq::<char>::empty());
    assert(out@ =~= old(out)@ + chars@.subrange(from as int, from as int));
    while i < to
        invariant
            from <= i <= to <= chars@.len(),
            out@ == old(out)@ + chars@.subrange(from as int, i as int),
        decreases to - i,
    {
        out.push(chars[i]);
        assert(chars@.subrange(from as int, i + 1) =~= chars@.subrange(from as int, i as int).push(
            chars@[i as int],
        ));
        assert(out@ =~= old(out)@ + chars@.subrange(from as int, i + 1));
        i += 1;
    }
}

/// Reads `chars[from..to]` as a number of millionths: digits with or
/// without a point and an exponent, where it fits a rating.
pub fn read_magnitude(chars: &Vec<char>, from: usize, to: usize) -> (r: Option<u64>)
    requires
        from <= to <= chars@.len(),
    ensures
        r == match parse_magnitude(chars@.subrange(from as int, to as int)) {
            Some(m) => fit(m),
            None => None,
        },
{
    let ghost body = chars@.subrange(from as int, to as int);
    let mark: usize = find_exp_mark(chars, from, to);
    let ghost mantissa = chars@.subrange(from as int, mark as int);
    let dot: usize = find_char(chars, from, mark, '.');
    let ghost whole = chars@.subrange(from as int, dot as int);
    let frac_from: usize = if dot < mark {
        dot + 1
    } else {
        mark
    };
    let ghost frac = chars@.subrange(frac_from as int, mark as int);
    proof {
        assert(body.take(mark - from) =~= mantissa);
        if mark < to {
            assert(body.skip(mark - from + 1) =~= chars@.subrange(mark + 1, to as int));
        }
        assert(mantissa.take(dot - from) =~= whole);
        if dot < mark {
            assert(mantissa.skip(dot - from + 1) =~= frac);
        } else {
            assert(frac =~= Seq::<char>::empty());
        }
    }
    if !only_digits(chars, from, dot) || !only_digits(chars, frac_from, mark) {
        return None;
    }
    if (dot - from) + (mark - frac_from) == 0 {
        return None;
    }
    let exponent: i128 = if mark < to {
        match read_exponent(chars, mark + 1, to) {
            Some(e) => e,
            None => {
                return None;
            },
        }
    } else {
        0
    };
    let mut digits: Vec<char> = Vec::new();
    copy_chars(&mut digits, chars, from, dot);
    copy_chars(&mut digits, chars, frac_from, mark);
    let places: usize = mark - frac_from;
    let shift: i128 = exponent + 6 - places as i128;
    proof {
        assert(digits@ =~= whole + frac);
        let e = if mark < to {
            parse_exponent(chars@.subrange(mark + 1, to as int))->0
        } else {
            0int
        };
        let true_shift = e + 6 - frac.len();
        assert(parse_magnitude(body) == Some(scale(digits_value(digits@), true_shift)));
        lemma_scale_far(digits@, true_shift);
        lemma_scale_far(digits@, shift as int);
        if e != exponent {
            if digits_value(digits@) > 0 && e > 0 {
                assert(!fits_rating(scale(digits_value(digits@), true_shift)));
                assert(!fits_rating(scale(digits_value(digits@), shift as int)));
            }
        }
    }
    scale_digits(&digits, shift)
}

/// Reads `chars[from..to]` as a rating: a decimal number of rating
/// points with or without a sign and an exponent, taken to millionths.
pub fn read_elo(chars: &Vec<char>, from: usize, to: usize) -> (r: Option<i64>)
    requires
        from <= to <= chars@.len(),
    ensures
        r is Some <==> parse_elo(chars@.subrange(from as int, to as int)) is Some,
        r matches Some(v) ==> v == parse_elo(chars@.subrange(from as int, to as int))->0,
{
    let ghost text = chars@.subrange(from as int, to as int);
    let signed: bool = from < to && (chars[from] == '-' || chars[from] == '+');
    let negative: bool = signed && chars[from] == '-';
    let start: usize = if signed {
        from + 1
    } else {
        from
    };
    proof {
        if from < to {
            assert(text[0] == chars@[from as int]);
        }
        if signed {
            assert(text.skip(1) =~= chars@.subrange(start as int, to as int));
        }
    }
    let magnitude: u64 = match read_magnitude(chars, start, to) {
        Some(v) => v,
        None => {
            return None;
        },
    };
    if negative {
        if magnitude == 0x8000_0000_0000_0000 {
            Some(i64::MIN)
        } else {
            Some(-(magnitude as i64))
        }
    } else {
        if magnitude > 0x7fff_ffff_ffff_ffff {
            None
        } else {
            Some(magnitude as i64)
        }
    }
}

/// Reads `chars[from..to]` as a flag: `true` or `false`.
pub fn read_flag(chars: &Vec<char>, from: usize, to: usize) -> (r: Option<bool>)
    requires
        from <= to <= chars@.len(),
    ensures
        r == parse_flag(chars@.subrange(from as int, to as int)),
{
    let ghost sub = chars@.subrange(from as int, to as int);
    assert(format_flag(true).len() == 4 && format_flag(false).len() == 5);
    assert(format_flag(true)[0] == 't' && format_flag(true)[1] == 'r' && format_flag(true)[2] == 'u'
        && format_flag(true)[3] == 'e');
    assert(format_flag(false)[0] == 'f' && format_flag(false)[1] == 'a' && format_flag(false)[2]
        == 'l' && format_flag(false)[3] == 's' && format_flag(false)[4] == 'e');
    if to - from == 4 {
        if chars[from] == 't' && chars[from + 1] == 'r' && chars[from + 2] == 'u' && chars[from + 3]
            == 'e' {
            assert(sub =~= format_flag(true));
            return Some(true);
        }
        assert(sub[0] == chars@[from as int] && sub[1] == chars@[from + 1] && sub[2] == chars@[from
            + 2] && sub[3] == chars@[from + 3]);
        None
    } else if to - from == 5 {
        if chars[from] == 'f' && chars[from + 1] == 'a' && chars[from + 2] == 'l' && chars[from + 3]
            == 's' && chars[from + 4] == 'e' {
            assert(sub =~= format_flag(false));
            return Some(false);
        }
        assert(sub[0] == chars@[from as int] && sub[1] == chars@[from + 1] && sub[2] == chars@[from
            + 2] && sub[3] == chars@[from + 3] && sub[4] == chars@[from + 4]);
        None
    } else {
        None
    }
}

/// Reads the line `contents[from..to]`, of which `chars` holds the
/// characters, as a record.
pub fn read_record(contents: &str, chars: &Vec<char>, from: usize, to: usize) -> (r: Option<
    AgentTournament,
>)
    requires
        chars@ == contents@,
        from <= to <= chars@.len(),
    ensures
        r is Some <==> parse_record(chars@.subrange(from as int, to as int)) is Some,
        r matches Some(record) ==> record@ == parse_record(
            chars@.subrange(from as int, to as int),
        )->0,
{
    let ghost line = chars@.subrange(from as int, to as int);
    let parts = split_ranges(chars, from, to, ';');
    proof {
        assert(pieces(chars@, parts@).len() == parts@.len());
        assert forall|k: int| 0 <= k < parts@.len() implies split(line, ';')[k] == chars@.subrange(
            parts@[k].0 as int,
            parts@[k].1 as int,
        ) by {
            assert(pieces(chars@, parts@)[k] == chars@.subrange(
                parts@[k].0 as int,
                parts@[k].1 as int,
            ));
        }
    }
    if parts.len() < 3 {
        return None;
    }
    let iteration: u64 = match read_count(chars, parts[0].0, parts[0].1, 0xffff_ffff) {
        Some(v) => v,
        None => {
            return None;
        },
    };
    let elo: i64 = match read_elo(chars, parts[1].0, parts[1].1) {
        Some(v) => v,
        None => {
            return None;
        },
    };
    let hands_played: u64 = if parts.len() > 3 {
        match read_count(chars, parts[3].0, parts[3].1, usize::MAX as u64) {
            Some(v) => v,
            None => {
                return None;
            },
        }
    } else {
        0
    };
    let over_max_rating: bool = if parts.len() > 4 {
        match read_flag(chars, parts[4].0, parts[4].1) {
            Some(v) => v,
            None => {
                return None;
            },
        }
    } else {
        false
    };
    let network_file: String = contents.substring_char(parts[2].0, parts[2].1).to_owned();
    Some(
        AgentTournament {
            network_file,
            elo,
            iteration: iteration as u32,
            hands_played: hands_played as usize,
            over_max_rating,
        },
    )
}

impl Tournament {
    /// Reads a rating table from its text and adds its records to the
    /// roster, in the order of the lines. A text with a malformed line is
    /// refused as a whole, and the roster stays as it is.
    pub fn load_state(&mut self, contents: &str) -> (res: Result<(), PersistenceError>)
        ensures
            final(self).player_count == old(self).player_count,
            final(self).action_config == old(self).action_config,
            res is Ok <==> parse_state(contents@) is Some,
            res is Ok ==> final(self).roster() == old(self).roster() + parse_state(contents@)->0,
            res is Err ==> final(self).roster() == old(self).roster(),
            res matches Err(e) ==> e == (PersistenceError::MalformedRecord {
                line: first_malformed(lines_of(contents@)) as usize,
            }),
    {
        let chars = chars_of(contents);
        let ranges = line_ranges(&chars);
        let ghost lines = lines_of(contents@);
        let count: usize = ranges.len();
        proof {
            assert(pieces(chars@, ranges@).len() == ranges@.len());
            assert forall|j: int| 0 <= j < count implies #[trigger] lines[j] == chars@.subrange(
                ranges@[j].0 as int,
                ranges@[j].1 as int,
            ) by {
                assert(pieces(chars@, ranges@)[j] == chars@.subrange(
                    ranges@[j].0 as int,
                    ranges@[j].1 as int,
                ));
            }
        }
        let mut loaded: Vec<AgentTournament> = Vec::new();
        let mut k: usize = 0;
        while k < count
            invariant
                k <= count <= ranges@.len(),
                chars@ == contents@,
                lines == lines_of(contents@),
                lines.len() == count,
                forall|j: int|
                    0 <= j < count ==> #[trigger] lines[j] == chars@.subrange(
                        ranges@[j].0 as int,
                        ranges@[j].1 as int,
                    ),
                forall|j: int|
                    0 <= j < ranges@.len() ==> (#[trigger] ranges@[j]).0 <= ranges@[j].1
                        <= chars@.len(),
                loaded@.len() == k,
                forall|j: int| 0 <= j < k ==> parse_record(#[trigger] lines[j]) == Some(loaded@[j]@),
            decreases count - k,
        {
            match read_record(contents, &chars, ranges[k].0, ranges[k].1) {
                Some(record) => {
                    loaded.push(record);
                },
                None => {
                    proof {
                        lemma_first_malformed(lines);
                        let f = first_malformed(lines);
                        if f < k {
                            assert(parse_record(lines[f]) is Some);
                        } else if f > k {
                            assert(parse_record(lines[k as int]) is Some);
                        }
                    }
                    return Err(PersistenceError::MalformedRecord { line: k });
                },
            }
            k += 1;
        }
        proof {
            lemma_first_malformed(lines);
            let f = first_malformed(lines);
            if f < lines.len() {
                assert(parse_record(lines[f]) is Some);
            }
            assert(records_of(loaded@) =~= parse_state(contents@)->0);
        }
        let ghost added = records_of(loaded@);
        self.agents.append(&mut loaded);
        assert(self.roster() =~= old(self).roster() + added);
        Ok(())
    }
}

} // verus!
