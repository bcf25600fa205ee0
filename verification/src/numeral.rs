//! Which texts are numerals of floating-point numbers.

use vstd::prelude::*;
use vstd::slice::slice_subrange;

verus! {

/// Nothing but decimal digits.
pub open spec fn all_digits(s: Seq<char>) -> bool {
    forall|i: int| 0 <= i < s.len() ==> '0' <= #[trigger] s[i] <= '9'
}

/// The text without a sign in front.
pub open spec fn unsigned(s: Seq<char>) -> Seq<char> {
    if s.len() > 0 && (s[0] == '+' || s[0] == '-') {
        s.skip(1)
    } else {
        s
    }
}

/// Digits, with a point before, between or behind them, or without one.
pub open spec fn mantissa(s: Seq<char>) -> bool {
    ||| s.len() > 0 && all_digits(s)
    ||| s.len() > 1 && exists|point: int|
        0 <= point < s.len() && #[trigger] s[point] == '.' && all_digits(s.take(point))
            && all_digits(s.skip(point + 1))
}

/// Digits, with a sign or without one.
pub open spec fn exponent(s: Seq<char>) -> bool {
    unsigned(s).len() > 0 && all_digits(unsigned(s))
}

/// A mantissa, with an exponent behind the letter e or without one.
pub open spec fn plain_number(s: Seq<char>) -> bool {
    ||| mantissa(s)
    ||| exists|e: int|
        0 <= e < s.len() && (#[trigger] s[e] == 'e' || s[e] == 'E') && mantissa(s.take(e))
            && exponent(s.skip(e + 1))
}

/// The letters of a lower-case word, each in either case.
pub open spec fn same_word(s: Seq<char>, word: Seq<char>) -> bool {
    &&& s.len() == word.len()
    &&& forall|i: int|
        0 <= i < s.len() ==> #[trigger] s[i] == word[i] || s[i] as int + 32 == word[i] as int
}

/// The numeral of a floating-point number: a sign or none, then a number, or the word for
/// infinity or for no number at all.
pub open spec fn float(s: Seq<char>) -> bool {
    let u = unsigned(s);
    ||| plain_number(u)
    ||| same_word(u, seq!['i', 'n', 'f'])
    ||| same_word(u, seq!['i', 'n', 'f', 'i', 'n', 'i', 't', 'y'])
    ||| same_word(u, seq!['n', 'a', 'n'])
}

/// How many digits the text starts with.
fn leading_digits(s: &[char]) -> (n: usize)
    ensures
        n <= s@.len(),
        all_digits(s@.take(n as int)),
        n < s@.len() ==> !('0' <= s@[n as int] <= '9'),
{
    let mut n: usize = 0;
    while n < s.len() && '0' <= s[n] && s[n] <= '9'
        invariant
            n <= s@.len(),
            all_digits(s@.take(n as int)),
        decreases s@.len() - n,
    {
        assert(s@.take(n + 1) == s@.take(n as int).push(s@[n as int]));
        n += 1;
    }
    n
}

fn is_all_digits(s: &[char]) -> (r: bool)
    ensures
        r == all_digits(s@),
{
    let n = leading_digits(s);
    assert(n == s@.len() ==> s@.take(n as int) == s@);
    n == s.len()
}

fn without_sign(s: &[char]) -> (r: &[char])
    ensures
        r@ == unsigned(s@),
{
    if s.len() > 0 && (s[0] == '+' || s[0] == '-') {
        slice_subrange(s, 1, s.len())
    } else {
        s
    }
}

fn is_mantissa(s: &[char]) -> (r: bool)
    ensures
        r == mantissa(s@),
{
    let n = leading_digits(s);
    if n == s.len() {
        assert(s@.take(n as int) == s@);
        assert forall|point: int| 0 <= point < s@.len() implies s@[point] != '.' by {
            assert(s@.take(n as int)[point] == s@[point]);
        }
        return n > 0;
    }
    assert(!all_digits(s@));
    assert forall|point: int|
        0 <= point < s@.len() && s@[point] == '.' && all_digits(s@.take(point)) implies point
        == n by {
        if point < n {
            assert(s@.take(n as int)[point] == s@[point]);
        } else if n < point {
            assert(s@.take(point)[n as int] == s@[n as int]);
        }
    }
    if s[n] != '.' {
        return false;
    }
    s.len() > 1 && is_all_digits(slice_subrange(s, n + 1, s.len()))
}

fn is_exponent(s: &[char]) -> (r: bool)
    ensures
        r == exponent(s@),
{
    let u = without_sign(s);
    u.len() > 0 && is_all_digits(u)
}

/// A mantissa holds no letter.
proof fn lemma_mantissa(s: Seq<char>, i: int)
    requires
        mantissa(s),
        0 <= i < s.len(),
    ensures
        s[i] != 'e',
        s[i] != 'E',
{
    if !all_digits(s) {
        let point = choose|point: int|
            0 <= point < s.len() && #[trigger] s[point] == '.' && all_digits(s.take(point))
                && all_digits(s.skip(point + 1));
        if i < point {
            assert(s.take(point)[i] == s[i]);
        } else if point < i {
            assert(s.skip(point + 1)[i - point - 1] == s[i]);
        }
    }
}

fn is_plain_number(s: &[char]) -> (r: bool)
    ensures
        r == plain_number(s@),
{
    let mut e: usize = 0;
    while e < s.len() && s[e] != 'e' && s[e] != 'E'
        invariant
            e <= s@.len(),
            forall|i: int| 0 <= i < e ==> #[trigger] s@[i] != 'e' && s@[i] != 'E',
        decreases s@.len() - e,
    {
        e += 1;
    }
    if e == s.len() {
        return is_mantissa(s);
    }
    proof {
        if mantissa(s@) {
            lemma_mantissa(s@, e as int);
        }
        assert forall|k: int|
            0 <= k < s@.len() && (s@[k] == 'e' || s@[k] == 'E') && mantissa(
                s@.take(k),
            ) implies k == e by {
            if e < k {
                lemma_mantissa(s@.take(k), e as int);
                assert(s@.take(k)[e as int] == s@[e as int]);
            }
        }
    }
    is_mantissa(slice_subrange(s, 0, e)) && is_exponent(slice_subrange(s, e + 1, s.len()))
}

/// Whether the characters are those of a lower-case word, each in either case.
fn is_word(s: &[char], word: &[char]) -> (r: bool)
    requires
        forall|i: int| 0 <= i < word@.len() ==> 'a' <= #[trigger] word@[i] <= 'z',
    ensures
        r == same_word(s@, word@),
{
    if s.len() != word.len() {
        return false;
    }
    for i in 0..s.len()
        invariant
            s@.len() == word@.len(),
            forall|i: int| 0 <= i < word@.len() ==> 'a' <= #[trigger] word@[i] <= 'z',
            forall|k: int|
                0 <= k < i ==> #[trigger] s@[k] == word@[k] || s@[k] as int + 32 == word@[k] as int,
    {
        let c = s[i];
        let w = word[i];
        if !(c == w || 'A' <= c && c <= 'Z' && (c as u32) + 32 == w as u32) {
            return false;
        }
    }
    true
}

/// Whether the characters are those of the numeral of a floating-point number.
pub fn is_float(s: &[char]) -> (r: bool)
    ensures
        r == float(s@),
{
    let u = without_sign(s);
    let inf: [char; 3] = ['i', 'n', 'f'];
    let infinity: [char; 8] = ['i', 'n', 'f', 'i', 'n', 'i', 't', 'y'];
    let nan: [char; 3] = ['n', 'a', 'n'];
    assert(inf@ =~= seq!['i', 'n', 'f']);
    assert(infinity@ =~= seq!['i', 'n', 'f', 'i', 'n', 'i', 't', 'y']);
    assert(nan@ =~= seq!['n', 'a', 'n']);
    is_plain_number(u) || is_word(u, &inf) || is_word(u, &infinity) || is_word(u, &nan)
}

/// A sign, or none.
pub open spec fn sign_or_none(s: Seq<char>) -> bool {
    s.len() == 0 || s == seq!['+'] || s == seq!['-']
}

proof fn lemma_unsigned(sign: Seq<char>, body: Seq<char>)
    requires
        sign_or_none(sign),
        body.len() > 0 ==> body[0] != '+' && body[0] != '-',
    ensures
        unsigned(sign + body) == body,
{
    if sign.len() == 0 {
        assert(sign + body =~= body);
    } else {
        assert((sign + body).skip(1) =~= body);
    }
}

proof fn lemma_point(whole: Seq<char>, fraction: Seq<char>)
    requires
        all_digits(whole),
        all_digits(fraction),
        whole.len() + fraction.len() > 0,
    ensures
        mantissa(whole.push('.') + fraction),
{
    let s = whole.push('.') + fraction;
    let point = whole.len() as int;
    assert(s[point] == '.');
    assert(s.take(point) =~= whole);
    assert(s.skip(point + 1) =~= fraction);
}

proof fn lemma_exponent(front: Seq<char>, mark: char, sign: Seq<char>, digits: Seq<char>)
    requires
        mantissa(front),
        mark == 'e' || mark == 'E',
        sign_or_none(sign),
        all_digits(digits),
        digits.len() > 0,
    ensures
        plain_number(front.push(mark) + sign + digits),
{
    let s = front.push(mark) + sign + digits;
    let e = front.len() as int;
    assert('0' <= digits[0] <= '9');
    lemma_unsigned(sign, digits);
    assert(s[e] == mark);
    assert(s.take(e) =~= front);
    assert(s.skip(e + 1) =~= sign + digits);
}

/// A number can be written with a sign or without, with digits on either side of a point or without
/// a point, and with an exponent behind the letter e or without one. `whole` and `fraction` are the
/// digits before and behind the point.
pub proof fn numbers_are_numerals(
    sign: Seq<char>,
    whole: Seq<char>,
    fraction: Seq<char>,
    mark: char,
    exponent_sign: Seq<char>,
    power: Seq<char>,
)
    requires
        sign_or_none(sign),
        sign_or_none(exponent_sign),
        mark == 'e' || mark == 'E',
        forall|i: int| 0 <= i < whole.len() ==> '0' <= #[trigger] whole[i] <= '9',
        forall|i: int| 0 <= i < fraction.len() ==> '0' <= #[trigger] fraction[i] <= '9',
        forall|i: int| 0 <= i < power.len() ==> '0' <= #[trigger] power[i] <= '9',
        whole.len() + fraction.len() > 0,
        power.len() > 0,
    ensures
        whole.len() > 0 ==> float(sign + whole),
        whole.len() > 0 ==> float(sign + (whole.push(mark) + exponent_sign + power)),
        float(sign + (whole.push('.') + fraction)),
        float(sign + ((whole.push('.') + fraction).push(mark) + exponent_sign + power)),
{
    let pointed = whole.push('.') + fraction;
    lemma_point(whole, fraction);
    lemma_exponent(pointed, mark, exponent_sign, power);
    if whole.len() > 0 {
        assert('0' <= whole[0] <= '9');
        assert(mantissa(whole));
        lemma_exponent(whole, mark, exponent_sign, power);
        lemma_unsigned(sign, whole);
        let body = whole.push(mark) + exponent_sign + power;
        assert(body[0] == whole[0]);
        lemma_unsigned(sign, body);
        assert(pointed[0] == whole[0]);
    } else {
        assert(pointed[0] == '.');
    }
    lemma_unsigned(sign, pointed);
    let body = pointed.push(mark) + exponent_sign + power;
    assert(body[0] == pointed[0]);
    lemma_unsigned(sign, body);
}

/// The words for infinity and for no number are numerals too, in capitals or not, with a sign or
/// without.
pub proof fn words_are_numerals(sign: Seq<char>, word: Seq<char>)
    requires
        sign_or_none(sign),
        is_number_word(word),
    ensures
        float(sign + word),
{
    lemma_unsigned(sign, word);
}

/// The letter, or its capital.
pub open spec fn letter(c: char, lower: char, upper: char) -> bool {
    c == lower || c == upper
}

/// One of the words for infinity and for no number, in capitals or not.
pub open spec fn is_number_word(w: Seq<char>) -> bool {
    ||| w.len() == 3 && letter(w[0], 'i', 'I') && letter(w[1], 'n', 'N') && letter(w[2], 'f', 'F')
    ||| w.len() == 3 && letter(w[0], 'n', 'N') && letter(w[1], 'a', 'A') && letter(w[2], 'n', 'N')
    ||| w.len() == 8 && letter(w[0], 'i', 'I') && letter(w[1], 'n', 'N') && letter(w[2], 'f', 'F')
        && letter(w[3], 'i', 'I') && letter(w[4], 'n', 'N') && letter(w[5], 'i', 'I') && letter(
        w[6],
        't',
        'T',
    ) && letter(w[7], 'y', 'Y')
}

/// The parts of a numeral: its sign, the digits before the point, whether there is a point, the
/// digits behind it, and what stands behind the letter e, with that letter.
pub struct Parts {
    pub sign: Seq<char>,
    pub whole: Seq<char>,
    pub fraction: Option<Seq<char>>,
    pub power: Option<(char, Seq<char>, Seq<char>)>,
}

/// The numeral that is made of the parts.
pub open spec fn made_of(p: Parts) -> Seq<char> {
    p.sign + p.whole + (match p.fraction {
        Some(f) => seq!['.'] + f,
        None => Seq::empty(),
    }) + (match p.power {
        Some((mark, sign, digits)) => seq![mark] + sign + digits,
        None => Seq::empty(),
    })
}

proof fn lemma_sign_of(s: Seq<char>) -> (sign: Seq<char>)
    ensures
        sign_or_none(sign),
        s == sign + unsigned(s),
{
    if s.len() > 0 && (s[0] == '+' || s[0] == '-') {
        let sign = seq![s[0]];
        assert(s =~= sign + s.skip(1));
        sign
    } else {
        assert(s =~= Seq::<char>::empty() + s);
        Seq::empty()
    }
}

proof fn lemma_mantissa_parts(s: Seq<char>) -> (r: (Seq<char>, Option<Seq<char>>))
    requires
        mantissa(s),
    ensures
        all_digits(r.0),
        r.1 matches Some(f) ==> all_digits(f) && r.0.len() + f.len() > 0 && s == r.0 + (seq!['.']
            + f),
        r.1 is None ==> r.0.len() > 0 && s == r.0,
{
    if s.len() > 0 && all_digits(s) {
        (s, None)
    } else {
        let point = choose|point: int|
            0 <= point < s.len() && #[trigger] s[point] == '.' && all_digits(s.take(point))
                && all_digits(s.skip(point + 1));
        assert(s =~= s.take(point) + (seq!['.'] + s.skip(point + 1)));
        (s.take(point), Some(s.skip(point + 1)))
    }
}

/// What a numeral has behind its whole digits: the point and what follows it.
spec fn behind_whole(fraction: Option<Seq<char>>) -> Seq<char> {
    match fraction {
        Some(f) => seq!['.'] + f,
        None => Seq::empty(),
    }
}

proof fn lemma_made_plain(sign: Seq<char>, whole: Seq<char>, fraction: Option<Seq<char>>, u: Seq<char>)
    requires
        u == whole + behind_whole(fraction),
    ensures
        made_of(Parts { sign, whole, fraction, power: None }) == sign + u,
{
    assert(sign + whole + behind_whole(fraction) + Seq::<char>::empty() =~= sign + (whole
        + behind_whole(fraction)));
}

proof fn lemma_made_with_power(
    sign: Seq<char>,
    whole: Seq<char>,
    fraction: Option<Seq<char>>,
    mark: char,
    power_sign: Seq<char>,
    digits: Seq<char>,
    front: Seq<char>,
)
    requires
        front == whole + behind_whole(fraction),
    ensures
        made_of(Parts { sign, whole, fraction, power: Some((mark, power_sign, digits)) }) == sign + (
        front + (seq![mark] + power_sign + digits)),
{
    let end = seq![mark] + power_sign + digits;
    assert(sign + whole + behind_whole(fraction) + end =~= sign + ((whole + behind_whole(fraction))
        + end));
}

/// A numeral is one of these words, or made of these parts, and nothing else is one.
pub proof fn numerals_are_numbers(s: Seq<char>) -> (p: Parts)
    requires
        float(s),
    ensures
        sign_or_none(p.sign),
        (s.len() >= p.sign.len() && s.take(p.sign.len() as int) == p.sign && is_number_word(
            s.skip(p.sign.len() as int),
        )) || {
            &&& s == made_of(p)
            &&& forall|i: int| 0 <= i < p.whole.len() ==> '0' <= #[trigger] p.whole[i] <= '9'
            &&& p.fraction matches Some(f) ==> {
                &&& forall|i: int| 0 <= i < f.len() ==> '0' <= #[trigger] f[i] <= '9'
                &&& p.whole.len() + f.len() > 0
            }
            &&& p.fraction is None ==> p.whole.len() > 0
            &&& p.power matches Some((mark, sign, digits)) ==> {
                &&& mark == 'e' || mark == 'E'
                &&& sign_or_none(sign)
                &&& digits.len() > 0
                &&& forall|i: int| 0 <= i < digits.len() ==> '0' <= #[trigger] digits[i] <= '9'
            }
        },
{
    let u = unsigned(s);
    let sign = lemma_sign_of(s);
    let nothing = Seq::<char>::empty();
    if plain_number(u) {
        if mantissa(u) {
            let (whole, fraction) = lemma_mantissa_parts(u);
            let p = Parts { sign, whole, fraction, power: None };
            assert(u =~= whole + behind_whole(fraction));
            lemma_made_plain(sign, whole, fraction, u);
            p
        } else {
            let e = choose|e: int|
                0 <= e < u.len() && (#[trigger] u[e] == 'e' || u[e] == 'E') && mantissa(u.take(e))
                    && exponent(u.skip(e + 1));
            let (whole, fraction) = lemma_mantissa_parts(u.take(e));
            let rest = u.skip(e + 1);
            let power_sign = lemma_sign_of(rest);
            let p = Parts {
                sign,
                whole,
                fraction,
                power: Some((u[e], power_sign, unsigned(rest))),
            };
            let front = u.take(e);
            assert(front =~= whole + behind_whole(fraction));
            assert(u =~= front + (seq![u[e]] + rest));
            assert(seq![u[e]] + rest =~= seq![u[e]] + power_sign + unsigned(rest));
            lemma_made_with_power(
                sign,
                whole,
                fraction,
                u[e],
                power_sign,
                unsigned(rest),
                front,
            );
            p
        }
    } else {
        assert(s.take(sign.len() as int) =~= sign);
        assert(s.skip(sign.len() as int) =~= u);
        lemma_words(u);
        Parts { sign, whole: nothing, fraction: None, power: None }
    }
}

proof fn lemma_words(u: Seq<char>)
    requires
        same_word(u, seq!['i', 'n', 'f']) || same_word(
            u,
            seq!['i', 'n', 'f', 'i', 'n', 'i', 't', 'y'],
        ) || same_word(u, seq!['n', 'a', 'n']),
    ensures
        is_number_word(u),
{
    if same_word(u, seq!['i', 'n', 'f']) {
        let w = seq!['i', 'n', 'f'];
        assert(u[0] == w[0] || u[0] as int + 32 == w[0] as int);
        assert(u[1] == w[1] || u[1] as int + 32 == w[1] as int);
        assert(u[2] == w[2] || u[2] as int + 32 == w[2] as int);
    } else if same_word(u, seq!['n', 'a', 'n']) {
        let w = seq!['n', 'a', 'n'];
        assert(u[0] == w[0] || u[0] as int + 32 == w[0] as int);
        assert(u[1] == w[1] || u[1] as int + 32 == w[1] as int);
        assert(u[2] == w[2] || u[2] as int + 32 == w[2] as int);
    } else {
        let w = seq!['i', 'n', 'f', 'i', 'n', 'i', 't', 'y'];
        assert(u[0] == w[0] || u[0] as int + 32 == w[0] as int);
        assert(u[1] == w[1] || u[1] as int + 32 == w[1] as int);
        assert(u[2] == w[2] || u[2] as int + 32 == w[2] as int);
        assert(u[3] == w[3] || u[3] as int + 32 == w[3] as int);
        assert(u[4] == w[4] || u[4] as int + 32 == w[4] as int);
        assert(u[5] == w[5] || u[5] as int + 32 == w[5] as int);
        assert(u[6] == w[6] || u[6] as int + 32 == w[6] as int);
        assert(u[7] == w[7] || u[7] as int + 32 == w[7] as int);
    }
}

/// A character that stands in numerals.
pub open spec fn numeral_char(c: char) -> bool {
    ||| '0' <= c <= '9'
    ||| 'a' <= c <= 'z'
    ||| 'A' <= c <= 'Z'
    ||| c == '+'
    ||| c == '-'
    ||| c == '.'
}

/// A numeral is not empty, and made of digits, letters, signs and points.
pub proof fn numerals_are_made_of_digits_and_letters(s: Seq<char>)
    requires
        float(s),
    ensures
        s.len() > 0,
        forall|i: int| 0 <= i < s.len() ==> numeral_char(#[trigger] s[i]),
{
    let p = numerals_are_numbers(s);
    let n = p.sign.len() as int;
    if s.len() >= n && s.take(n) == p.sign && is_number_word(s.skip(n)) {
        let w = s.skip(n);
        assert forall|i: int| 0 <= i < s.len() implies numeral_char(#[trigger] s[i]) by {
            if i < n {
                assert(s.take(n)[i] == s[i]);
            } else {
                assert(w[i - n] == s[i]);
                lemma_word_chars(w, i - n);
            }
        }
    } else {
        let a = p.sign + p.whole;
        let b = a + (match p.fraction {
            Some(f) => seq!['.'] + f,
            None => Seq::empty(),
        });
        assert forall|i: int| 0 <= i < a.len() implies numeral_char(#[trigger] a[i]) by {
            if i >= p.sign.len() {
                assert(a[i] == p.whole[i - p.sign.len()]);
            }
        }
        assert forall|i: int| 0 <= i < b.len() implies numeral_char(#[trigger] b[i]) by {
            if i < a.len() {
                assert(b[i] == a[i]);
            } else if i > a.len() {
                let f = p.fraction->0;
                assert(b[i] == f[i - a.len() - 1]);
            }
        }
        assert forall|i: int| 0 <= i < s.len() implies numeral_char(#[trigger] s[i]) by {
            if i < b.len() {
                assert(s[i] == b[i]);
            } else {
                let (mark, sign, digits) = p.power->0;
                let k = i - b.len();
                if k > sign.len() {
                    assert(s[i] == digits[k - 1 - sign.len()]);
                } else if k > 0 {
                    assert(s[i] == sign[k - 1]);
                }
            }
        }
    }
}

proof fn lemma_word_chars(w: Seq<char>, i: int)
    requires
        is_number_word(w),
        0 <= i < w.len(),
    ensures
        numeral_char(w[i]),
{
}

}
