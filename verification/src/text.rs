//! Text as sequences of characters: white space, trimming, splitting, searching, joining and
//! decimal numerals.

use vstd::prelude::*;
use vstd::slice::slice_subrange;

verus! {

/// `String::push`: the character is added at the end.
pub assume_specification[ String::push ](s: &mut String, c: char)
    ensures
        final(s)@ == old(s)@.push(c),
;

/// The characters with Unicode's `White_Space` property.
pub open spec fn white(c: char) -> bool {
    ||| '\u{9}' <= c <= '\u{d}'
    ||| c == ' '
    ||| c == '\u{85}'
    ||| c == '\u{a0}'
    ||| c == '\u{1680}'
    ||| '\u{2000}' <= c <= '\u{200a}'
    ||| c == '\u{2028}'
    ||| c == '\u{2029}'
    ||| c == '\u{202f}'
    ||| c == '\u{205f}'
    ||| c == '\u{3000}'
}

/// Nothing but white space.
pub open spec fn blank(s: Seq<char>) -> bool {
    forall|i: int| 0 <= i < s.len() ==> white(#[trigger] s[i])
}

/// `s` without its leading white space.
pub open spec fn trimmed_start(s: Seq<char>) -> Seq<char>
    decreases s.len(),
{
    if s.len() > 0 && white(s[0]) {
        trimmed_start(s.skip(1))
    } else {
        s
    }
}

/// `s` without its trailing white space.
pub open spec fn trimmed_end(s: Seq<char>) -> Seq<char>
    decreases s.len(),
{
    if s.len() > 0 && white(s.last()) {
        trimmed_end(s.drop_last())
    } else {
        s
    }
}

/// `s` without the white space at either end.
pub open spec fn trimmed(s: Seq<char>) -> Seq<char> {
    trimmed_end(trimmed_start(s))
}

/// The pieces of `s` between separators. There is always one piece more than there are
/// separators: each separator starts a new piece, every other character extends the last one.
pub open spec fn pieces(s: Seq<char>, separators: Seq<char>) -> Seq<Seq<char>>
    decreases s.len(),
{
    if s.len() == 0 {
        seq![Seq::empty()]
    } else {
        let before = pieces(s.drop_last(), separators);
        if separators.contains(s.last()) {
            before.push(Seq::empty())
        } else {
            before.drop_last().push(before.last().push(s.last()))
        }
    }
}

/// `part` stands in `s` at `at`.
pub open spec fn occurs_at(s: Seq<char>, part: Seq<char>, at: int) -> bool {
    0 <= at <= s.len() - part.len() && s.subrange(at, at + part.len()) == part
}

/// `part` stands somewhere in `s`.
pub open spec fn occurs(s: Seq<char>, part: Seq<char>) -> bool {
    exists|at: int| occurs_at(s, part, at)
}

/// The first place where `part` stands in `s`.
pub open spec fn first_at(s: Seq<char>, part: Seq<char>, at: int) -> bool {
    &&& occurs_at(s, part, at)
    &&& forall|k: int| 0 <= k < at ==> !occurs_at(s, part, k)
}

/// The text of `s` before the first `part`; all of `s` where there is none.
pub open spec fn before_first(s: Seq<char>, part: Seq<char>) -> Seq<char> {
    if occurs(s, part) {
        s.take(choose|at: int| first_at(s, part, at))
    } else {
        s
    }
}

/// The text of `s` after the first `part`, if it stands there at all.
pub open spec fn after_first(s: Seq<char>, part: Seq<char>) -> Option<Seq<char>> {
    if occurs(s, part) {
        Some(s.skip((choose|at: int| first_at(s, part, at)) + part.len()))
    } else {
        None
    }
}

/// The parts one after the other, with `separator` between neighbours.
pub open spec fn joined(parts: Seq<Seq<char>>, separator: Seq<char>) -> Seq<char>
    decreases parts.len(),
{
    if parts.len() == 0 {
        Seq::empty()
    } else if parts.len() == 1 {
        parts[0]
    } else {
        joined(parts.drop_last(), separator) + separator + parts.last()
    }
}

/// The texts of a list of strings.
pub open spec fn texts(list: Seq<String>) -> Seq<Seq<char>> {
    list.map_values(|s: String| s@)
}

/// The character of a decimal digit.
pub open spec fn digit(d: nat) -> char {
    (d + 48) as char
}

/// The decimal numeral of `n`, without leading zeros.
pub open spec fn decimal(n: nat) -> Seq<char>
    decreases n,
{
    if n < 10 {
        seq![digit(n)]
    } else {
        decimal(n / 10).push(digit(n % 10))
    }
}

/// The decimal numeral of `n`, with zeros in front up to `width` characters.
pub open spec fn zero_padded(n: nat, width: nat) -> Seq<char> {
    let d = decimal(n);
    if d.len() < width {
        Seq::new((width - d.len()) as nat, |i: int| '0') + d
    } else {
        d
    }
}

pub fn is_white(c: char) -> (r: bool)
    ensures
        r == white(c),
{
    ('\u{9}' <= c && c <= '\u{d}') || c == ' ' || c == '\u{85}' || c == '\u{a0}' || c == '\u{1680}'
        || ('\u{2000}' <= c && c <= '\u{200a}') || c == '\u{2028}' || c == '\u{2029}' || c
        == '\u{202f}' || c == '\u{205f}' || c == '\u{3000}'
}

/// The characters of a string.
pub fn chars(s: &str) -> (r: Vec<char>)
    ensures
        r@ == s@,
{
    let mut v: Vec<char> = Vec::new();
    for c in it: s.chars()
        invariant
            v@ == s@.take(it.index() as int),
            it.seq() == s@,
    {
        v.push(c);
    }
    v
}

/// The string of the given characters.
pub fn string(v: &[char]) -> (r: String)
    ensures
        r@ == v@,
{
    let mut s = String::new();
    for i in 0..v.len()
        invariant
            s@ == v@.take(i as int),
    {
        s.push(v[i]);
    }
    s
}

/// Leading white space ends at the first character that is none.
proof fn lemma_trimmed_start(s: Seq<char>, n: int)
    requires
        0 <= n <= s.len(),
        blank(s.take(n)),
        n < s.len() ==> !white(s[n]),
    ensures
        trimmed_start(s) == s.skip(n),
    decreases n,
{
    if n > 0 {
        assert(white(s.take(n)[0]));
        assert(s.skip(1).take(n - 1) == s.take(n).skip(1));
        assert forall|i: int| 0 <= i < n - 1 implies white(#[trigger] s.skip(1).take(n - 1)[i]) by {
            assert(s.take(n)[i + 1] == s.skip(1).take(n - 1)[i]);
        }
        lemma_trimmed_start(s.skip(1), n - 1);
        assert(s.skip(1).skip(n - 1) == s.skip(n));
    } else {
        assert(s.skip(0) == s);
    }
}

/// Trailing white space starts behind the last character that is none.
proof fn lemma_trimmed_end(s: Seq<char>, n: int)
    requires
        0 <= n <= s.len(),
        blank(s.skip(n)),
        n > 0 ==> !white(s[n - 1]),
    ensures
        trimmed_end(s) == s.take(n),
    decreases s.len() - n,
{
    if n < s.len() {
        assert(white(s.skip(n)[s.len() - n - 1]));
        assert forall|i: int| 0 <= i < s.len() - 1 - n implies white(
            #[trigger] s.drop_last().skip(n)[i],
        ) by {
            assert(s.skip(n)[i] == s.drop_last().skip(n)[i]);
        }
        lemma_trimmed_end(s.drop_last(), n);
        assert(s.drop_last().take(n) == s.take(n));
    } else {
        assert(s.take(n) == s);
    }
}

/// A text is blank exactly if nothing is left of it when it is trimmed.
pub proof fn blank_is_trimmed_away(s: Seq<char>)
    ensures
        blank(s) <==> trimmed(s).len() == 0,
    decreases s.len(),
{
    if s.len() > 0 && white(s[0]) {
        blank_is_trimmed_away(s.skip(1));
        if blank(s.skip(1)) {
            assert forall|i: int| 0 <= i < s.len() implies white(#[trigger] s[i]) by {
                if i > 0 {
                    assert(s.skip(1)[i - 1] == s[i]);
                }
            }
        }
        if blank(s) {
            assert forall|i: int| 0 <= i < s.len() - 1 implies white(#[trigger] s.skip(1)[i]) by {
                assert(s[i + 1] == s.skip(1)[i]);
            }
        }
    } else if s.len() > 0 {
        assert(!blank(s));
        lemma_trimmed_end_keeps(s, 0);
    }
}

/// Trimming the end keeps everything up to a character that is not white space.
proof fn lemma_trimmed_end_keeps(s: Seq<char>, k: int)
    requires
        0 <= k < s.len(),
        !white(s[k]),
    ensures
        trimmed_end(s).len() > k,
    decreases s.len(),
{
    if white(s.last()) {
        lemma_trimmed_end_keeps(s.drop_last(), k);
    }
}

/// How many characters of leading white space there are.
fn leading_white(s: &[char]) -> (n: usize)
    ensures
        n <= s.len(),
        trimmed_start(s@) == s@.skip(n as int),
{
    let mut n: usize = 0;
    while n < s.len() && is_white(s[n])
        invariant
            n <= s.len(),
            blank(s@.take(n as int)),
        decreases s.len() - n,
    {
        assert(s@.take(n + 1) == s@.take(n as int).push(s@[n as int]));
        n += 1;
    }
    proof {
        lemma_trimmed_start(s@, n as int);
    }
    n
}

/// `trim_start` on characters.
pub fn trim_start(s: &[char]) -> (r: &[char])
    ensures
        r@ == trimmed_start(s@),
{
    let n = leading_white(s);
    slice_subrange(s, n, s.len())
}

/// `trim` on characters.
pub fn trim_chars(s: &[char]) -> (r: &[char])
    ensures
        r@ == trimmed(s@),
{
    let t = trim_start(s);
    let mut n: usize = t.len();
    assert(t@.skip(n as int) == Seq::<char>::empty());
    while n > 0 && is_white(t[n - 1])
        invariant
            n <= t.len(),
            blank(t@.skip(n as int)),
        decreases n,
    {
        assert(t@.skip(n - 1) == seq![t@[n - 1]] + t@.skip(n as int));
        n -= 1;
    }
    proof {
        lemma_trimmed_end(t@, n as int);
    }
    slice_subrange(t, 0, n)
}

/// The text without the white space at either end.
pub fn trim(s: &str) -> (r: String)
    ensures
        r@ == trimmed(s@),
{
    let v = chars(s);
    string(trim_chars(v.as_slice()))
}

/// Whether nothing is left of the text when it is trimmed.
pub fn is_blank(s: &[char]) -> (r: bool)
    ensures
        r == blank(s@),
        r == forall|i: int| 0 <= i < s@.len() ==> white(#[trigger] s@[i]),
{
    for i in 0..s.len()
        invariant
            blank(s@.take(i as int)),
    {
        if !is_white(s[i]) {
            return false;
        }
        assert(s@.take(i + 1) == s@.take(i as int).push(s@[i as int]));
    }
    assert(s@.take(s.len() as int) == s@);
    true
}

/// Whether nothing is left of the string when it is trimmed.
pub fn is_blank_str(s: &str) -> (r: bool)
    ensures
        r == blank(s@),
        r == forall|i: int| 0 <= i < s@.len() ==> white(#[trigger] s@[i]),
{
    let v = chars(s);
    is_blank(v.as_slice())
}

/// Whether `part` stands in `s` at `at`.
fn stands_at(s: &[char], part: &[char], at: usize) -> (r: bool)
    requires
        at + part.len() <= s.len(),
    ensures
        r == occurs_at(s@, part@, at as int),
{
    for i in 0..part.len()
        invariant
            at + part.len() <= s.len(),
            forall|j: int| 0 <= j < i ==> s@[at + j] == #[trigger] part@[j],
    {
        if s[at + i] != part[i] {
            assert(s@.subrange(at as int, at + part.len())[i as int] != part@[i as int]);
            return false;
        }
    }
    assert(s@.subrange(at as int, at + part.len()) == part@);
    true
}

/// The first place where `part` stands in `s`.
pub fn find(s: &[char], part: &[char]) -> (r: Option<usize>)
    ensures
        match r {
            Some(at) => first_at(s@, part@, at as int),
            None => !occurs(s@, part@),
        },
{
    if part.len() > s.len() {
        return None;
    }
    let last: usize = s.len() - part.len();
    let mut at: usize = 0;
    loop
        invariant
            part.len() <= s.len(),
            last == s.len() - part.len(),
            at <= last,
            forall|k: int| 0 <= k < at ==> !occurs_at(s@, part@, k),
        decreases last - at,
    {
        if stands_at(s, part, at) {
            return Some(at);
        }
        if at == last {
            return None;
        }
        at += 1;
    }
}

/// Two first places are one place.
proof fn lemma_first_is_unique(s: Seq<char>, part: Seq<char>, at: int)
    requires
        first_at(s, part, at),
    ensures
        occurs(s, part),
        (choose|k: int| first_at(s, part, k)) == at,
{
    let k = choose|k: int| first_at(s, part, k);
    assert(first_at(s, part, k));
    if k < at {
        assert(!occurs_at(s, part, k));
    } else if at < k {
        assert(!occurs_at(s, part, at));
    }
}

/// The text before the first `part`; all of it where there is none.
pub fn before<'a>(s: &'a [char], part: &[char]) -> (r: &'a [char])
    ensures
        r@ == before_first(s@, part@),
{
    match find(s, part) {
        Some(at) => {
            proof {
                lemma_first_is_unique(s@, part@, at as int);
            }
            slice_subrange(s, 0, at)
        },
        None => s,
    }
}

/// The text after the first `part`, if it stands there at all.
pub fn after<'a>(s: &'a [char], part: &[char]) -> (r: Option<&'a [char]>)
    ensures
        match r {
            Some(rest) => after_first(s@, part@) == Some(rest@),
            None => after_first(s@, part@) is None,
        },
{
    match find(s, part) {
        Some(at) => {
            proof {
                lemma_first_is_unique(s@, part@, at as int);
            }
            let width: usize = part.len();
            let end: usize = s.len();
            assert(at + width <= end);
            Some(slice_subrange(s, at + width, end))
        },
        None => None,
    }
}

/// Whether `part` stands somewhere in `s`.
pub fn contains(s: &str, part: &str) -> (r: bool)
    ensures
        r == occurs(s@, part@),
{
    let v = chars(s);
    let p = chars(part);
    let found = find(v.as_slice(), p.as_slice());
    proof {
        if found is Some {
            lemma_first_is_unique(s@, part@, found->0 as int);
        }
    }
    found.is_some()
}

/// Whether the character is one of the given ones.
fn is_one_of(c: char, list: &[char]) -> (r: bool)
    ensures
        r == list@.contains(c),
{
    for i in 0..list.len()
        invariant
            forall|j: int| 0 <= j < i ==> list@[j] != c,
    {
        if list[i] == c {
            return true;
        }
    }
    false
}

/// There is always at least one piece.
pub proof fn some_piece(s: Seq<char>, separators: Seq<char>)
    ensures
        pieces(s, separators).len() >= 1,
    decreases s.len(),
{
    if s.len() > 0 {
        some_piece(s.drop_last(), separators);
    }
}

/// The pieces between separators.
pub fn split(s: &[char], separators: &[char]) -> (r: Vec<Vec<char>>)
    ensures
        r@.map_values(|v: Vec<char>| v@) == pieces(s@, separators@),
{
    let mut done: Vec<Vec<char>> = Vec::new();
    let mut last: Vec<char> = Vec::new();
    let ghost view = |v: Vec<char>| v@;
    for i in 0..s.len()
        invariant
            view == (|v: Vec<char>| v@),
            done@.map_values(view).push(last@) == pieces(s@.take(i as int), separators@),
    {
        let c = s[i];
        let ghost before = done@.map_values(view).push(last@);
        assert(s@.take(i + 1).drop_last() == s@.take(i as int));
        assert(before.drop_last() == done@.map_values(view));
        if is_one_of(c, separators) {
            done.push(last);
            last = Vec::new();
            assert(done@.map_values(view) == before);
        } else {
            last.push(c);
        }
    }
    assert(s@.take(s.len() as int) == s@);
    let ghost was = done@;
    done.push(last);
    assert(done@.map_values(view) == was.map_values(view).push(last@));
    done
}

/// The parts one after the other, with `separator` between neighbours.
pub fn join(parts: &[String], separator: &str) -> (r: String)
    ensures
        r@ == joined(texts(parts@), separator@),
{
    let mut out = String::new();
    for i in 0..parts.len()
        invariant
            out@ == joined(texts(parts@).take(i as int), separator@),
    {
        let ghost head = texts(parts@).take(i + 1);
        assert(head.drop_last() == texts(parts@).take(i as int));
        if i > 0 {
            out.append(separator);
        }
        out.append(parts[i].as_str());
        assert(i == 0 ==> out@ == head[0]);
    }
    assert(texts(parts@).take(parts.len() as int) == texts(parts@));
    out
}

fn digit_char(d: u64) -> (c: char)
    requires
        d < 10,
    ensures
        c == digit(d as nat),
{
    (48u8 + d as u8) as char
}

/// The decimal numeral of a number.
pub fn numeral(n: u64) -> (r: Vec<char>)
    ensures
        r@ == decimal(n as nat),
    decreases n,
{
    let mut v: Vec<char> = if n < 10 {
        Vec::new()
    } else {
        numeral(n / 10)
    };
    v.push(digit_char(n % 10));
    v
}

/// The decimal numeral of a number, as a string.
pub fn number(n: u64) -> (r: String)
    ensures
        r@ == decimal(n as nat),
{
    let v = numeral(n);
    string(v.as_slice())
}

/// The decimal numeral with zeros in front up to `width` characters.
pub fn padded_number(n: u64, width: usize) -> (r: String)
    ensures
        r@ == zero_padded(n as nat, width as nat),
{
    let v = numeral(n);
    let mut s = String::new();
    let mut len: usize = v.len();
    while len < width
        invariant
            v.len() <= len,
            len <= width || len == v.len(),
            s@ == Seq::new((len - v.len()) as nat, |i: int| '0'),
        decreases width - len,
    {
        s.push('0');
        len += 1;
    }
    let tail = string(v.as_slice());
    s.append(tail.as_str());
    s
}

/// One with `k` zeros.
pub open spec fn power_of_ten(k: nat) -> nat
    decreases k,
{
    if k == 0 {
        1
    } else {
        10 * power_of_ten((k - 1) as nat)
    }
}

proof fn lemma_decimal_digits(n: nat, k: nat)
    requires
        k >= 1,
        n < power_of_ten(k),
    ensures
        decimal(n).len() <= k,
    decreases k,
{
    if n >= 10 {
        if k == 1 {
            assert(power_of_ten(1) == 10) by {
                reveal_with_fuel(power_of_ten, 2);
            }
        }
        lemma_decimal_digits(n / 10, (k - 1) as nat);
    }
}

/// `a` comes before `b` in the order of strings, and differs from it within its own length.
pub open spec fn sorts_before(a: Seq<char>, b: Seq<char>) -> bool {
    exists|k: int|
        0 <= k < a.len() && k < b.len() && a.take(k) == b.take(k) && (#[trigger] a[k]) < b[k]
}

/// Texts with the same front sort as what follows it.
pub proof fn a_common_front_keeps_the_order(front: Seq<char>, a: Seq<char>, b: Seq<char>)
    requires
        sorts_before(a, b),
    ensures
        sorts_before(front + a, front + b),
{
    let k = choose|k: int|
        0 <= k < a.len() && k < b.len() && a.take(k) == b.take(k) && (#[trigger] a[k]) < b[k];
    let at = front.len() + k;
    assert((front + a).take(at) =~= front + a.take(k));
    assert((front + b).take(at) =~= front + b.take(k));
    assert((front + a)[at] == a[k] && (front + b)[at] == b[k]);
}

/// What follows makes no difference to the order.
pub proof fn what_follows_keeps_the_order(
    a: Seq<char>,
    b: Seq<char>,
    after_a: Seq<char>,
    after_b: Seq<char>,
)
    requires
        sorts_before(a, b),
    ensures
        sorts_before(a + after_a, b + after_b),
{
    let k = choose|k: int|
        0 <= k < a.len() && k < b.len() && a.take(k) == b.take(k) && (#[trigger] a[k]) < b[k];
    assert((a + after_a).take(k) =~= a.take(k));
    assert((b + after_b).take(k) =~= b.take(k));
    assert((a + after_a)[k] == a[k] && (b + after_b)[k] == b[k]);
}

/// A padded numeral is that of the tens, one shorter, and the last digit.
proof fn lemma_padded_digits(n: nat, width: nat)
    requires
        width >= 1,
        n < power_of_ten(width),
    ensures
        zero_padded(n, width).len() == width,
        width > 1 ==> zero_padded(n, width) == zero_padded(n / 10, (width - 1) as nat).push(
            digit(n % 10),
        ),
        width == 1 ==> zero_padded(n, width) == seq![digit(n)],
{
    lemma_decimal_digits(n, width);
    if width == 1 {
        assert(power_of_ten(1) == 10) by {
            reveal_with_fuel(power_of_ten, 2);
        }
        assert(zero_padded(n, width) =~= seq![digit(n)]);
    } else {
        assert(decimal(0) =~= seq!['0']);
        assert(zero_padded(n, width) =~= zero_padded(n / 10, (width - 1) as nat).push(
            digit(n % 10),
        ));
    }
}

/// A padded numeral has the width that it is padded to, if the number fits.
pub proof fn padded_length(n: nat, width: nat)
    requires
        width >= 1,
        n < power_of_ten(width),
    ensures
        zero_padded(n, width).len() == width,
{
    lemma_padded_digits(n, width);
}

/// Numerals that are padded to the same width sort as their numbers.
pub proof fn padded_numerals_sort(a: nat, b: nat, width: nat)
    requires
        width >= 1,
        a < b < power_of_ten(width),
    ensures
        zero_padded(a, width).len() == width,
        zero_padded(b, width).len() == width,
        sorts_before(zero_padded(a, width), zero_padded(b, width)),
    decreases width,
{
    lemma_padded_digits(a, width);
    lemma_padded_digits(b, width);
    let x = zero_padded(a, width);
    let y = zero_padded(b, width);
    if width == 1 {
        assert(power_of_ten(1) == 10) by {
            reveal_with_fuel(power_of_ten, 2);
        }
        assert(x.take(0) =~= y.take(0));
        assert(x[0] < y[0]);
    } else {
        let front_a = zero_padded(a / 10, (width - 1) as nat);
        let front_b = zero_padded(b / 10, (width - 1) as nat);
        if a / 10 < b / 10 {
            padded_numerals_sort(a / 10, b / 10, (width - 1) as nat);
            what_follows_keeps_the_order(front_a, front_b, seq![digit(a % 10)], seq![digit(b % 10)]);
            assert(x =~= front_a + seq![digit(a % 10)]);
            assert(y =~= front_b + seq![digit(b % 10)]);
        } else {
            assert(a / 10 == b / 10 && a % 10 < b % 10);
            assert(x.take(width - 1) =~= front_a);
            assert(y.take(width - 1) =~= front_a);
            assert(x[width - 1] < y[width - 1]);
        }
    }
}

/// No 64-bit number has more than twenty digits.
pub proof fn u64_numerals_are_short(n: nat)
    requires
        n <= u64::MAX,
    ensures
        decimal(n).len() <= 20,
{
    assert(power_of_ten(20) == 100_000_000_000_000_000_000) by {
        reveal_with_fuel(power_of_ten, 21);
    }
    lemma_decimal_digits(n, 20);
}

/// The texts of a list of string slices.
pub open spec fn slice_texts(list: Seq<&str>) -> Seq<Seq<char>> {
    list.map_values(|s: &str| s@)
}

/// The strings of a list of string slices.
pub fn strings(list: &[&str]) -> (r: Vec<String>)
    ensures
        texts(r@) == slice_texts(list@),
{
    let mut out: Vec<String> = Vec::new();
    for i in 0..list.len()
        invariant
            texts(out@) == slice_texts(list@).take(i as int),
    {
        let ghost before = out@;
        out.push(list[i].to_owned());
        assert(texts(out@) == texts(before).push(list@[i as int]@));
        assert(slice_texts(list@).take(i + 1) == slice_texts(list@).take(i as int).push(
            list@[i as int]@,
        ));
    }
    assert(slice_texts(list@).take(list.len() as int) == slice_texts(list@));
    out
}

/// A numeral is made of digits.
pub proof fn lemma_digits(n: nat)
    ensures
        decimal(n).len() >= 1,
        forall|i: int| 0 <= i < decimal(n).len() ==> '0' <= #[trigger] decimal(n)[i] <= '9',
    decreases n,
{
    if n >= 10 {
        lemma_digits(n / 10);
        let front = decimal(n / 10);
        assert forall|i: int| 0 <= i < decimal(n).len() implies '0' <= #[trigger] decimal(n)[i]
            <= '9' by {
            if i < front.len() {
                assert(decimal(n)[i] == front[i]);
            }
        }
    }
}

/// Different numbers have different numerals.
pub proof fn decimal_is_injective(a: nat, b: nat)
    requires
        decimal(a) == decimal(b),
    ensures
        a == b,
    decreases a,
{
    lemma_digits(a / 10);
    lemma_digits(b / 10);
    let last = decimal(a).last();
    assert(decimal(b).last() == last);
    assert(last as int == a % 10 + 48);
    assert(last as int == b % 10 + 48);
    if a >= 10 && b >= 10 {
        assert(decimal(a).drop_last() =~= decimal(a / 10));
        assert(decimal(b).drop_last() =~= decimal(b / 10));
        decimal_is_injective(a / 10, b / 10);
    }
}

/// White space is taken off both ends and nothing else: what is left stands in the text between
/// two stretches of white space, and starts and ends with something else.
pub proof fn only_the_ends_are_trimmed(s: Seq<char>) -> (at: (int, int))
    ensures
        0 <= at.0 <= at.1 <= s.len(),
        trimmed(s) == s.subrange(at.0, at.1),
        forall|i: int| 0 <= i < at.0 ==> white(#[trigger] s[i]),
        forall|i: int| at.1 <= i < s.len() ==> white(#[trigger] s[i]),
        at.0 < at.1 ==> !white(s[at.0]) && !white(s[at.1 - 1]),
{
    let from = trimmed_start_at(s);
    let t = s.skip(from);
    let to = trimmed_end_at(t);
    assert(t.take(to) =~= s.subrange(from, from + to));
    assert forall|i: int| from + to <= i < s.len() implies white(#[trigger] s[i]) by {
        assert(t[i - from] == s[i]);
    }
    if to > 0 {
        assert(t[to - 1] == s[from + to - 1]);
        if from < s.len() {
            assert(t[0] == s[from]);
        }
    }
    (from, from + to)
}

/// Leading white space is taken off, up to the first character that is none.
pub proof fn trimmed_start_at(s: Seq<char>) -> (n: int)
    ensures
        0 <= n <= s.len(),
        trimmed_start(s) == s.skip(n),
        forall|i: int| 0 <= i < n ==> white(#[trigger] s[i]),
        n < s.len() ==> !white(s[n]),
    decreases s.len(),
{
    if s.len() > 0 && white(s[0]) {
        let n = trimmed_start_at(s.skip(1));
        assert(s.skip(1).skip(n) =~= s.skip(n + 1));
        assert forall|i: int| 0 <= i < n + 1 implies white(#[trigger] s[i]) by {
            if i > 0 {
                assert(s.skip(1)[i - 1] == s[i]);
            }
        }
        if n + 1 < s.len() {
            assert(s.skip(1)[n] == s[n + 1]);
        }
        n + 1
    } else {
        assert(s.skip(0) =~= s);
        0
    }
}

/// Trailing white space is taken off, back to the last character that is none.
pub proof fn trimmed_end_at(s: Seq<char>) -> (n: int)
    ensures
        0 <= n <= s.len(),
        trimmed_end(s) == s.take(n),
        forall|i: int| n <= i < s.len() ==> white(#[trigger] s[i]),
        n > 0 ==> !white(s[n - 1]),
    decreases s.len(),
{
    if s.len() > 0 && white(s.last()) {
        let n = trimmed_end_at(s.drop_last());
        assert(s.drop_last().take(n) =~= s.take(n));
        assert forall|i: int| n <= i < s.len() implies white(#[trigger] s[i]) by {
            if i < s.len() - 1 {
                assert(s.drop_last()[i] == s[i]);
            }
        }
        n
    } else {
        assert(s.take(s.len() as int) =~= s);
        s.len() as int
    }
}

/// A text without a separator is one piece.
pub proof fn a_whole_text_is_one_piece(s: Seq<char>, separators: Seq<char>)
    requires
        forall|i: int| 0 <= i < s.len() ==> !separators.contains(#[trigger] s[i]),
    ensures
        pieces(s, separators) == seq![s],
    decreases s.len(),
{
    if s.len() > 0 {
        let front = s.drop_last();
        assert forall|i: int| 0 <= i < front.len() implies !separators.contains(
            #[trigger] front[i],
        ) by {
            assert(front[i] == s[i]);
        }
        a_whole_text_is_one_piece(front, separators);
        assert(!separators.contains(s[s.len() - 1]));
        assert(front.push(s.last()) =~= s);
        assert(pieces(s, separators) =~= seq![s]);
    } else {
        assert(s =~= Seq::empty());
    }
}

/// A separator parts the pieces before it from those behind it.
pub proof fn a_separator_parts_the_pieces(
    s: Seq<char>,
    c: char,
    t: Seq<char>,
    separators: Seq<char>,
)
    requires
        separators.contains(c),
    ensures
        pieces(s.push(c) + t, separators) == pieces(s, separators) + pieces(t, separators),
    decreases t.len(),
{
    let all = s.push(c) + t;
    some_piece(t, separators);
    if t.len() == 0 {
        assert(all =~= s.push(c));
        assert(all.drop_last() =~= s);
        assert(pieces(all, separators) =~= pieces(s, separators) + pieces(t, separators));
    } else {
        let front = t.drop_last();
        a_separator_parts_the_pieces(s, c, front, separators);
        some_piece(front, separators);
        assert(all.drop_last() =~= s.push(c) + front);
        assert(all.last() == t.last());
        assert(pieces(all, separators) =~= pieces(s, separators) + pieces(t, separators));
    }
}

/// The parts of a text that stands before and behind the first place of another: put together they
/// give the text, and the other stands nowhere before.
pub proof fn the_first_place_parts_a_text(s: Seq<char>, part: Seq<char>)
    requires
        occurs(s, part),
    ensures
        after_first(s, part) is Some,
        s == before_first(s, part) + part + after_first(s, part)->0,
        forall|k: int|
            0 <= k < before_first(s, part).len() ==> #[trigger] s.subrange(k, k + part.len()) != part,
{
    let some = choose|at: int| occurs_at(s, part, at);
    let at = lemma_some_first(s, part, some);
    lemma_first_is_unique(s, part, at);
    assert(s =~= s.take(at) + part + s.skip(at + part.len()));
    assert forall|k: int| 0 <= k < at implies #[trigger] s.subrange(k, k + part.len()) != part by {
        assert(!occurs_at(s, part, k));
    }
}

/// Where a text stands somewhere, there is a first place.
proof fn lemma_some_first(s: Seq<char>, part: Seq<char>, at: int) -> (first: int)
    requires
        occurs_at(s, part, at),
    ensures
        first_at(s, part, first),
    decreases at,
{
    if exists|k: int| 0 <= k < at && occurs_at(s, part, k) {
        let k = choose|k: int| 0 <= k < at && occurs_at(s, part, k);
        lemma_some_first(s, part, k)
    } else {
        at
    }
}

/// A text that does not stand in another parts nothing off it.
pub proof fn a_text_without_it_stays_whole(s: Seq<char>, part: Seq<char>)
    requires
        forall|k: int| 0 <= k <= s.len() - part.len() ==> #[trigger] s.subrange(k, k + part.len()) != part,
    ensures
        !occurs(s, part),
        before_first(s, part) == s,
        after_first(s, part) is None,
{
    assert forall|at: int| !occurs_at(s, part, at) by {
        if 0 <= at <= s.len() - part.len() {
            assert(s.subrange(at, at + part.len()) != part);
        }
    }
}

/// Wherever a text is put, it is found.
pub proof fn what_was_put_in_is_found(front: Seq<char>, part: Seq<char>, back: Seq<char>)
    ensures
        occurs(front + part + back, part),
{
    let s = front + part + back;
    assert(s.subrange(front.len() as int, (front.len() + part.len()) as int) =~= part);
    assert(occurs_at(s, part, front.len() as int));
}

/// A text is parted at a place before which the other does not stand.
pub proof fn a_text_is_parted_at_the_first_place(s: Seq<char>, part: Seq<char>, at: int)
    requires
        0 <= at <= s.len() - part.len(),
        s.subrange(at, at + part.len()) == part,
        forall|k: int| 0 <= k < at ==> #[trigger] s.subrange(k, k + part.len()) != part,
    ensures
        occurs(s, part),
        before_first(s, part) == s.take(at),
        after_first(s, part) == Some(s.skip(at + part.len())),
{
    assert(occurs_at(s, part, at));
    assert forall|k: int| 0 <= k < at implies !occurs_at(s, part, k) by {
        assert(s.subrange(k, k + part.len()) != part);
    }
    lemma_first_is_unique(s, part, at);
}

/// Two lists are joined by joining each and putting the separator between; a single part stays as
/// it is, and nothing is made of nothing.
pub proof fn joining_keeps_every_part(
    a: Seq<Seq<char>>,
    b: Seq<Seq<char>>,
    part: Seq<char>,
    separator: Seq<char>,
)
    ensures
        joined(Seq::empty(), separator) == Seq::<char>::empty(),
        joined(seq![part], separator) == part,
        a.len() > 0 && b.len() > 0 ==> joined(a + b, separator) == joined(a, separator) + separator
            + joined(b, separator),
    decreases b.len(),
{
    if a.len() > 0 && b.len() > 0 {
        let all = a + b;
        let rest = b.drop_last();
        assert(all.drop_last() =~= a + rest);
        assert(all.last() == b.last());
        if rest.len() > 0 {
            joining_keeps_every_part(a, rest, part, separator);
            assert(joined(all, separator) =~= joined(a, separator) + separator + joined(
                b,
                separator,
            ));
        } else {
            assert(a + rest =~= a);
            assert(joined(b, separator) =~= b[0]);
        }
    }
}

/// The numeral of a number with one digit more: the digit stands behind the others. A number below
/// ten is one character, that of its digit.
pub proof fn numerals_are_decimal(n: nat, d: nat)
    requires
        d < 10,
    ensures
        decimal(d) == seq!["0123456789"@[d as int]],
        n > 0 ==> decimal(10 * n + d) == decimal(n).push("0123456789"@[d as int]),
{
    reveal_strlit("0123456789");
    assert((10 * n + d) / 10 == n && (10 * n + d) % 10 == d);
    assert(digit(d) == "0123456789"@[d as int]);
}

/// A padded numeral is the numeral behind as many zeros as it takes, and none where it is wide
/// enough by itself.
pub proof fn padding_is_zeros_in_front(n: nat, width: nat)
    ensures
        zero_padded(n, width).len() == (if decimal(n).len() < width {
            width
        } else {
            decimal(n).len()
        }),
        zero_padded(n, width).skip(zero_padded(n, width).len() - decimal(n).len()) == decimal(n),
        forall|i: int|
            0 <= i < zero_padded(n, width).len() - decimal(n).len() ==> #[trigger] zero_padded(
                n,
                width,
            )[i] == '0',
{
    let all = zero_padded(n, width);
    assert(all.skip(all.len() - decimal(n).len()) =~= decimal(n));
}

/// The texts of a list are those of its strings, one for each and in their order.
pub proof fn texts_are_those_of_the_strings(list: Seq<String>, slices: Seq<&str>)
    ensures
        texts(list).len() == list.len(),
        forall|i: int| 0 <= i < list.len() ==> #[trigger] texts(list)[i] == list[i]@,
        slice_texts(slices).len() == slices.len(),
        forall|i: int| 0 <= i < slices.len() ==> #[trigger] slice_texts(slices)[i] == slices[i]@,
{
}

/// The pieces between separators of one kind, joined by it, are the text again.
pub proof fn pieces_join_to_the_text(s: Seq<char>, c: char)
    ensures
        joined(pieces(s, seq![c]), seq![c]) == s,
    decreases s.len(),
{
    let all = pieces(s, seq![c]);
    let mark = seq![c];
    if s.len() == 0 {
        assert(s =~= Seq::empty());
    } else {
        let front = s.drop_last();
        let before = pieces(front, mark);
        some_piece(front, mark);
        pieces_join_to_the_text(front, c);
        assert(mark[0] == c);
        if mark.contains(s.last()) {
            assert(all.drop_last() =~= before);
            assert(joined(all, mark) =~= front + mark + Seq::<char>::empty());
            assert(joined(all, mark) =~= s);
        } else {
            assert(all.drop_last() =~= before.drop_last());
            if before.len() > 1 {
                assert(joined(all, mark) =~= joined(before, mark).push(s.last()));
            }
            assert(front.push(s.last()) =~= s);
        }
    }
}

/// Lines that hold no separator, joined by one, are parted into the same lines again.
pub proof fn joined_lines_are_parted_again(lines: Seq<Seq<char>>, c: char, separators: Seq<char>)
    requires
        lines.len() > 0,
        separators.contains(c),
        forall|i: int, k: int|
            0 <= i < lines.len() && 0 <= k < lines[i].len() ==> !separators.contains(
                #[trigger] lines[i][k],
            ),
    ensures
        pieces(joined(lines, seq![c]), separators) == lines,
    decreases lines.len(),
{
    let last = lines.last();
    assert forall|k: int| 0 <= k < last.len() implies !separators.contains(#[trigger] last[k]) by {
        assert(!separators.contains(lines[lines.len() - 1][k]));
    }
    a_whole_text_is_one_piece(last, separators);
    if lines.len() > 1 {
        let front = lines.drop_last();
        assert forall|i: int, k: int|
            0 <= i < front.len() && 0 <= k < front[i].len() implies !separators.contains(
            #[trigger] front[i][k],
        ) by {
            assert(!separators.contains(lines[i][k]));
        }
        joined_lines_are_parted_again(front, c, separators);
        let head = joined(front, seq![c]);
        a_separator_parts_the_pieces(head, c, last, separators);
        assert(joined(lines, seq![c]) =~= head.push(c) + last);
        assert(front + seq![last] =~= lines);
    } else {
        assert(lines =~= seq![last]);
    }
}

}
