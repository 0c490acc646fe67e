use vstd::prelude::*;

verus! {

/// The chars of a string, in order.
pub fn chars_of(s: &str) -> (out: Vec<char>)
    ensures
        out@ == s@,
{
    let mut out: Vec<char> = Vec::new();
    for c in it: s.chars()
        invariant
            out@ == it.seq().take(it.index() as int),
            it.seq() == s@,
    {
        out.push(c);
    }
    out
}

/// Appends `c` to `s` (std's `String::push`).
#[verifier::external_body]
pub(crate) fn push_char(s: &mut String, c: char)
    ensures
        final(s)@ == old(s)@.push(c),
{
    s.push(c);
}

/// The text that `{:?}` gives for `c`.
pub uninterp spec fn char_debug(c: char) -> Seq<char>;

/// Formats `c` with `{:?}` (std's `Debug` for `char`: the char between single
/// quotes, escaped as `char::escape_debug` does). What the text is, is left
/// to the name [`char_debug`]: a function of `c` alone.
#[verifier::external_body]
pub(crate) fn debug_char(c: char) -> (out: String)
    ensures
        out@ == char_debug(c),
{
    format!("{:?}", c)
}

/// The text that `{:?}` gives for a string with the chars `s`.
pub uninterp spec fn str_debug(s: Seq<char>) -> Seq<char>;

/// Formats `s` with `{:?}` (std's `Debug` for `str`: the text between double
/// quotes, each char escaped as `char::escape_debug` does). What the text is,
/// is left to the name [`str_debug`]: a function of the chars of `s` alone.
#[verifier::external_body]
pub(crate) fn debug_str(s: &str) -> (out: String)
    ensures
        out@ == str_debug(s@),
{
    format!("{:?}", s)
}

/// The decimal text of `n` (what `n.to_string()` gives).
pub fn usize_to_text(n: usize) -> (out: String)
    ensures
        out@ == nat_text(n as nat),
{
    let mut out = String::new();
    push_nat_text(&mut out, n as u64);
    out
}

/// An ASCII decimal digit.
pub open spec fn is_digit(c: char) -> bool {
    48 <= (c as u32) <= 57
}

/// The value of an ASCII decimal digit.
pub open spec fn digit_value(c: char) -> int {
    (c as u32) - 48
}

/// The ASCII digit of `d`, for `0 <= d < 10`.
pub open spec fn digit_char(d: int) -> char {
    if d == 0 {
        '0'
    } else if d == 1 {
        '1'
    } else if d == 2 {
        '2'
    } else if d == 3 {
        '3'
    } else if d == 4 {
        '4'
    } else if d == 5 {
        '5'
    } else if d == 6 {
        '6'
    } else if d == 7 {
        '7'
    } else if d == 8 {
        '8'
    } else {
        '9'
    }
}

/// The decimal text of a natural number, without leading zeros.
pub open spec fn nat_text(n: nat) -> Seq<char>
    decreases n,
{
    if n < 10 {
        seq![digit_char(n as int)]
    } else {
        nat_text(n / 10).push(digit_char((n % 10) as int))
    }
}

/// The decimal text of an integer, as `Display` writes it: a `-` before negatives.
pub open spec fn int_text(i: int) -> Seq<char> {
    if i < 0 {
        seq!['-'] + nat_text((-i) as nat)
    } else {
        nat_text(i as nat)
    }
}

/// Every char of `s` is an ASCII digit.
pub open spec fn all_digits(s: Seq<char>) -> bool {
    forall|i: int| 0 <= i < s.len() ==> is_digit(#[trigger] s[i])
}

/// The number that the decimal digits `s` spell.
pub open spec fn digits_value(s: Seq<char>) -> int
    decreases s.len(),
{
    if s.len() == 0 {
        0
    } else {
        digits_value(s.drop_last()) * 10 + digit_value(s.last())
    }
}

/// What `i64::from_str` gives: an optional `+` or `-`, then one or more ASCII
/// digits, whose value must fit in an `i64`.
pub open spec fn spec_parse_i64(s: Seq<char>) -> Option<i64> {
    let signed = s.len() > 0 && (s[0] == '-' || s[0] == '+');
    let body = if signed { s.drop_first() } else { s };
    if body.len() == 0 || !all_digits(body) {
        None
    } else {
        let v = if s[0] == '-' { -digits_value(body) } else { digits_value(body) };
        if i64::MIN <= v <= i64::MAX {
            Some(v as i64)
        } else {
            None
        }
    }
}

fn digit_to_char(d: u64) -> (c: char)
    requires
        d < 10,
    ensures
        c == digit_char(d as int),
{
    if d == 0 {
        '0'
    } else if d == 1 {
        '1'
    } else if d == 2 {
        '2'
    } else if d == 3 {
        '3'
    } else if d == 4 {
        '4'
    } else if d == 5 {
        '5'
    } else if d == 6 {
        '6'
    } else if d == 7 {
        '7'
    } else if d == 8 {
        '8'
    } else {
        '9'
    }
}

fn push_nat_text(out: &mut String, n: u64)
    ensures
        final(out)@ == old(out)@ + nat_text(n as nat),
    decreases n,
{
    if n >= 10 {
        push_nat_text(out, n / 10);
    }
    let c = digit_to_char(n % 10);
    push_char(out, c);
    proof {
        if n >= 10 {
            assert(old(out)@ + nat_text(n as nat) =~= old(out)@ + nat_text((n / 10) as nat) + seq![c]);
        } else {
            assert(old(out)@ + nat_text(n as nat) =~= old(out)@ + seq![c]);
        }
    }
}

/// The decimal text of `i` (what `i.to_string()` gives).
pub fn int_to_text(i: i64) -> (out: String)
    ensures
        out@ == int_text(i as int),
{
    let mut out = String::new();
    if i < 0 {
        push_char(&mut out, '-');
        let magnitude: u64 = if i == i64::MIN {
            9223372036854775808u64
        } else {
            (-i) as u64
        };
        push_nat_text(&mut out, magnitude);
    } else {
        push_nat_text(&mut out, i as u64);
    }
    out
}

/// Parses `s` as `i64::from_str` does.
pub fn parse_i64(s: &[char]) -> (res: Option<i64>)
    ensures
        res == spec_parse_i64(s@),
{
    let n = s.len();
    if n == 0 {
        return None;
    }
    let negative = s[0] == '-';
    let start: usize = if s[0] == '-' || s[0] == '+' { 1 } else { 0 };
    if start >= n {
        return None;
    }
    let ghost body = s@.skip(start as int);
    proof {
        if start == 1 {
            assert(body =~= s@.drop_first());
        } else {
            assert(body =~= s@);
        }
    }
    let cap: u128 = 9223372036854775808u128;
    // `acc` is the value of the digits read so far, held at `cap + 1` once it passes `cap`.
    let mut acc: u128 = 0;
    let mut i: usize = start;
    while i < n
        invariant
            start <= i <= n,
            n == s.len(),
            body == s@.skip(start as int),
            body == (if s@.len() > 0 && (s@[0] == '-' || s@[0] == '+') { s@.drop_first() } else { s@ }),
            cap == 9223372036854775808u128,
            all_digits(body.take(i - start)),
            acc <= cap + 1,
            acc == if digits_value(body.take(i - start)) > cap {
                cap + 1
            } else {
                digits_value(body.take(i - start))
            },
            digits_value(body.take(i - start)) >= 0,
        decreases n - i,
    {
        let c = s[i];
        if !((c as u32) >= 48 && (c as u32) <= 57) {
            proof {
                assert(body[i - start] == c);
                assert(!all_digits(body));
            }
            return None;
        }
        let d = ((c as u32) - 48) as u128;
        proof {
            let pre = body.take(i - start);
            let next = body.take(i - start + 1);
            assert(next.drop_last() =~= pre);
            assert(next.last() == c);
            assert(all_digits(next));
        }
        if acc > cap {
            acc = cap + 1;
        } else {
            let v = acc * 10 + d;
            acc = if v > cap { cap + 1 } else { v };
        }
        i = i + 1;
    }
    proof {
        assert(body.take(n - start) =~= body);
        assert(body.len() > 0);
        assert(all_digits(body));
    }
    if negative {
        if acc > cap {
            None
        } else if acc == cap {
            Some(i64::MIN)
        } else {
            Some(-(acc as i64))
        }
    } else {
        if acc >= cap {
            None
        } else {
            Some(acc as i64)
        }
    }
}

proof fn lemma_digit_char(d: int)
    requires
        0 <= d < 10,
    ensures
        is_digit(digit_char(d)),
        digit_value(digit_char(d)) == d,
{
}

/// `nat_text(n)` is a nonempty run of digits that spells `n`.
pub proof fn lemma_nat_text(n: nat)
    ensures
        nat_text(n).len() > 0,
        all_digits(nat_text(n)),
        digits_value(nat_text(n)) == n,
        nat_text(n)[0] != '-' && nat_text(n)[0] != '+',
    decreases n,
{
    lemma_digit_char((n % 10) as int);
    if n < 10 {
        lemma_digit_char(n as int);
        let t = nat_text(n);
        assert(t.drop_last() =~= Seq::<char>::empty());
        assert(digits_value(t.drop_last()) == 0);
        assert(t.last() == digit_char(n as int));
        assert(digits_value(t) == n);
    }
    if n >= 10 {
        lemma_nat_text(n / 10);
        let t = nat_text(n);
        assert(t.drop_last() =~= nat_text(n / 10));
        assert(t.last() == digit_char((n % 10) as int));
        assert(digits_value(t) == digits_value(nat_text(n / 10)) * 10 + (n % 10));
        assert(forall|i: int| 0 <= i < t.len() - 1 ==> t[i] == nat_text(n / 10)[i]);
        assert((n / 10) * 10 + n % 10 == n) by (nonlinear_arith);
    }
}

/// What `i64::from_str` reads: a sign part (empty, `+` or `-`) and then one
/// or more ASCII digits give the signed value of the digits when it fits in
/// an `i64`, and nothing otherwise; and every text it reads has that form.
pub proof fn lemma_i64_grammar(sg: Seq<char>, d: Seq<char>, t: Seq<char>)
    requires
        sg == Seq::<char>::empty() || sg == seq!['+'] || sg == seq!['-'],
        d.len() > 0,
        all_digits(d),
    ensures
        ({
            let v = if sg == seq!['-'] { -digits_value(d) } else { digits_value(d) };
            spec_parse_i64(sg + d) == if i64::MIN <= v <= i64::MAX {
                Some(v as i64)
            } else {
                None::<i64>
            }
        }),
        spec_parse_i64(t) is Some ==> exists|sg2: Seq<char>, d2: Seq<char>|
            (sg2 == Seq::<char>::empty() || sg2 == seq!['+'] || sg2 == seq!['-']) && d2.len() > 0 && all_digits(d2)
                && #[trigger] (sg2 + d2) == t,
{
    let s = sg + d;
    if sg.len() > 0 {
        assert(s[0] == sg[0]);
        assert(s.drop_first() =~= d);
    } else {
        assert(s =~= d);
        assert(is_digit(d[0]));
    }
    if spec_parse_i64(t) is Some {
        let signed = t.len() > 0 && (t[0] == '-' || t[0] == '+');
        let sg2 = if signed { seq![t[0]] } else { Seq::<char>::empty() };
        let d2 = if signed { t.drop_first() } else { t };
        assert(sg2 + d2 =~= t);
    }
}

/// Reading the decimal text of an `i64` gives it back.
pub proof fn lemma_int_text_parses(i: i64)
    ensures
        spec_parse_i64(int_text(i as int)) == Some(i),
        int_text(i as int).len() > 0,
{
    if i < 0 {
        let m = (-i) as nat;
        lemma_nat_text(m);
        let t = int_text(i as int);
        assert(t.drop_first() =~= nat_text(m));
    } else {
        lemma_nat_text(i as nat);
    }
}

/// Each char of an integer's text is an ASCII digit or a leading `-`.
pub proof fn lemma_int_text_chars(i: i64, j: int)
    requires
        0 <= j < int_text(i as int).len(),
    ensures
        is_digit(int_text(i as int)[j]) || (j == 0 && int_text(i as int)[j] == '-'),
{
    if i < 0 {
        let m = (-i) as nat;
        lemma_nat_text(m);
        if j > 0 {
            assert(int_text(i as int)[j] == nat_text(m)[j - 1]);
        }
    } else {
        lemma_nat_text(i as nat);
    }
}

/// The number of consecutive ASCII digits of `s` from index `i` on.
pub open spec fn digit_run(s: Seq<char>, i: int) -> int
    decreases s.len() - i,
{
    if 0 <= i < s.len() && is_digit(s[i]) {
        1 + digit_run(s, i + 1)
    } else {
        0
    }
}

/// `c` is the ASCII lowercase letter `lower` or its uppercase form.
pub open spec fn same_letter(c: char, lower: char) -> bool {
    c == lower || (c as u32) + 32 == (lower as u32)
}

/// `s` spells the lowercase ASCII word `w`, ignoring ASCII case.
pub open spec fn is_word_ignoring_case(s: Seq<char>, w: Seq<char>) -> bool {
    s.len() == w.len() && forall|i: int| 0 <= i < s.len() ==> same_letter(#[trigger] s[i], w[i])
}

/// From index `m` on, `t` is empty or an exponent: `e` or `E`, an optional
/// sign, then one or more digits.
pub open spec fn is_exponent_at(t: Seq<char>, m: int) -> bool {
    m == t.len() || (0 <= m < t.len() && same_letter(t[m], 'e') && {
        let k = if m + 1 < t.len() && (t[m + 1] == '+' || t[m + 1] == '-') {
            m + 2
        } else {
            m + 1
        };
        digit_run(t, k) > 0 && k + digit_run(t, k) == t.len()
    })
}

/// `t` is digits, an optional point and digits (at least one digit in all),
/// then an optional exponent.
pub open spec fn is_decimal_number(t: Seq<char>) -> bool {
    let a = digit_run(t, 0);
    let point = a < t.len() && t[a] == '.';
    let f = if point { digit_run(t, a + 1) } else { 0 };
    let m = if point { a + 1 + f } else { a };
    (a > 0 || f > 0) && is_exponent_at(t, m)
}

/// The texts that `f64::from_str` accepts, by the grammar in its documentation:
/// an optional sign, then `inf`, `infinity`, `nan` (ignoring ASCII case) or a
/// decimal number.
pub open spec fn is_float_literal(s: Seq<char>) -> bool {
    let t = if s.len() > 0 && (s[0] == '+' || s[0] == '-') { s.drop_first() } else { s };
    ||| is_word_ignoring_case(t, seq!['i', 'n', 'f'])
    ||| is_word_ignoring_case(t, seq!['i', 'n', 'f', 'i', 'n', 'i', 't', 'y'])
    ||| is_word_ignoring_case(t, seq!['n', 'a', 'n'])
    ||| is_decimal_number(t)
}

fn count_digits(s: &[char], i: usize) -> (n: usize)
    requires
        i <= s.len(),
    ensures
        n == digit_run(s@, i as int),
        i + n <= s.len(),
{
    let mut j = i;
    while j < s.len() && (s[j] as u32) >= 48 && (s[j] as u32) <= 57
        invariant
            i <= j <= s.len(),
            digit_run(s@, i as int) == (j - i) + digit_run(s@, j as int),
        decreases s.len() - j,
    {
        j = j + 1;
    }
    j - i
}

fn word_ignoring_case(s: &[char], from: usize, w: &[char]) -> (b: bool)
    requires
        from <= s.len(),
        forall|i: int| 0 <= i < w.len() ==> 97 <= (#[trigger] w@[i] as u32) <= 122,
    ensures
        b == is_word_ignoring_case(s@.skip(from as int), w@),
{
    if s.len() - from != w.len() {
        return false;
    }
    let mut i: usize = 0;
    while i < w.len()
        invariant
            0 <= i <= w.len(),
            s.len() - from == w.len(),
            forall|k: int| 0 <= k < w.len() ==> 97 <= (#[trigger] w@[k] as u32) <= 122,
            forall|k: int| 0 <= k < i ==> same_letter(#[trigger] s@.skip(from as int)[k], w@[k]),
        decreases w.len() - i,
    {
        let c = s[from + i];
        if !(c == w[i] || (c as u32) == (w[i] as u32) - 32) {
            assert(!same_letter(s@.skip(from as int)[i as int], w@[i as int]));
            return false;
        }
        i = i + 1;
    }
    true
}

/// A sign part of a number: empty, `+` or `-`.
pub open spec fn is_sign_part(sg: Seq<char>) -> bool {
    sg == Seq::<char>::empty() || sg == seq!['+'] || sg == seq!['-']
}

/// The parts of a decimal number in `f64::from_str`'s grammar: a sign,
/// integer digits `a`, an optional point with fraction digits `b` (at least
/// one digit in all), and an optional exponent: `e` or `E`, a sign, and one
/// or more digits `x`.
pub open spec fn float_parts_ok(
    sign: Seq<char>,
    a: Seq<char>,
    point: bool,
    b: Seq<char>,
    exp: bool,
    letter: char,
    esign: Seq<char>,
    x: Seq<char>,
) -> bool {
    &&& is_sign_part(sign)
    &&& all_digits(a)
    &&& all_digits(b)
    &&& (point || b.len() == 0)
    &&& a.len() + b.len() > 0
    &&& (exp ==> (letter == 'e' || letter == 'E') && is_sign_part(esign) && all_digits(x) && x.len() > 0)
    &&& (!exp ==> esign.len() == 0 && x.len() == 0)
}

/// The text those parts spell.
pub open spec fn float_text_of(
    sign: Seq<char>,
    a: Seq<char>,
    point: bool,
    b: Seq<char>,
    exp: bool,
    letter: char,
    esign: Seq<char>,
    x: Seq<char>,
) -> Seq<char> {
    sign + a + (if point {
        seq!['.'] + b
    } else {
        Seq::empty()
    }) + (if exp {
        seq![letter] + esign + x
    } else {
        Seq::empty()
    })
}

proof fn lemma_digit_run_of(t: Seq<char>, i: int, n: int)
    requires
        0 <= i,
        0 <= n,
        i + n <= t.len(),
        forall|j: int| i <= j < i + n ==> is_digit(#[trigger] t[j]),
        i + n == t.len() || !is_digit(t[i + n]),
    ensures
        digit_run(t, i) == n,
    decreases n,
{
    if n > 0 {
        lemma_digit_run_of(t, i + 1, n - 1);
    }
}

proof fn lemma_decimal_body(a: Seq<char>, point: bool, b: Seq<char>, exp: bool, letter: char, esign: Seq<char>, x: Seq<char>)
    requires
        float_parts_ok(Seq::empty(), a, point, b, exp, letter, esign, x),
    ensures
        is_decimal_number(float_text_of(Seq::empty(), a, point, b, exp, letter, esign, x)),
{
    let pt = if point { seq!['.'] + b } else { Seq::<char>::empty() };
    let xp = if exp { seq![letter] + esign + x } else { Seq::<char>::empty() };
    let t = float_text_of(Seq::empty(), a, point, b, exp, letter, esign, x);
    assert(t =~= a + pt + xp);
    let na = a.len() as int;
    let m = na + pt.len();
    assert(forall|j: int| 0 <= j < na ==> t[j] == a[j]);
    assert(forall|j: int| 0 <= j < pt.len() ==> t[na + j] == pt[j]);
    assert(forall|j: int| 0 <= j < xp.len() ==> t[m + j] == xp[j]);
    if exp {
        assert(xp[0] == letter);
        assert(!is_digit(letter));
    }
    if point {
        assert(pt[0] == '.');
    }
    lemma_digit_run_of(t, 0, na);
    if point {
        assert forall|j: int| na + 1 <= j < na + 1 + b.len() implies is_digit(#[trigger] t[j]) by {
            assert(t[j] == pt[j - na]);
            assert(pt[j - na] == b[j - na - 1]);
        }
        lemma_digit_run_of(t, na + 1, b.len() as int);
    } else {
        assert(na == t.len() || t[na] == letter);
    }
    if exp {
        let k = if esign.len() > 0 { m + 2 } else { m + 1 };
        assert(same_letter(t[m], 'e'));
        if esign.len() > 0 {
            assert(xp[1] == esign[0]);
            assert(t[m + 1] == '+' || t[m + 1] == '-');
        } else {
            assert(xp[1] == x[0]);
            assert(is_digit(t[m + 1]));
        }
        assert forall|j: int| k <= j < k + x.len() implies is_digit(#[trigger] t[j]) by {
            assert(t[j] == xp[j - m]);
            assert(xp[j - m] == x[j - k]);
        }
        lemma_digit_run_of(t, k, x.len() as int);
        assert(k + x.len() == t.len());
    } else {
        assert(m == t.len());
    }
}

/// Every decimal number of `f64::from_str`'s documented grammar is a float
/// literal: an optional sign, digits with an optional point and fraction
/// (at least one digit in all), and an optional exponent with one or more
/// digits.
pub proof fn lemma_float_literal_forms(
    sign: Seq<char>,
    a: Seq<char>,
    point: bool,
    b: Seq<char>,
    exp: bool,
    letter: char,
    esign: Seq<char>,
    x: Seq<char>,
)
    requires
        float_parts_ok(sign, a, point, b, exp, letter, esign, x),
    ensures
        is_float_literal(float_text_of(sign, a, point, b, exp, letter, esign, x)),
{
    lemma_decimal_body(a, point, b, exp, letter, esign, x);
    let body = float_text_of(Seq::empty(), a, point, b, exp, letter, esign, x);
    let s = float_text_of(sign, a, point, b, exp, letter, esign, x);
    assert(s =~= sign + body);
    assert(body.len() > 0);
    if a.len() > 0 {
        assert(body[0] == a[0]);
    } else {
        assert(body[0] == '.');
    }
    if sign.len() > 0 {
        assert(s.drop_first() =~= body);
    } else {
        assert(s =~= body);
    }
}

proof fn lemma_digit_run_digits(t: Seq<char>, i: int)
    requires
        0 <= i,
    ensures
        i + digit_run(t, i) <= t.len() || digit_run(t, i) == 0,
        digit_run(t, i) >= 0,
        forall|j: int| i <= j < i + digit_run(t, i) ==> is_digit(#[trigger] t[j]),
        i + digit_run(t, i) < t.len() ==> !is_digit(t[i + digit_run(t, i)]),
    decreases t.len() - i,
{
    if 0 <= i < t.len() && is_digit(t[i]) {
        lemma_digit_run_digits(t, i + 1);
    }
}

/// `w` is `inf`, `infinity` or `nan`, ignoring ASCII case.
pub open spec fn is_float_word(w: Seq<char>) -> bool {
    ||| is_word_ignoring_case(w, seq!['i', 'n', 'f'])
    ||| is_word_ignoring_case(w, seq!['i', 'n', 'f', 'i', 'n', 'i', 't', 'y'])
    ||| is_word_ignoring_case(w, seq!['n', 'a', 'n'])
}

proof fn lemma_exponent_parts(t: Seq<char>, m: int) -> (r: (char, Seq<char>, Seq<char>))
    requires
        0 <= m < t.len(),
        is_exponent_at(t, m),
    ensures
        r.0 == 'e' || r.0 == 'E',
        is_sign_part(r.1),
        all_digits(r.2),
        r.2.len() > 0,
        seq![r.0] + r.1 + r.2 == t.subrange(m, t.len() as int),
{
    let k = if m + 1 < t.len() && (t[m + 1] == '+' || t[m + 1] == '-') { m + 2 } else { m + 1 };
    let letter = t[m];
    let esign = t.subrange(m + 1, k);
    let x = t.subrange(k, t.len() as int);
    lemma_digit_run_digits(t, k);
    vstd::utf8::char_u32_cast(t[m], t[m] as u32);
    vstd::utf8::char_u32_cast('E', 'E' as u32);
    if k == m + 2 {
        assert(esign =~= seq![t[m + 1]]);
    } else {
        assert(esign =~= Seq::<char>::empty());
    }
    assert forall|j: int| 0 <= j < x.len() implies is_digit(#[trigger] x[j]) by {
        assert(x[j] == t[k + j]);
    }
    assert(seq![letter] + esign + x =~= t.subrange(m, t.len() as int));
    (letter, esign, x)
}

#[verifier::rlimit(30)]
proof fn lemma_decimal_parts(t: Seq<char>) -> (r: (Seq<char>, bool, Seq<char>, bool, char, Seq<char>, Seq<char>))
    requires
        is_decimal_number(t),
    ensures
        float_parts_ok(Seq::empty(), r.0, r.1, r.2, r.3, r.4, r.5, r.6),
        float_text_of(Seq::empty(), r.0, r.1, r.2, r.3, r.4, r.5, r.6) == t,
{
    let na = digit_run(t, 0);
    lemma_digit_run_digits(t, 0);
    let point = na < t.len() && t[na] == '.';
    let f = if point { digit_run(t, na + 1) } else { 0 };
    if point {
        lemma_digit_run_digits(t, na + 1);
    }
    let m = if point { na + 1 + f } else { na };
    let a = t.take(na);
    let b = if point { t.subrange(na + 1, na + 1 + f) } else { Seq::<char>::empty() };
    let exp = m < t.len();
    let (letter, esign, x) = if exp {
        lemma_exponent_parts(t, m)
    } else {
        ('e', Seq::<char>::empty(), Seq::<char>::empty())
    };
    assert(all_digits(a)) by {
        assert forall|j: int| 0 <= j < a.len() implies is_digit(#[trigger] a[j]) by {
            assert(a[j] == t[j]);
        }
    }
    assert(all_digits(b)) by {
        assert forall|j: int| 0 <= j < b.len() implies is_digit(#[trigger] b[j]) by {
            assert(b[j] == t[na + 1 + j]);
        }
    }
    let pt = if point { seq!['.'] + b } else { Seq::<char>::empty() };
    let xp = if exp { seq![letter] + esign + x } else { Seq::<char>::empty() };
    if point {
        assert(pt =~= t.subrange(na, m));
    } else {
        assert(pt =~= t.subrange(na, m));
    }
    if !exp {
        assert(xp =~= t.subrange(m, t.len() as int));
    }
    assert(t =~= t.take(na) + t.subrange(na, m) + t.subrange(m, t.len() as int));
    assert(float_text_of(Seq::empty(), a, point, b, exp, letter, esign, x) =~= t);
    (a, point, b, exp, letter, esign, x)
}

/// Every float literal is of `f64::from_str`'s documented grammar: an
/// optional sign and then `inf`, `infinity` or `nan` (ignoring case), or a
/// decimal number spelled by parts as [`float_parts_ok`] allows.
pub proof fn lemma_float_literal_grammar(s: Seq<char>)
    requires
        is_float_literal(s),
    ensures
        (exists|sg: Seq<char>, w: Seq<char>| is_sign_part(sg) && is_float_word(w) && #[trigger] (sg + w) == s)
        || (exists|sign: Seq<char>, a: Seq<char>, point: bool, b: Seq<char>, exp: bool, letter: char, esign: Seq<char>, x: Seq<char>|
            float_parts_ok(sign, a, point, b, exp, letter, esign, x) && #[trigger] float_text_of(sign, a, point, b, exp, letter, esign, x) == s),
{
    let signed = s.len() > 0 && (s[0] == '+' || s[0] == '-');
    let sign = if signed { s.take(1) } else { Seq::<char>::empty() };
    let t = if signed { s.drop_first() } else { s };
    assert(sign + t =~= s);
    if signed {
        assert(sign =~= seq![s[0]]);
    }
    assert(is_sign_part(sign));
    if is_float_word(t) {
        assert(is_sign_part(sign) && is_float_word(t) && sign + t == s);
    } else {
        let (a, point, b, exp, letter, esign, x) = lemma_decimal_parts(t);
        assert(float_text_of(sign, a, point, b, exp, letter, esign, x) =~= sign + float_text_of(
            Seq::empty(), a, point, b, exp, letter, esign, x));
        assert(float_parts_ok(sign, a, point, b, exp, letter, esign, x));
        assert(float_text_of(sign, a, point, b, exp, letter, esign, x) == s);
    }
}

/// Whether `f64::from_str` accepts `s` (see [`is_float_literal`]).
pub fn float_literal(s: &[char]) -> (b: bool)
    ensures
        b == is_float_literal(s@),
{
    let from: usize = if s.len() > 0 && (s[0] == '+' || s[0] == '-') { 1 } else { 0 };
    let ghost t = s@.skip(from as int);
    proof {
        if from == 1 {
            assert(t =~= s@.drop_first());
        } else {
            assert(t =~= s@);
        }
    }
    let inf = ['i', 'n', 'f'];
    let infinity = ['i', 'n', 'f', 'i', 'n', 'i', 't', 'y'];
    let nan = ['n', 'a', 'n'];
    assert(inf@ == seq!['i', 'n', 'f']);
    assert(infinity@ == seq!['i', 'n', 'f', 'i', 'n', 'i', 't', 'y']);
    assert(nan@ == seq!['n', 'a', 'n']);
    if word_ignoring_case(s, from, &inf) || word_ignoring_case(s, from, &infinity)
        || word_ignoring_case(s, from, &nan) {
        return true;
    }
    decimal_number(s, from)
}

fn decimal_number(s: &[char], from: usize) -> (b: bool)
    requires
        from <= s.len(),
    ensures
        b == is_decimal_number(s@.skip(from as int)),
{
    let ghost t = s@.skip(from as int);
    let n = s.len();
    let a = count_digits(s, from);
    proof {
        lemma_digit_run_shift(s@, from as int, 0);
    }
    let point = from + a < n && s[from + a] == '.';
    assert(point == (a < t.len() && t[a as int] == '.'));
    let f = if point { count_digits(s, from + a + 1) } else { 0 };
    proof {
        if point {
            lemma_digit_run_shift(s@, from as int, a + 1);
        }
    }
    let m = if point { from + a + 1 + f } else { from + a };
    if a == 0 && f == 0 {
        return false;
    }
    if m == n {
        return true;
    }
    let c = s[m];
    assert(t[m - from] == c);
    if !(c == 'e' || c == 'E') {
        proof {
            vstd::utf8::char_u32_cast(c, c as u32);
            vstd::utf8::char_u32_cast('E', 'E' as u32);
        }
        return false;
    }
    let k = if m + 1 < n && (s[m + 1] == '+' || s[m + 1] == '-') { m + 2 } else { m + 1 };
    let d = count_digits(s, k);
    proof {
        lemma_digit_run_shift(s@, from as int, k - from);
        if m + 1 < n {
            assert(t[m - from + 1] == s@[m + 1]);
        }
    }
    d > 0 && k + d == n
}

proof fn lemma_digit_run_shift(s: Seq<char>, from: int, i: int)
    requires
        0 <= from <= s.len(),
        0 <= i,
    ensures
        digit_run(s.skip(from), i) == digit_run(s, from + i),
    decreases s.len() - from - i,
{
    if from + i < s.len() {
        lemma_digit_run_shift(s, from, i + 1);
    }
}

broadcast use vstd::utf8::char_is_scalar;

/// The byte offset in the UTF-8 encoding of `s` at which its char `i` begins.
pub open spec fn byte_offset(s: Seq<char>, i: int) -> int {
    vstd::utf8::encode_utf8(s.take(i)).len() as int
}

/// The first byte of the UTF-8 encoding of `c`.
pub open spec fn lead_byte(c: char) -> u8 {
    vstd::utf8::encode_scalar(c as u32)[0]
}

/// Encoding a concatenation encodes each part in turn.
pub proof fn lemma_encode_utf8_concat(a: Seq<char>, b: Seq<char>)
    ensures
        vstd::utf8::encode_utf8(a + b) == vstd::utf8::encode_utf8(a) + vstd::utf8::encode_utf8(b),
    decreases a.len(),
{
    if a.len() > 0 {
        lemma_encode_utf8_concat(a.drop_first(), b);
        assert((a + b).drop_first() =~= a.drop_first() + b);
        assert((a + b)[0] == a[0]);
        assert(vstd::utf8::encode_utf8(a + b) =~= vstd::utf8::encode_scalar(a[0] as u32)
            + vstd::utf8::encode_utf8(a.drop_first() + b));
    } else {
        assert(a + b =~= b);
    }
}

/// A text has at least as many UTF-8 bytes as chars.
pub proof fn lemma_encode_utf8_len(s: Seq<char>)
    ensures
        s.len() <= vstd::utf8::encode_utf8(s).len(),
    decreases s.len(),
{
    if s.len() > 0 {
        lemma_encode_utf8_len(s.drop_first());
    }
}

proof fn lemma_byte_offset_step(s: Seq<char>, i: int)
    requires
        0 <= i < s.len(),
    ensures
        byte_offset(s, i + 1) == byte_offset(s, i) + vstd::utf8::encode_scalar(s[i] as u32).len(),
        byte_offset(s, i + 1) <= vstd::utf8::encode_utf8(s).len(),
{
    lemma_encode_utf8_concat(s.take(i), seq![s[i]]);
    assert(s.take(i) + seq![s[i]] =~= s.take(i + 1));
    assert(vstd::utf8::encode_utf8(seq![s[i]]) =~= vstd::utf8::encode_scalar(s[i] as u32)) by {
        assert(seq![s[i]].drop_first() =~= Seq::<char>::empty());
        assert(vstd::utf8::encode_utf8(seq![s[i]].drop_first()) =~= Seq::<u8>::empty());
        assert(vstd::utf8::encode_utf8(seq![s[i]]) == vstd::utf8::encode_scalar(seq![s[i]][0] as u32)
            + vstd::utf8::encode_utf8(seq![s[i]].drop_first()));
    }
    lemma_encode_utf8_concat(s.take(i + 1), s.skip(i + 1));
    assert(s.take(i + 1) + s.skip(i + 1) =~= s);
}

/// Error positions count UTF-8 bytes: the first char is at offset 0, an
/// ASCII char takes one byte and any other char two to four; and the byte
/// reported for a char is its own code when it is ASCII, and a lead byte of
/// `0xC0` or more otherwise.
pub proof fn lemma_byte_positions(s: Seq<char>, i: int, c: char)
    ensures
        byte_offset(s, 0) == 0,
        0 <= i < s.len() && (s[i] as u32) < 128 ==> byte_offset(s, i + 1) == byte_offset(s, i) + 1,
        0 <= i < s.len() && (s[i] as u32) >= 128 ==> byte_offset(s, i) + 2 <= byte_offset(s, i + 1)
            <= byte_offset(s, i) + 4,
        (c as u32) < 128 ==> lead_byte(c) as u32 == c as u32,
        (c as u32) >= 128 ==> lead_byte(c) >= 0xC0,
{
    assert(s.take(0) =~= Seq::<char>::empty());
    if 0 <= i < s.len() {
        lemma_byte_offset_step(s, i);
    }
    let v = c as u32;
    if v < 128 {
        assert(((v & 0x7F) as u8) as u32 == v) by (bit_vector)
            requires
                v < 128,
        ;
    } else if v <= 0x7FF {
        assert(0xC0 | ((v >> 6) & 0x1F) as u8 >= 0xC0) by (bit_vector);
    } else if v <= 0xFFFF {
        assert(0xE0 | ((v >> 12) & 0x0F) as u8 >= 0xC0) by (bit_vector);
    } else {
        assert(0xF0 | ((v >> 18) & 0x7) as u8 >= 0xC0) by (bit_vector);
    }
}

fn utf8_width(c: char) -> (w: usize)
    ensures
        w == vstd::utf8::encode_scalar(c as u32).len(),
{
    let v = c as u32;
    if v <= 0x7F {
        1
    } else if v <= 0x7FF {
        2
    } else if v <= 0xFFFF {
        3
    } else {
        4
    }
}

/// The byte offset of char `i` of `s` in its UTF-8 encoding.
pub fn byte_offset_of(s: &[char], i: usize) -> (off: usize)
    requires
        i <= s.len(),
        vstd::utf8::encode_utf8(s@).len() <= usize::MAX,
    ensures
        off == byte_offset(s@, i as int),
{
    let mut off: usize = 0;
    let mut k: usize = 0;
    proof {
        assert(s@.take(0) =~= Seq::<char>::empty());
    }
    while k < i
        invariant
            k <= i <= s.len(),
            vstd::utf8::encode_utf8(s@).len() <= usize::MAX,
            off == byte_offset(s@, k as int),
        decreases i - k,
    {
        proof {
            lemma_byte_offset_step(s@, k as int);
        }
        off = off + utf8_width(s[k]);
        k = k + 1;
    }
    off
}

/// The first byte of the UTF-8 encoding of `c`.
pub fn lead_byte_of(c: char) -> (b: u8)
    ensures
        b == lead_byte(c),
{
    let v = c as u32;
    if v <= 0x7F {
        (v & 0x7F) as u8
    } else if v <= 0x7FF {
        0xC0 | ((v >> 6) & 0x1F) as u8
    } else if v <= 0xFFFF {
        0xE0 | ((v >> 12) & 0x0F) as u8
    } else {
        0xF0 | ((v >> 18) & 0x7) as u8
    }
}

/// Lexicographic order of char sequences by code point; for the UTF-8
/// strings they spell, this is the byte order in which `String`s compare.
pub open spec fn chars_less(a: Seq<char>, b: Seq<char>) -> bool
    decreases a.len(),
{
    if a.len() == 0 {
        b.len() > 0
    } else if b.len() == 0 {
        false
    } else if a[0] != b[0] {
        (a[0] as u32) < (b[0] as u32)
    } else {
        chars_less(a.drop_first(), b.drop_first())
    }
}

/// Whether `a` comes before `b` in [`chars_less`] order.
pub fn less_than(a: &[char], b: &[char]) -> (r: bool)
    ensures
        r == chars_less(a@, b@),
{
    let mut i: usize = 0;
    proof {
        assert(a@.skip(0) =~= a@);
        assert(b@.skip(0) =~= b@);
    }
    while i < a.len() && i < b.len() && a[i] == b[i]
        invariant
            i <= a.len(),
            i <= b.len(),
            chars_less(a@, b@) == chars_less(a@.skip(i as int), b@.skip(i as int)),
        decreases a.len() - i,
    {
        proof {
            assert(a@.skip(i as int).drop_first() =~= a@.skip(i + 1));
            assert(b@.skip(i as int).drop_first() =~= b@.skip(i + 1));
        }
        i = i + 1;
    }
    if i == a.len() {
        i < b.len()
    } else if i == b.len() {
        false
    } else {
        proof {
            vstd::utf8::char_u32_cast(a[i as int], a[i as int] as u32);
            vstd::utf8::char_u32_cast(b[i as int], b[i as int] as u32);
        }
        (a[i] as u32) < (b[i] as u32)
    }
}

/// [`chars_less`] is a strict total order.
pub proof fn lemma_chars_less_total(a: Seq<char>, b: Seq<char>)
    ensures
        !chars_less(a, a),
        chars_less(a, b) ==> !chars_less(b, a),
        a != b ==> chars_less(a, b) || chars_less(b, a),
    decreases a.len(),
{
    if a.len() > 0 {
        lemma_chars_less_total(a.drop_first(), a.drop_first());
    }
    if a.len() > 0 && b.len() > 0 {
        lemma_chars_less_total(a.drop_first(), b.drop_first());
        if a[0] == b[0] && a != b {
            assert(a.drop_first() != b.drop_first()) by {
                if a.drop_first() == b.drop_first() {
                    assert(a =~= seq![a[0]] + a.drop_first());
                    assert(b =~= seq![b[0]] + b.drop_first());
                }
            }
        }
        if a[0] != b[0] {
            vstd::utf8::char_u32_cast(a[0], a[0] as u32);
            vstd::utf8::char_u32_cast(b[0], b[0] as u32);
        }
    } else if a.len() == 0 && b.len() == 0 {
        assert(a =~= b);
    }
}

/// [`chars_less`] is the lexicographic order by code point: a proper
/// prefix comes first, and after a common prefix the text whose next char
/// has the smaller code comes first.
pub proof fn lemma_chars_less_lexicographic(p: Seq<char>, x: char, y: char, r1: Seq<char>, r2: Seq<char>)
    ensures
        r1.len() > 0 ==> chars_less(p, p + r1),
        (x as u32) < (y as u32) ==> chars_less(p + seq![x] + r1, p + seq![y] + r2),
    decreases p.len(),
{
    if p.len() > 0 {
        lemma_chars_less_lexicographic(p.drop_first(), x, y, r1, r2);
        assert((p + r1).drop_first() =~= p.drop_first() + r1);
        assert((p + seq![x] + r1).drop_first() =~= p.drop_first() + seq![x] + r1);
        assert((p + seq![y] + r2).drop_first() =~= p.drop_first() + seq![y] + r2);
        assert((p + r1)[0] == p[0]);
        assert((p + seq![x] + r1)[0] == p[0]);
        assert((p + seq![y] + r2)[0] == p[0]);
    } else {
        assert(p + r1 =~= r1);
        assert(p + seq![x] + r1 =~= seq![x] + r1);
        assert(p + seq![y] + r2 =~= seq![y] + r2);
        assert((seq![x] + r1)[0] == x);
        assert((seq![y] + r2)[0] == y);
    }
}

/// [`chars_less`] is transitive.
pub proof fn lemma_chars_less_trans(a: Seq<char>, b: Seq<char>, c: Seq<char>)
    requires
        chars_less(a, b),
        chars_less(b, c),
    ensures
        chars_less(a, c),
    decreases a.len(),
{
    if a.len() > 0 && b.len() > 0 && c.len() > 0 {
        if a[0] == b[0] && b[0] == c[0] {
            lemma_chars_less_trans(a.drop_first(), b.drop_first(), c.drop_first());
        } else {
            vstd::utf8::char_u32_cast(a[0], a[0] as u32);
            vstd::utf8::char_u32_cast(b[0], b[0] as u32);
            vstd::utf8::char_u32_cast(c[0], c[0] as u32);
        }
    }
}

} // verus!
