//! Quality values (`q=` weights).
//!
//! A weight is kept in thousandths: the integer `0..=1000` stands for the
//! decimal range `0.000..=1.000`. A weight numeral is an optional sign,
//! decimal digits, and at most one point; fractional digits past the third
//! must be zero, since finer values have no thousandths representation.

use vstd::prelude::*;
use crate::text::{find_char, lemma_find_char, lemma_find_char_at, lemma_find_char_none};

verus! {

/// A decimal digit.
pub open spec fn is_digit(c: char) -> bool {
    '0' as int <= c as int && c as int <= '9' as int
}

/// The numeric value of a decimal digit.
pub open spec fn digit_val(c: char) -> int {
    c as int - '0' as int
}

/// The decimal digit with value `d`.
pub open spec fn digit_char(d: int) -> char {
    if d == 0 {
        '0'
    } else if d == 1 {
        '1'
    } else if d == 2 {
        '2'
    } else if d == 3 {
        '3'
    } else if d == 4 {
        '4'
    } else if d == 5 {
        '5'
    } else if d == 6 {
        '6'
    } else if d == 7 {
        '7'
    } else if d == 8 {
        '8'
    } else {
        '9'
    }
}

/// Every character of `t` is a decimal digit.
pub open spec fn all_digits(t: Seq<char>) -> bool {
    forall|j: int| 0 <= j < t.len() ==> is_digit(t[j])
}

/// Some character of `t` is a nonzero digit.
pub open spec fn has_nonzero(t: Seq<char>) -> bool {
    exists|j: int| 0 <= j < t.len() && t[j] != '0'
}

/// The value of a digit sequence read as a decimal number.
pub open spec fn digits_val(t: Seq<char>) -> int
    decreases t.len(),
{
    if t.len() == 0 {
        0
    } else {
        digits_val(t.subrange(0, t.len() - 1)) * 10 + digit_val(t[t.len() - 1])
    }
}

/// The digit of `t` at position `k`, read as zero past the end.
pub open spec fn frac_digit(t: Seq<char>, k: int) -> int {
    if 0 <= k < t.len() {
        digit_val(t[k])
    } else {
        0
    }
}

/// The value in thousandths of the first three fractional digits.
pub open spec fn frac3(t: Seq<char>) -> int {
    frac_digit(t, 0) * 100 + frac_digit(t, 1) * 10 + frac_digit(t, 2)
}

/// The numeral starts with an explicit sign.
pub open spec fn q_signed(s: Seq<char>) -> bool {
    s.len() > 0 && (s[0] == '-' || s[0] == '+')
}

/// The numeral is negative.
pub open spec fn q_neg(s: Seq<char>) -> bool {
    s.len() > 0 && s[0] == '-'
}

/// The numeral with its sign removed.
pub open spec fn q_body(s: Seq<char>) -> Seq<char> {
    if q_signed(s) {
        s.subrange(1, s.len() as int)
    } else {
        s
    }
}

/// The digits before the decimal point.
pub open spec fn q_int_digits(s: Seq<char>) -> Seq<char> {
    let b = q_body(s);
    match find_char(b, '.') {
        None => b,
        Some(i) => b.subrange(0, i),
    }
}

/// The digits after the decimal point.
pub open spec fn q_frac_digits(s: Seq<char>) -> Seq<char> {
    let b = q_body(s);
    match find_char(b, '.') {
        None => Seq::empty(),
        Some(i) => b.subrange(i + 1, b.len() as int),
    }
}

/// The numeral is well formed: sign, digits, at most one point, and at
/// least one digit.
pub open spec fn q_grammar_ok(s: Seq<char>) -> bool {
    &&& all_digits(q_int_digits(s))
    &&& all_digits(q_frac_digits(s))
    &&& q_int_digits(s).len() + q_frac_digits(s).len() >= 1
}

/// Fractional digits past the third are zero, so the numeral has an exact
/// thousandths representation.
pub open spec fn q_rep_ok(s: Seq<char>) -> bool {
    forall|j: int| 3 <= j < q_frac_digits(s).len() ==> q_frac_digits(s)[j] == '0'
}

/// The numeral lies outside `[0, 1]`.
pub open spec fn q_out_of_range(s: Seq<char>) -> bool {
    ||| (q_neg(s) && (has_nonzero(q_int_digits(s)) || has_nonzero(q_frac_digits(s))))
    ||| digits_val(q_int_digits(s)) > 1
    ||| (digits_val(q_int_digits(s)) == 1 && has_nonzero(q_frac_digits(s)))
}

/// The magnitude of the numeral in thousandths, its fraction truncated to
/// three digits.
pub open spec fn q_mag(s: Seq<char>) -> int {
    digits_val(q_int_digits(s)) * 1000 + frac3(q_frac_digits(s))
}

/// Leading zeros removed.
pub open spec fn strip_leading_zeros(t: Seq<char>) -> Seq<char>
    decreases t.len(),
{
    if t.len() > 0 && t[0] == '0' {
        strip_leading_zeros(t.subrange(1, t.len() as int))
    } else {
        t
    }
}

/// Trailing zeros removed.
pub open spec fn strip_trailing_zeros(t: Seq<char>) -> Seq<char>
    decreases t.len(),
{
    if t.len() > 0 && t[t.len() - 1] == '0' {
        strip_trailing_zeros(t.subrange(0, t.len() - 1))
    } else {
        t
    }
}

/// The canonical rendering of a well-formed numeral: sign only when
/// negative, no superfluous leading or trailing zeros, no bare point.
pub open spec fn q_canonical(s: Seq<char>) -> Seq<char> {
    let sign: Seq<char> = if q_neg(s) {
        seq!['-']
    } else {
        Seq::empty()
    };
    let ip = strip_leading_zeros(q_int_digits(s));
    let ipart: Seq<char> = if ip.len() == 0 {
        seq!['0']
    } else {
        ip
    };
    let fp = strip_trailing_zeros(q_frac_digits(s));
    let fpart: Seq<char> = if fp.len() == 0 {
        Seq::empty()
    } else {
        seq!['.'] + fp
    };
    sign + ipart + fpart
}

/// The canonical rendering of a weight held in thousandths: `1` for the
/// full weight, otherwise `0` followed by the fractional digits without
/// trailing zeros.
pub open spec fn render_weight(w: int) -> Seq<char> {
    if w == 1000 {
        seq!['1']
    } else {
        let d1 = digit_char(w / 100);
        let d2 = digit_char((w / 10) % 10);
        let d3 = digit_char(w % 10);
        if w % 10 != 0 {
            seq!['0', '.', d1, d2, d3]
        } else if (w / 10) % 10 != 0 {
            seq!['0', '.', d1, d2]
        } else if w / 100 != 0 {
            seq!['0', '.', d1]
        } else {
            seq!['0']
        }
    }
}

/// The digit with value `d` renders and reads back as `d`.
pub proof fn lemma_digit_char(d: int)
    requires
        0 <= d <= 9,
    ensures
        is_digit(digit_char(d)),
        digit_val(digit_char(d)) == d,
        d != 0 ==> digit_char(d) != '0',
        d == 0 ==> digit_char(d) == '0',
{
}

/// A rendered weight holds only digits and the point.
pub proof fn lemma_render_weight_chars(w: int)
    requires
        0 <= w <= 1000,
    ensures
        forall|j: int|
            0 <= j < render_weight(w).len() ==> (is_digit(#[trigger] render_weight(w)[j])
                || render_weight(w)[j] == '.'),
        render_weight(w).len() >= 1,
{
    if w < 1000 {
        lemma_digit_char(w / 100);
        lemma_digit_char((w / 10) % 10);
        lemma_digit_char(w % 10);
    }
}

/// A rendered weight reads back as the same weight.
pub proof fn lemma_render_weight_parses(w: int)
    requires
        0 <= w <= 1000,
    ensures
        q_grammar_ok(render_weight(w)),
        q_rep_ok(render_weight(w)),
        !q_out_of_range(render_weight(w)),
        q_mag(render_weight(w)) == w,
{
    let r = render_weight(w);
    let d1 = w / 100;
    let d2 = (w / 10) % 10;
    let d3 = w % 10;
    if w < 1000 {
        lemma_digit_char(d1);
        lemma_digit_char(d2);
        lemma_digit_char(d3);
    }
    assert(!q_signed(r));
    assert(q_body(r) == r);
    if w == 1000 {
        lemma_find_char_none(r, '.');
        assert(q_int_digits(r) =~= r);
        assert(digits_val(r) == digits_val(r.subrange(0, 0)) * 10 + digit_val('1'));
    } else {
        assert(w == d1 * 100 + d2 * 10 + d3);
        if w % 10 != 0 || (w / 10) % 10 != 0 || w / 100 != 0 {
            lemma_find_char_at(r, '.', 1);
            let ints = q_int_digits(r);
            let fracs = q_frac_digits(r);
            assert(ints =~= seq!['0']);
            assert(digits_val(ints) == digits_val(ints.subrange(0, 0)) * 10 + digit_val('0'));
            if w % 10 != 0 {
                assert(fracs =~= seq![d1, d2, d3].map_values(|d: int| digit_char(d)));
                assert(fracs =~= seq![digit_char(d1), digit_char(d2), digit_char(d3)]);
            } else if (w / 10) % 10 != 0 {
                assert(fracs =~= seq![digit_char(d1), digit_char(d2)]);
                assert(d3 == 0);
            } else {
                assert(fracs =~= seq![digit_char(d1)]);
                assert(d3 == 0 && d2 == 0);
            }
        } else {
            assert(w == 0);
            lemma_find_char_none(r, '.');
            assert(q_int_digits(r) =~= seq!['0']);
            assert(q_frac_digits(r) == Seq::<char>::empty());
            assert(digits_val(seq!['0']) == digits_val(seq!['0'].subrange(0, 0)) * 10 + digit_val(
                '0',
            ));
        }
    }
}

/// A well-formed numeral holds only digits, one point, and a sign.
pub proof fn lemma_q_grammar_chars(w: Seq<char>)
    requires
        q_grammar_ok(w),
    ensures
        w.len() >= 1,
        forall|j: int|
            0 <= j < w.len() ==> (is_digit(#[trigger] w[j]) || w[j] == '.' || w[j] == '-' || w[j]
                == '+'),
{
    let b = q_body(w);
    lemma_find_char(b, '.');
    assert forall|j: int|
        0 <= j < w.len() implies (is_digit(#[trigger] w[j]) || w[j] == '.' || w[j] == '-' || w[j]
        == '+') by {
        if !(q_signed(w) && j == 0) {
            let k = if q_signed(w) {
                j - 1
            } else {
                j
            };
            assert(b[k] == w[j]);
            match find_char(b, '.') {
                None => {
                    assert(q_int_digits(w)[k] == b[k]);
                }
                Some(i) => {
                    if k < i {
                        assert(q_int_digits(w)[k] == b[k]);
                    } else if k > i {
                        assert(q_frac_digits(w)[k - i - 1] == b[k]);
                    }
                }
            }
        }
    }
}

/// Executable digit rendering.
pub fn digit_char_of(d: u32) -> (c: char)
    requires
        d <= 9,
    ensures
        c == digit_char(d as int),
{
    if d == 0 {
        '0'
    } else if d == 1 {
        '1'
    } else if d == 2 {
        '2'
    } else if d == 3 {
        '3'
    } else if d == 4 {
        '4'
    } else if d == 5 {
        '5'
    } else if d == 6 {
        '6'
    } else if d == 7 {
        '7'
    } else if d == 8 {
        '8'
    } else {
        '9'
    }
}

/// Renders a weight, as `render_weight` describes.
pub fn render_weight_chars(w: u32) -> (r: Vec<char>)
    requires
        w <= 1000,
    ensures
        r@ == render_weight(w as int),
{
    let mut r: Vec<char> = Vec::new();
    if w == 1000 {
        r.push('1');
        proof {
            assert(r@ =~= render_weight(w as int));
        }
        return r;
    }
    let d1 = w / 100;
    let d2 = (w / 10) % 10;
    let d3 = w % 10;
    if d3 != 0 {
        r.push('0');
        r.push('.');
        r.push(digit_char_of(d1));
        r.push(digit_char_of(d2));
        r.push(digit_char_of(d3));
    } else if d2 != 0 {
        r.push('0');
        r.push('.');
        r.push(digit_char_of(d1));
        r.push(digit_char_of(d2));
    } else if d1 != 0 {
        r.push('0');
        r.push('.');
        r.push(digit_char_of(d1));
    } else {
        r.push('0');
    }
    proof {
        assert(r@ =~= render_weight(w as int));
    }
    r
}

/// How a weight numeral is read.
pub enum WeightOutcome {
    /// A value in `[0, 1]`, in thousandths.
    Value(u32),
    /// Not a numeral of the accepted grammar.
    NotNumeric,
    /// A numeral outside `[0, 1]`; holds its canonical rendering.
    OutOfRange(Vec<char>),
}

/// Executable digit test.
pub fn char_is_digit(c: char) -> (b: bool)
    ensures
        b == is_digit(c),
{
    let u = c as u32;
    48 <= u && u <= 57
}

/// A run of leading zeros determines `strip_leading_zeros`.
pub proof fn lemma_strip_leading(t: Seq<char>, k: int)
    requires
        0 <= k <= t.len(),
        forall|j: int| 0 <= j < k ==> t[j] == '0',
        k == t.len() || t[k] != '0',
    ensures
        strip_leading_zeros(t) == t.subrange(k, t.len() as int),
    decreases k,
{
    if k == 0 {
        assert(t.subrange(0, t.len() as int) =~= t);
    } else {
        let sub = t.subrange(1, t.len() as int);
        lemma_strip_leading(sub, k - 1);
        assert(sub.subrange(k - 1, sub.len() as int) =~= t.subrange(k, t.len() as int));
    }
}

/// A run of trailing zeros determines `strip_trailing_zeros`.
pub proof fn lemma_strip_trailing(t: Seq<char>, k: int)
    requires
        0 <= k <= t.len(),
        forall|j: int| k <= j < t.len() ==> t[j] == '0',
        k == 0 || t[k - 1] != '0',
    ensures
        strip_trailing_zeros(t) == t.subrange(0, k),
    decreases t.len() - k,
{
    if k == t.len() {
        assert(t.subrange(0, t.len() as int) =~= t);
    } else {
        let sub = t.subrange(0, t.len() - 1);
        lemma_strip_trailing(sub, k);
        assert(sub.subrange(0, k) =~= t.subrange(0, k));
    }
}

/// A sequence of zero digits has no nonzero value.
pub proof fn lemma_all_zero_val(t: Seq<char>)
    requires
        !has_nonzero(t),
    ensures
        frac3(t) == 0,
        digits_val(t) == 0,
    decreases t.len(),
{
    if t.len() > 0 {
        let sub = t.subrange(0, t.len() - 1);
        assert(forall|j: int| 0 <= j < sub.len() ==> sub[j] == '0');
        lemma_all_zero_val(sub);
        assert(t[t.len() - 1] == '0');
    }
}

/// Appends `v[a..b]` to `out`.
pub fn extend_from(out: &mut Vec<char>, v: &Vec<char>, a: usize, b: usize)
    requires
        a <= b <= v@.len(),
    ensures
        final(out)@ == old(out)@ + v@.subrange(a as int, b as int),
{
    let mut i: usize = a;
    while i < b
        invariant
            a <= i <= b <= v@.len(),
            out@ == old(out)@ + v@.subrange(a as int, i as int),
        decreases b - i,
    {
        out.push(v[i]);
        i = i + 1;
        proof {
            assert(old(out)@ + v@.subrange(a as int, i as int) =~= (old(out)@ + v@.subrange(
                a as int,
                i - 1,
            )).push(v@[i - 1]));
        }
    }
    proof {
        assert(out@ =~= old(out)@ + v@.subrange(a as int, b as int));
    }
}

/// Builds the canonical rendering of a well-formed numeral whose parts
/// sit at the given positions.
fn canonical_of(v: &Vec<char>, b0: usize, int_end: usize, fstart: usize, neg: bool) -> (out: Vec<
    char,
>)
    requires
        b0 <= int_end <= fstart <= v@.len(),
        neg == q_neg(v@),
        q_int_digits(v@) == v@.subrange(b0 as int, int_end as int),
        q_frac_digits(v@) == v@.subrange(fstart as int, v@.len() as int),
    ensures
        out@ == q_canonical(v@),
{
    let n = v.len();
    let ghost ints = v@.subrange(b0 as int, int_end as int);
    let ghost fracs = v@.subrange(fstart as int, n as int);
    let mut out: Vec<char> = Vec::new();
    if neg {
        out.push('-');
    }
    let mut a: usize = b0;
    while a < int_end && v[a] == '0'
        invariant
            b0 <= a <= int_end <= n == v@.len(),
            forall|t: int| b0 <= t < a ==> v@[t] == '0',
        decreases int_end - a,
    {
        a = a + 1;
    }
    proof {
        lemma_strip_leading(ints, a - b0);
        assert(ints.subrange(a - b0, ints.len() as int) =~= v@.subrange(a as int, int_end as int));
    }
    if a == int_end {
        out.push('0');
    } else {
        extend_from(&mut out, v, a, int_end);
    }
    let mut e: usize = n;
    while e > fstart && v[e - 1] == '0'
        invariant
            fstart <= e <= n == v@.len(),
            forall|t: int| e <= t < n ==> v@[t] == '0',
        decreases e,
    {
        e = e - 1;
    }
    proof {
        lemma_strip_trailing(fracs, e - fstart);
        assert(fracs.subrange(0, e - fstart) =~= v@.subrange(fstart as int, e as int));
    }
    if e > fstart {
        out.push('.');
        extend_from(&mut out, v, fstart, e);
    }
    proof {
        assert(out@ =~= q_canonical(v@));
    }
    out
}

/// Reads a trimmed weight numeral, per the grammar of this module.
#[verifier::rlimit(50)]
pub fn parse_qvalue(v: &Vec<char>) -> (r: WeightOutcome)
    ensures
        match r {
            WeightOutcome::Value(w) => q_grammar_ok(v@) && !q_out_of_range(v@) && q_rep_ok(v@)
                && w == q_mag(v@) && w <= 1000,
            WeightOutcome::NotNumeric => !(q_grammar_ok(v@) && (q_out_of_range(v@) || q_rep_ok(
                v@,
            ))),
            WeightOutcome::OutOfRange(cv) => q_grammar_ok(v@) && q_out_of_range(v@) && cv@
                == q_canonical(v@),
        },
{
    let n = v.len();
    let neg = n > 0 && v[0] == '-';
    let b0: usize = if n > 0 && (v[0] == '-' || v[0] == '+') {
        1
    } else {
        0
    };
    proof {
        assert(neg == q_neg(v@));
        if b0 == 0 {
            assert(v@.subrange(0, n as int) =~= v@);
        }
        assert(q_body(v@) == v@.subrange(b0 as int, n as int));
    }
    let ghost body = v@.subrange(b0 as int, n as int);
    // Integer part: digits up to the point or the end.
    let mut j: usize = b0;
    let mut acc: u32 = 0;
    let mut int_nonzero = false;
    while j < n && v[j] != '.'
        invariant
            b0 <= j <= n == v@.len(),
            body == v@.subrange(b0 as int, n as int),
            q_body(v@) == body,
            forall|t: int| b0 <= t < j ==> is_digit(#[trigger] v@[t]),
            (digits_val(v@.subrange(b0 as int, j as int)) <= 1000 && acc == digits_val(
                v@.subrange(b0 as int, j as int),
            )) || (digits_val(v@.subrange(b0 as int, j as int)) > 1000 && acc == 1001),
            int_nonzero == has_nonzero(v@.subrange(b0 as int, j as int)),
        decreases n - j,
    {
        let c = v[j];
        if !char_is_digit(c) {
            proof {
                lemma_find_char(body, '.');
                let bj = j - b0;
                match find_char(body, '.') {
                    None => {
                        assert(q_int_digits(v@)[bj] == v@[j as int]);
                    }
                    Some(i) => {
                        assert(body[i] == '.');
                        assert(i > bj);
                        assert(q_int_digits(v@)[bj] == v@[j as int]);
                    }
                }
                assert(!all_digits(q_int_digits(v@)));
            }
            return WeightOutcome::NotNumeric;
        }
        let d = (c as u32) - 48;
        let ghost pre = v@.subrange(b0 as int, j as int);
        proof {
            let nxt = v@.subrange(b0 as int, j + 1);
            assert(nxt =~= pre.push(v@[j as int]));
            assert(nxt.subrange(0, nxt.len() - 1) =~= pre);
            assert(digit_val(v@[j as int]) == d);
            assert(digits_val(nxt) == digits_val(pre) * 10 + d);
            if v@[j as int] == '0' {
                if has_nonzero(nxt) {
                    let t = choose|t: int| 0 <= t < nxt.len() && nxt[t] != '0';
                    assert(t < pre.len() && pre[t] != '0');
                }
                assert(has_nonzero(nxt) == has_nonzero(pre));
            } else {
                assert(nxt[nxt.len() - 1] != '0');
                assert(has_nonzero(nxt));
            }
        }
        if acc > 1000 {
            acc = 1001;
        } else {
            acc = acc * 10 + d;
            if acc > 1000 {
                acc = 1001;
            }
        }
        if c != '0' {
            int_nonzero = true;
        }
        j = j + 1;
    }
    let int_end = j;
    let ghost ints = v@.subrange(b0 as int, int_end as int);
    let dotted = j < n;
    proof {
        if dotted {
            lemma_find_char_at(body, '.', j - b0);
            assert(body.subrange(0, j - b0) =~= ints);
            assert(body.subrange(j - b0 + 1, body.len() as int) =~= v@.subrange(j + 1, n as int));
        } else {
            lemma_find_char_none(body, '.');
        }
        assert(q_int_digits(v@) == ints);
    }
    // Fractional part: digits after the point.
    let fstart: usize = if dotted {
        j + 1
    } else {
        n
    };
    let ghost fracs = v@.subrange(fstart as int, n as int);
    proof {
        if !dotted {
            assert(q_frac_digits(v@) =~= fracs);
        }
        assert(q_frac_digits(v@) == fracs);
    }
    let mut frac_acc: u32 = 0;
    let mut frac_nonzero = false;
    let mut rep = true;
    let mut k: usize = fstart;
    while k < n
        invariant
            fstart <= k <= n == v@.len(),
            fracs == v@.subrange(fstart as int, n as int),
            q_frac_digits(v@) == fracs,
            q_int_digits(v@) == ints,
            forall|t: int| fstart <= t < k ==> is_digit(#[trigger] v@[t]),
            frac_acc == frac3(v@.subrange(fstart as int, k as int)),
            frac_acc <= 999,
            frac_nonzero == has_nonzero(v@.subrange(fstart as int, k as int)),
            rep == (forall|t: int|
                3 <= t < k - fstart ==> v@.subrange(fstart as int, k as int)[t] == '0'),
        decreases n - k,
    {
        let c = v[k];
        if !char_is_digit(c) {
            proof {
                assert(q_frac_digits(v@)[k - fstart] == v@[k as int]);
                assert(!all_digits(q_frac_digits(v@)));
            }
            return WeightOutcome::NotNumeric;
        }
        let d = (c as u32) - 48;
        let p = k - fstart;
        let ghost pre = v@.subrange(fstart as int, k as int);
        let ghost nxt = v@.subrange(fstart as int, k + 1);
        proof {
            assert(nxt =~= pre.push(v@[k as int]));
            assert(digit_val(v@[k as int]) == d);
            assert(frac_digit(nxt, p as int) == d);
            assert(forall|t: int| 0 <= t < pre.len() ==> frac_digit(nxt, t) == frac_digit(pre, t));
            if p >= 3 {
                assert(frac3(nxt) == frac3(pre));
            }
        }
        if p == 0 {
            frac_acc = frac_acc + d * 100;
        } else if p == 1 {
            frac_acc = frac_acc + d * 10;
        } else if p == 2 {
            frac_acc = frac_acc + d;
        } else {
            if c != '0' {
                rep = false;
            }
        }
        if c != '0' {
            frac_nonzero = true;
        }
        k = k + 1;
    }
    proof {
        assert(v@.subrange(fstart as int, n as int) == fracs);
    }
    // At least one digit is required.
    if int_end == b0 && fstart == n {
        proof {
            assert(q_int_digits(v@).len() + q_frac_digits(v@).len() == 0);
        }
        return WeightOutcome::NotNumeric;
    }
    let oor = (neg && (int_nonzero || frac_nonzero)) || acc > 1 || (acc == 1 && frac_nonzero);
    proof {
        assert(oor == q_out_of_range(v@));
    }
    if oor {
        let out = canonical_of(v, b0, int_end, fstart, neg);
        return WeightOutcome::OutOfRange(out);
    }
    if !rep {
        return WeightOutcome::NotNumeric;
    }
    proof {
        if acc == 1 {
            lemma_all_zero_val(fracs);
        }
    }
    let w = acc * 1000 + frac_acc;
    WeightOutcome::Value(w)
}

} // verus!
