use vstd::prelude::*;
use crate::order::Sortable;
use crate::bucket::BucketSortable;
use crate::radix::RadixSortable;
use crate::digits::digits10;
use crate::digits::linear_index;
use crate::digits::lemma_pow10_pos;
use crate::digits::lemma_digit_vanishes;
use crate::digits::lemma_linear_index_bounds;
use crate::int_adapter::count_digits_u64;
use crate::int_adapter::lemma_pow10_concrete;
use crate::digits::pow10;
use crate::int_adapter::pow10_u64;

verus! {

/// Lexicographic order on character sequences: the order `str` comparison
/// gives, since UTF-8 byte order follows code-point order.
pub open spec fn lex_le(a: Seq<char>, b: Seq<char>) -> bool
    decreases a.len(),
{
    if a.len() == 0 {
        true
    } else if b.len() == 0 {
        false
    } else if (a[0] as int) < (b[0] as int) {
        true
    } else if (b[0] as int) < (a[0] as int) {
        false
    } else {
        lex_le(a.drop_first(), b.drop_first())
    }
}

pub proof fn lemma_lex_le_total(a: Seq<char>, b: Seq<char>)
    ensures
        lex_le(a, b) || lex_le(b, a),
    decreases a.len(),
{
    if a.len() > 0 && b.len() > 0 && a[0] == b[0] {
        lemma_lex_le_total(a.drop_first(), b.drop_first());
    }
}

pub proof fn lemma_lex_le_trans(a: Seq<char>, b: Seq<char>, c: Seq<char>)
    requires
        lex_le(a, b),
        lex_le(b, c),
    ensures
        lex_le(a, c),
    decreases a.len(),
{
    if a.len() > 0 && b.len() > 0 && c.len() > 0 {
        if a[0] == b[0] && b[0] == c[0] {
            lemma_lex_le_trans(a.drop_first(), b.drop_first(), c.drop_first());
        }
    }
}

impl<'a> Sortable for &'a str {
    open spec fn le_spec(self, other: Self) -> bool {
        lex_le(self@, other@)
    }

    proof fn lemma_le_total(a: Self, b: Self) {
        lemma_lex_le_total(a@, b@);
    }

    proof fn lemma_le_trans(a: Self, b: Self, c: Self) {
        lemma_lex_le_trans(a@, b@, c@);
    }

    fn le(&self, other: &Self) -> (r: bool) {
        str_le(*self, *other)
    }
}

/// Once two sequences agree on a prefix, their order is decided past it.
proof fn lemma_lex_skip(a: Seq<char>, b: Seq<char>, i: int)
    requires
        0 <= i <= a.len(),
        i <= b.len(),
        forall|j: int| 0 <= j < i ==> a[j] == b[j],
    ensures
        lex_le(a, b) == lex_le(a.skip(i), b.skip(i)),
    decreases i,
{
    if i > 0 {
        assert(a.len() > 0 && b.len() > 0);
        assert(a[0] == b[0]);
        lemma_lex_skip(a.drop_first(), b.drop_first(), i - 1);
        assert(a.drop_first().skip(i - 1) =~= a.skip(i));
        assert(b.drop_first().skip(i - 1) =~= b.skip(i));
    } else {
        assert(a.skip(0) =~= a);
        assert(b.skip(0) =~= b);
    }
}

/// Executable lexicographic comparison over decoded characters.
fn str_le(a: &str, b: &str) -> (r: bool)
    ensures
        r == lex_le(a@, b@),
{
    let n1 = a.unicode_len();
    let n2 = b.unicode_len();
    let mut i: usize = 0;
    while i < n1 && i < n2
        invariant
            0 <= i <= n1,
            i <= n2,
            n1 == a@.len(),
            n2 == b@.len(),
            forall|j: int| 0 <= j < i ==> a@[j] == b@[j],
        decreases n1 - i,
    {
        let c1 = a.get_char(i);
        let c2 = b.get_char(i);
        if (c1 as u32) < (c2 as u32) {
            proof {
                lemma_lex_skip(a@, b@, i as int);
                assert(a@.skip(i as int)[0] == c1);
                assert(b@.skip(i as int)[0] == c2);
            }
            return true;
        }
        if (c2 as u32) < (c1 as u32) {
            proof {
                lemma_lex_skip(a@, b@, i as int);
                assert(a@.skip(i as int)[0] == c1);
                assert(b@.skip(i as int)[0] == c2);
            }
            return false;
        }
        proof {
            assert(a@[i as int] == b@[i as int]);
        }
        i = i + 1;
    }
    proof {
        lemma_lex_skip(a@, b@, i as int);
        if i == n1 {
            assert(a@.skip(i as int).len() == 0);
        } else {
            assert(b@.skip(i as int).len() == 0);
            assert(a@.skip(i as int).len() > 0);
        }
    }
    n1 <= n2
}


/// A decimal digit character.
pub open spec fn is_digit_char(c: char) -> bool {
    48 <= c as int <= 57
}

/// The numeric value of a digit character.
pub open spec fn digit_of(c: char) -> int {
    c as int - 48
}

pub open spec fn all_digits(s: Seq<char>) -> bool {
    forall|i: int| 0 <= i < s.len() ==> is_digit_char(#[trigger] s[i])
}

/// The number the digit characters spell, most significant first.
pub open spec fn digits_value(s: Seq<char>) -> int
    decreases s.len(),
{
    if s.len() == 0 {
        0
    } else {
        10 * digits_value(s.drop_last()) + digit_of(s.last())
    }
}

/// The string leads with a decimal digit: the bucket adapter's test for
/// treating it as numeric.
pub open spec fn starts_with_digit(s: Seq<char>) -> bool {
    s.len() > 0 && is_digit_char(s[0])
}

pub open spec fn has_sign(s: Seq<char>) -> bool {
    s.len() > 0 && (s[0] == '-' || s[0] == '+')
}

/// The characters carrying the magnitude: everything after a sign.
pub open spec fn body_of(s: Seq<char>) -> Seq<char> {
    if has_sign(s) {
        s.drop_first()
    } else {
        s
    }
}

/// Digits with a decimal point at `j` and at least one digit somewhere.
pub open spec fn dotted_form(s: Seq<char>, j: int) -> bool {
    &&& 0 <= j < s.len()
    &&& s[j] == '.'
    &&& all_digits(s.subrange(0, j))
    &&& all_digits(s.subrange(j + 1, s.len() as int))
    &&& s.len() >= 2
}

/// The magnitude part of a decimal number: plain digits, or digits around
/// one decimal point with at least one digit present.
pub open spec fn decimal_body(s: Seq<char>) -> bool {
    (s.len() >= 1 && all_digits(s)) || (exists|j: int| #[trigger] dotted_form(s, j))
}

/// A string of the decimal shape the library parses: an optional sign
/// followed by a decimal body.
pub open spec fn numeric_shape(s: Seq<char>) -> bool {
    decimal_body(body_of(s))
}

/// The whole digits of the body: everything before the decimal point.
pub open spec fn int_digits(s: Seq<char>) -> Seq<char> {
    if exists|j: int| #[trigger] dotted_form(s, j) {
        s.subrange(0, choose|j: int| #[trigger] dotted_form(s, j))
    } else {
        s
    }
}

/// The fractional digits of the body: everything after the decimal point.
pub open spec fn frac_digits(s: Seq<char>) -> Seq<char> {
    if exists|j: int| #[trigger] dotted_form(s, j) {
        s.subrange((choose|j: int| #[trigger] dotted_form(s, j)) + 1, s.len() as int)
    } else {
        Seq::empty()
    }
}

/// The fraction as a count of millionths: six fractional digits count,
/// shorter fractions are padded, longer ones truncated.
pub open spec fn frac_scaled(fd: Seq<char>) -> int {
    if fd.len() >= 6 {
        digits_value(fd.subrange(0, 6))
    } else {
        digits_value(fd) * pow10(6 - fd.len())
    }
}

/// The magnitude of a decimal string in millionths: sign ignored, six
/// fractional digits kept.
pub open spec fn magnitude_micros(s: Seq<char>) -> int {
    digits_value(int_digits(body_of(s))) * 1_000_000 + frac_scaled(frac_digits(body_of(s)))
}

pub proof fn lemma_digits_value_nonneg(s: Seq<char>)
    requires
        all_digits(s),
    ensures
        digits_value(s) >= 0,
    decreases s.len(),
{
    if s.len() > 0 {
        assert(all_digits(s.drop_last()));
        lemma_digits_value_nonneg(s.drop_last());
        assert(is_digit_char(s.last()));
    }
}

/// A digit string's value stays below ten to its length.
pub proof fn lemma_digits_value_bound(s: Seq<char>)
    requires
        all_digits(s),
    ensures
        digits_value(s) < pow10(s.len() as int),
    decreases s.len(),
{
    if s.len() == 0 {
    } else {
        assert(all_digits(s.drop_last()));
        lemma_digits_value_bound(s.drop_last());
        assert(is_digit_char(s.last()));
        assert(pow10(s.len() as int) == 10 * pow10(s.len() - 1));
    }
}

/// Extending a digit string never shrinks its value.
pub proof fn lemma_digits_value_prefix(s: Seq<char>, i: int)
    requires
        all_digits(s),
        0 <= i <= s.len(),
    ensures
        digits_value(s.subrange(0, i)) <= digits_value(s),
    decreases s.len() - i,
{
    if i == s.len() {
        assert(s.subrange(0, i) =~= s);
    } else {
        lemma_digits_value_prefix(s, i + 1);
        let p1 = s.subrange(0, i + 1);
        assert(p1.drop_last() =~= s.subrange(0, i));
        assert(all_digits(p1)) by {
            assert(forall|t: int| 0 <= t < p1.len() ==> p1[t] == s[t]);
        }
        assert(is_digit_char(p1.last()));
        assert(all_digits(s.subrange(0, i))) by {
            assert(forall|t: int| 0 <= t < i ==> s.subrange(0, i)[t] == s[t]);
        }
        lemma_digits_value_nonneg(s.subrange(0, i));
        assert(digits_value(p1) == 10 * digits_value(s.subrange(0, i)) + digit_of(p1.last()));
    }
}

/// Powers of ten multiply by adding exponents.
pub proof fn lemma_pow10_add(a: int, b: int)
    requires
        a >= 0,
        b >= 0,
    ensures
        pow10(a) * pow10(b) == pow10(a + b),
    decreases a,
{
    if a == 0 {
    } else {
        lemma_pow10_add(a - 1, b);
        assert(pow10(a) * pow10(b) == 10 * (pow10(a - 1) * pow10(b))) by (nonlinear_arith)
            requires
                pow10(a) == 10 * pow10(a - 1),
        ;
    }
}

/// The decimal point's position is pinned by the form itself.
proof fn lemma_dot_unique(s: Seq<char>, j1: int, j2: int)
    requires
        dotted_form(s, j1),
        dotted_form(s, j2),
    ensures
        j1 == j2,
{
    if j1 < j2 {
        assert(is_digit_char(s.subrange(0, j2)[j1]));
    } else if j2 < j1 {
        assert(is_digit_char(s.subrange(0, j1)[j2]));
    }
}


/// Only a decimal point can break the all-digit form, so any other
/// non-digit character rules the decimal shape out.
proof fn lemma_not_decimal_nondigit(bdy: Seq<char>, p: int)
    requires
        0 <= p < bdy.len(),
        !is_digit_char(bdy[p]),
        bdy[p] != '.',
    ensures
        !decimal_body(bdy),
{
    assert forall|j: int| !(#[trigger] dotted_form(bdy, j)) by {
        if dotted_form(bdy, j) {
            if j == p {
            } else if p < j {
                assert(is_digit_char(bdy.subrange(0, j)[p]));
            } else {
                assert(is_digit_char(bdy.subrange(j + 1, bdy.len() as int)[p - j - 1]));
            }
        }
    }
}

/// Two decimal points rule the decimal shape out.
proof fn lemma_not_decimal_two_dots(bdy: Seq<char>, p1: int, p2: int)
    requires
        0 <= p1 < p2 < bdy.len(),
        bdy[p1] == '.',
        bdy[p2] == '.',
    ensures
        !decimal_body(bdy),
{
    assert(!is_digit_char(bdy[p1]));
    assert forall|j: int| !(#[trigger] dotted_form(bdy, j)) by {
        if dotted_form(bdy, j) {
            if j != p1 {
                if p1 < j {
                    assert(is_digit_char(bdy.subrange(0, j)[p1]));
                } else {
                    assert(is_digit_char(bdy.subrange(j + 1, bdy.len() as int)[p1 - j - 1]));
                }
            } else {
                assert(is_digit_char(bdy.subrange(j + 1, bdy.len() as int)[p2 - j - 1]));
            }
        }
    }
}

/// Parses a string of the decimal shape into its magnitude in millionths.
/// `None` when the string is not of that shape, or when the magnitude does
/// not fit the fixed-point word. A sign only classifies; the magnitude is
/// returned without it. Fractional digits beyond the sixth are dropped.
#[verifier::rlimit(50)]
pub fn parse_micros(s: &str) -> (r: Option<i64>)
    ensures
        r.is_some() <==> (numeric_shape(s@) && magnitude_micros(s@) <= i64::MAX),
        r.is_some() ==> r.unwrap() as int == magnitude_micros(s@) && r.unwrap() >= 0,
{
    let n = s.unicode_len();
    if n == 0 {
        proof {
            assert(body_of(s@).len() == 0);
            assert(!decimal_body(body_of(s@)));
        }
        return None;
    }
    let c0 = s.get_char(0);
    let signed = c0 == '-' || c0 == '+';
    let start: usize = if signed {
        1
    } else {
        0
    };
    let ghost bdy = body_of(s@);
    proof {
        assert(signed == has_sign(s@));
        assert(bdy.len() == n - start);
        assert(forall|t: int| 0 <= t < bdy.len() ==> #[trigger] bdy[t] == s@[t + start]);
    }
    if n == start {
        proof {
            assert(bdy.len() == 0);
            assert(!decimal_body(bdy));
        }
        return None;
    }

    // One scan: find the decimal point, reject anything else non-digit.
    let mut dot: usize = n;
    let mut j: usize = start;
    while j < n
        invariant
            start <= j <= n,
            n == s@.len(),
            start <= 1,
            n > start,
            signed == has_sign(s@),
            start == (if signed { 1int } else { 0int }),
            bdy == body_of(s@),
            bdy.len() == n - start,
            forall|t: int| 0 <= t < bdy.len() ==> #[trigger] bdy[t] == s@[t + start],
            dot == n || (start <= dot < j && s@[dot as int] == '.'),
            forall|t: int| start <= t < j && t != dot ==> is_digit_char(#[trigger] s@[t]),
        decreases n - j,
    {
        let c = s.get_char(j);
        let cv = c as u32;
        if cv == 46 {
            proof {
                assert(c == '.');
            }
            if dot < n {
                proof {
                    assert(bdy[dot - start] == '.');
                    assert(bdy[j - start] == '.');
                    lemma_not_decimal_two_dots(bdy, dot - start, j - start);
                }
                return None;
            }
            dot = j;
        } else if cv < 48 || cv > 57 {
            proof {
                assert(!is_digit_char(s@[j as int]));
                assert(s@[j as int] != '.');
                assert(bdy[j - start] == s@[j as int]);
                lemma_not_decimal_nondigit(bdy, j - start);
            }
            return None;
        }
        j = j + 1;
    }

    if dot < n && n - start == 1 {
        proof {
            assert(bdy.len() == 1);
            assert(bdy[0] == '.');
            assert(!is_digit_char(bdy[0]));
            assert forall|jj: int| !(#[trigger] dotted_form(bdy, jj)) by {}
            assert(!decimal_body(bdy));
        }
        return None;
    }

    let int_end = if dot < n {
        dot
    } else {
        n
    };
    let ghost d1 = dot as int - start as int;
    proof {
        if dot < n {
            assert(dotted_form(bdy, d1)) by {
                assert(bdy[d1] == '.');
                assert forall|t: int| 0 <= t < d1 implies is_digit_char(
                    #[trigger] bdy.subrange(0, d1)[t],
                ) by {
                    assert(bdy.subrange(0, d1)[t] == s@[t + start]);
                }
                assert forall|t: int| 0 <= t < bdy.len() - d1 - 1 implies is_digit_char(
                    #[trigger] bdy.subrange(d1 + 1, bdy.len() as int)[t],
                ) by {
                    assert(bdy.subrange(d1 + 1, bdy.len() as int)[t] == s@[t + dot + 1]);
                }
            }
            let jj = choose|j2: int| #[trigger] dotted_form(bdy, j2);
            lemma_dot_unique(bdy, jj, d1);
            assert(int_digits(bdy) == bdy.subrange(0, d1));
            assert(frac_digits(bdy) == bdy.subrange(d1 + 1, bdy.len() as int));
        } else {
            assert forall|t: int| 0 <= t < bdy.len() implies is_digit_char(#[trigger] bdy[t]) by {
                assert(bdy[t] == s@[t + start]);
            }
            assert forall|jj: int| !(#[trigger] dotted_form(bdy, jj)) by {
                if dotted_form(bdy, jj) {
                    assert(is_digit_char(bdy[jj]));
                }
            }
            assert(int_digits(bdy) == bdy);
            assert(frac_digits(bdy) == Seq::<char>::empty());
            assert(decimal_body(bdy));
        }
    }

    let ghost idg = int_digits(bdy);
    let int_len = int_end - start;
    proof {
        assert(idg.len() == int_len);
        assert(forall|u: int| 0 <= u < int_len ==> #[trigger] idg[u] == s@[u + start]);
        assert forall|u: int| 0 <= u < idg.len() implies is_digit_char(#[trigger] idg[u]) by {
            assert(idg[u] == s@[u + start]);
        }
    }

    let mut acc: u64 = 0;
    let mut t: usize = 0;
    while t < int_len
        invariant
            0 <= t <= int_len,
            int_len == idg.len(),
            n == s@.len(),
            start + int_len <= n,
            start <= 1,
            forall|u: int| 0 <= u < int_len ==> #[trigger] idg[u] == s@[u + start],
            all_digits(idg),
            idg == int_digits(body_of(s@)),
            bdy == body_of(s@),
            decimal_body(bdy),
            frac_digits(bdy).len() >= 0 && all_digits(frac_digits(bdy)),
            acc as int == digits_value(idg.subrange(0, t as int)),
            acc <= 9_223_372_036_854,
        decreases int_len - t,
    {
        let c = s.get_char(t + start);
        proof {
            assert(idg[t as int] == s@[t + start]);
            assert(is_digit_char(c));
        }
        let d = (c as u32 - 48) as u64;
        let newacc = acc * 10 + d;
        proof {
            assert(idg.subrange(0, t + 1).drop_last() =~= idg.subrange(0, t as int));
            assert(idg.subrange(0, t + 1).last() == idg[t as int]);
            assert(newacc as int == digits_value(idg.subrange(0, t + 1)));
        }
        if newacc > 9_223_372_036_854 {
            proof {
                lemma_digits_value_prefix(idg, t + 1);
                lemma_digits_value_nonneg(frac_digits(bdy));
                crate::digits::lemma_pow10_pos(6 - frac_digits(bdy).len());
                if frac_digits(bdy).len() < 6 {
                    vstd::arithmetic::mul::lemma_mul_nonnegative(
                        digits_value(frac_digits(bdy)),
                        pow10(6 - frac_digits(bdy).len()),
                    );
                } else {
                    assert(all_digits(frac_digits(bdy).subrange(0, 6))) by {
                        assert(forall|u: int|
                            0 <= u < 6 ==> frac_digits(bdy).subrange(0, 6)[u] == #[trigger] frac_digits(
                                bdy,
                            )[u]);
                    }
                    lemma_digits_value_nonneg(frac_digits(bdy).subrange(0, 6));
                }
                assert(frac_scaled(frac_digits(bdy)) >= 0);
                assert(digits_value(idg) >= 9_223_372_036_855);
                assert(magnitude_micros(s@) > i64::MAX);
            }
            return None;
        }
        acc = newacc;
        t = t + 1;
    }
    proof {
        assert(idg.subrange(0, int_len as int) =~= idg);
    }

    // Up to six fractional digits; the rest only existed to be dropped.
    let ghost fdg = frac_digits(bdy);
    let mut fv: u64 = 0;
    let mut cnt: usize = 0;
    if dot < n {
        proof {
            assert(fdg.len() == n - dot - 1);
            assert forall|u: int| 0 <= u < fdg.len() implies #[trigger] fdg[u] == s@[u + dot + 1] by {
                assert(fdg[u] == bdy[u + d1 + 1]);
            }
        }
        let mut u: usize = dot + 1;
        while u < n && cnt < 6
            invariant
                start <= dot < n,
                n == s@.len(),
                dot + 1 <= u <= n,
                cnt == u - dot - 1,
                cnt <= 6,
                fdg.len() == n - dot - 1,
                forall|w: int| 0 <= w < fdg.len() ==> #[trigger] fdg[w] == s@[w + dot + 1],
                all_digits(fdg),
                fdg == frac_digits(body_of(s@)),
                fv as int == digits_value(fdg.subrange(0, cnt as int)),
                (fv as int) < pow10(cnt as int),
                fv <= 999_999,
            decreases n - u,
        {
            let c = s.get_char(u);
            proof {
                assert(fdg[cnt as int] == s@[u as int]);
                assert(is_digit_char(c));
                assert(fdg.subrange(0, cnt + 1).drop_last() =~= fdg.subrange(0, cnt as int));
                assert(fdg.subrange(0, cnt + 1).last() == fdg[cnt as int]);
                crate::int_adapter::lemma_pow10_concrete();
                crate::digits::lemma_pow10_mono(cnt as int + 1, 6);
            }
            let d = (c as u32 - 48) as u64;
            fv = fv * 10 + d;
            cnt = cnt + 1;
            u = u + 1;
        }
        proof {
            if cnt < 6 {
                assert(fdg.subrange(0, cnt as int) =~= fdg);
            }
        }
    } else {
        proof {
            assert(fdg.len() == 0);
            assert(fdg.subrange(0, 0) =~= fdg);
        }
    }

    let scale = pow10_u64((6 - cnt) as usize);
    proof {
        crate::int_adapter::lemma_pow10_concrete();
        crate::digits::lemma_pow10_mono(6 - cnt as int, 6);
        lemma_pow10_add(cnt as int, 6 - cnt as int);
        assert(fv as int * (scale as int) < 1_000_000) by (nonlinear_arith)
            requires
                (fv as int) < pow10(cnt as int),
                scale as int == pow10(6 - cnt as int),
                pow10(cnt as int) * pow10(6 - cnt as int) == 1_000_000,
                scale as int >= 1,
                fv as int >= 0,
        ;
    }
    let frac_total = fv * scale;
    proof {
        // the computed fraction matches the spec-level scaling
        if cnt == 6 {
            assert(fdg.len() >= 6);
            assert(frac_scaled(fdg) == digits_value(fdg.subrange(0, 6)));
            assert(frac_total as int == frac_scaled(fdg));
        } else {
            assert(fdg.len() == cnt);
            assert(fdg.subrange(0, cnt as int) =~= fdg);
            assert(frac_scaled(fdg) == digits_value(fdg) * pow10(6 - cnt as int));
            assert(frac_total as int == frac_scaled(fdg));
        }
    }

    let total = acc * 1_000_000 + frac_total;
    proof {
        assert(magnitude_micros(s@) == acc as int * 1_000_000 + frac_total as int);
    }
    if total > 9_223_372_036_854_775_807 {
        return None;
    }
    Some(total as i64)
}


/// Whether the library's decimal reading succeeds and fits the word: the
/// test under which a string is handled as a number.
pub open spec fn reads_as_number(s: Seq<char>) -> bool {
    numeric_shape(s) && magnitude_micros(s) <= i64::MAX
}

impl<'a> BucketSortable for &'a str {
    /// Fifty buckets for digit-leading strings, twenty-six for the rest.
    open spec fn bucket_count_spec(self, count: int) -> bool {
        count == (if starts_with_digit(self@) {
            50int
        } else {
            26int
        })
    }

    /// Digit-leading strings that read as numbers take the linear-range
    /// formula against the fixed normalisation ceiling of one thousand
    /// units; anything else groups by its leading character code modulo
    /// the bucket count.
    open spec fn bucket_index_spec(self, count: int, max: Self) -> int {
        if starts_with_digit(self@) && reads_as_number(self@) {
            linear_index(magnitude_micros(self@), count, 1_000_000_000)
        } else if self@.len() > 0 {
            (self@[0] as int) % count
        } else {
            0
        }
    }

    /// Leading-character grouping does not follow lexicographic order, so
    /// concatenation alone never claims a sorted result for strings.
    open spec fn index_monotone() -> bool {
        false
    }

    proof fn lemma_index_monotone(a: Self, b: Self, count: int, max: Self) {
    }

    fn get_bucket_count(&self) -> (c: usize) {
        let n = self.unicode_len();
        if n > 0 {
            let c0 = self.get_char(0);
            let cv = c0 as u32;
            if 48 <= cv && cv <= 57 {
                return 50;
            }
        }
        26
    }

    fn to_bucket_index(&self, bucket_count: usize, max_value: &Self) -> (i: usize) {
        let n = self.unicode_len();
        if n == 0 {
            return 0;
        }
        let c0 = self.get_char(0);
        let cv = c0 as u32;
        if 48 <= cv && cv <= 57 {
            match parse_micros(*self) {
                Some(m) => {
                    let v: i128 = m as i128;
                    let c: i128 = bucket_count as i128;
                    if v <= 0 {
                        proof {
                            lemma_linear_index_bounds(v as int, c as int, 1_000_000_000);
                        }
                        return 0;
                    }
                    proof {
                        assert((v as int) * ((c as int) - 1) < 0x8000_0000_0000_0000
                            * 0x1_0000_0000_0000_0000) by (nonlinear_arith)
                            requires
                                0 < (v as int),
                                (v as int) < 0x8000_0000_0000_0000,
                                0 <= ((c as int) - 1),
                                ((c as int) - 1) < 0x1_0000_0000_0000_0000,
                        ;
                        vstd::arithmetic::mul::lemma_mul_nonnegative(v as int, c as int - 1);
                        lemma_linear_index_bounds(v as int, c as int, 1_000_000_000);
                    }
                    let raw = v * (c - 1) / 1_000_000_000;
                    let idx = if raw >= c {
                        c - 1
                    } else {
                        raw
                    };
                    proof {
                        vstd::arithmetic::div_mod::lemma_div_pos_is_pos(
                            (v as int) * ((c as int) - 1),
                            1_000_000_000,
                        );
                    }
                    return idx as usize;
                },
                None => {},
            }
        }
        let idx = (cv as u128) % (bucket_count as u128);
        idx as usize
    }
}

impl<'a> RadixSortable for &'a str {
    /// A string that reads as a number carries the digits of its scaled
    /// magnitude. Any other string carries the decimal digits of its
    /// character codes, seven places per character counted from the end
    /// (seven decimal digits cover every Unicode scalar value), with
    /// missing places reading zero. The per-character decomposition keeps
    /// every digit within the ten counting bins the engine's data model
    /// fixes, while one full round of passes still orders such strings by
    /// character code, fixed width from the right.
    open spec fn digit_spec(self, place: int) -> int {
        if reads_as_number(self@) {
            magnitude_micros(self@) / pow10(place) % 10
        } else if 0 <= place && place / 7 < self@.len() {
            (self@[self@.len() - 1 - place / 7] as int) / pow10(place % 7) % 10
        } else {
            0
        }
    }

    /// Numeric strings occupy the digits of their scaled magnitude; other
    /// strings occupy seven places per character. Every value reports at
    /// least one place, the empty string included.
    open spec fn max_digits_spec(self) -> int {
        if reads_as_number(self@) {
            digits10(magnitude_micros(self@))
        } else if self@.len() == 0 {
            1
        } else if 7 * (self@.len() as int) > usize::MAX {
            usize::MAX as int
        } else {
            7 * (self@.len() as int)
        }
    }

    /// Strings get no correction pass; their digit order stands as the
    /// passes leave it.
    open spec fn needs_correction() -> bool {
        false
    }

    fn get_digit(&self, place: usize) -> (d: usize) {
        match parse_micros(*self) {
            Some(m) => {
                let a: u64 = m as u64;
                if place >= 20 {
                    proof {
                        lemma_pow10_concrete();
                        lemma_digit_vanishes(a as int, place as int, 19);
                    }
                    return 0;
                }
                let p = pow10_u64(place);
                proof {
                    lemma_pow10_pos(place as int);
                    vstd::arithmetic::div_mod::lemma_div_pos_is_pos(a as int, p as int);
                }
                ((a / p) % 10) as usize
            },
            None => {
                let n = self.unicode_len();
                let ci = place / 7;
                let dp = place % 7;
                if ci < n {
                    let c = self.get_char(n - 1 - ci);
                    let code: u64 = c as u64;
                    let p = pow10_u64(dp);
                    proof {
                        lemma_pow10_pos(dp as int);
                        vstd::arithmetic::div_mod::lemma_div_pos_is_pos(code as int, p as int);
                    }
                    ((code / p) % 10) as usize
                } else {
                    0
                }
            },
        }
    }

    fn max_digits(&self) -> (n: usize) {
        match parse_micros(*self) {
            Some(m) => count_digits_u64(m as u64),
            None => {
                let len = self.unicode_len();
                if len == 0 {
                    1
                } else {
                    match len.checked_mul(7) {
                        Some(p) => p,
                        None => usize::MAX,
                    }
                }
            },
        }
    }

    fn wants_sign_correction() -> (b: bool) {
        false
    }
}


/// A decimal magnitude is never negative.
pub proof fn lemma_magnitude_nonneg(s: Seq<char>)
    requires
        numeric_shape(s),
    ensures
        magnitude_micros(s) >= 0,
{
    let bdy = body_of(s);
    let idg = int_digits(bdy);
    let fdg = frac_digits(bdy);
    assert(all_digits(idg) && all_digits(fdg)) by {
        if exists|j: int| #[trigger] dotted_form(bdy, j) {
            let j = choose|j: int| #[trigger] dotted_form(bdy, j);
            assert(idg == bdy.subrange(0, j));
            assert(fdg == bdy.subrange(j + 1, bdy.len() as int));
        } else {
            assert(idg == bdy);
            assert(fdg == Seq::<char>::empty());
        }
    }
    lemma_digits_value_nonneg(idg);
    if fdg.len() >= 6 {
        assert(all_digits(fdg.subrange(0, 6))) by {
            assert(forall|u: int| 0 <= u < 6 ==> fdg.subrange(0, 6)[u] == #[trigger] fdg[u]);
        }
        lemma_digits_value_nonneg(fdg.subrange(0, 6));
    } else {
        lemma_digits_value_nonneg(fdg);
        crate::digits::lemma_pow10_pos(6 - fdg.len());
        vstd::arithmetic::mul::lemma_mul_nonnegative(digits_value(fdg), pow10(6 - fdg.len()));
    }
    vstd::arithmetic::mul::lemma_mul_nonnegative(digits_value(idg), 1_000_000);
}


/// Every position holds a genuine character code: true of the view of any
/// real string, and the validity premise the code-number lemmas need,
/// since nothing constrains the elements of an arbitrary ghost sequence.
pub open spec fn valid_chars(s: Seq<char>) -> bool {
    forall|k: int| 0 <= k < s.len() ==> 0 <= (#[trigger] s[k] as int) < 0x11_0000
}

/// The character codes of a string read as one number in base ten
/// million, most significant character first: seven decimal digits per
/// character, exactly the places the plain-string radix adapter reports.
/// Comparing these numbers is the character-code, fixed-width-from-the-
/// right ordering, with missing places reading zero.
pub open spec fn code_value(s: Seq<char>) -> int
    decreases s.len(),
{
    if s.len() == 0 {
        0
    } else {
        code_value(s.drop_last()) * 10_000_000 + (s.last() as int)
    }
}

/// The code number is non-negative and below ten to seven places per
/// character.
pub proof fn lemma_code_value_bound(s: Seq<char>)
    requires
        valid_chars(s),
    ensures
        0 <= code_value(s) < pow10(7 * (s.len() as int)),
    decreases s.len(),
{
    if s.len() == 0 {
        assert(pow10(0) == 1);
    } else {
        assert(valid_chars(s.drop_last())) by {
            assert(forall|k: int|
                0 <= k < s.len() - 1 ==> #[trigger] s.drop_last()[k] == s[k]);
        }
        lemma_code_value_bound(s.drop_last());
        lemma_pow10_add(7 * ((s.len() as int) - 1), 7);
        crate::int_adapter::lemma_pow10_concrete7();
        assert(0 <= (s.last() as int));
        assert((s.last() as int) < 0x11_0000);
        assert(code_value(s.drop_last()) * 10_000_000 + (s.last() as int) < pow10(
            7 * (s.len() as int),
        )) by (nonlinear_arith)
            requires
                0 <= code_value(s.drop_last()),
                code_value(s.drop_last()) < pow10(7 * ((s.len() as int) - 1)),
                0 <= (s.last() as int) < 10_000_000,
                pow10(7 * ((s.len() as int) - 1)) * pow10(7) == pow10(7 * (s.len() as int)),
                pow10(7) == 10_000_000,
        ;
        vstd::arithmetic::mul::lemma_mul_nonnegative(code_value(s.drop_last()), 10_000_000);
    }
}

/// Dropping seven places at a time peels whole characters off the end.
proof fn lemma_code_value_shift(s: Seq<char>, ci: int)
    requires
        valid_chars(s),
        0 <= ci <= s.len(),
    ensures
        code_value(s) / pow10(7 * ci) == code_value(s.subrange(0, s.len() - ci)),
    decreases ci,
{
    lemma_code_value_bound(s);
    if ci == 0 {
        assert(pow10(0) == 1);
        assert(s.subrange(0, s.len() as int) =~= s);
    } else {
        crate::int_adapter::lemma_pow10_concrete7();
        lemma_pow10_pos(7 * (ci - 1));
        assert(valid_chars(s.drop_last())) by {
            assert(forall|k: int|
                0 <= k < s.len() - 1 ==> #[trigger] s.drop_last()[k] == s[k]);
        }
        // one character off: the low seven places hold its code
        assert(code_value(s) / 10_000_000 == code_value(s.drop_last())) by {
            lemma_code_value_bound(s.drop_last());
            assert(0 <= (s.last() as int));
            assert((s.last() as int) < 0x11_0000);
            vstd::arithmetic::div_mod::lemma_fundamental_div_mod_converse(
                code_value(s),
                10_000_000,
                code_value(s.drop_last()),
                s.last() as int,
            );
        }
        vstd::arithmetic::div_mod::lemma_div_denominator(
            code_value(s),
            10_000_000,
            pow10(7 * (ci - 1)),
        );
        lemma_pow10_add(7, 7 * (ci - 1));
        assert(code_value(s) / pow10(7 * ci) == code_value(s.drop_last()) / pow10(7 * (ci - 1)));
        lemma_code_value_shift(s.drop_last(), ci - 1);
        assert(s.drop_last().subrange(0, s.len() - ci) =~= s.subrange(0, s.len() - ci));
    }
}

/// The decimal digits of the code number are the decimal digits of the
/// character codes, seven places per character from the end; places past
/// the last character read zero.
pub proof fn lemma_code_value_digit(s: Seq<char>, place: int)
    requires
        valid_chars(s),
        place >= 0,
    ensures
        place / 7 < s.len() ==> code_value(s) / pow10(place) % 10 == (s[s.len() - 1 - place / 7]
            as int) / pow10(place % 7) % 10,
        place / 7 >= s.len() ==> code_value(s) / pow10(place) % 10 == 0,
{
    let ci = place / 7;
    let dp = place % 7;
    vstd::arithmetic::div_mod::lemma_fundamental_div_mod(place, 7);
    vstd::arithmetic::div_mod::lemma_mod_bound(place, 7);
    vstd::arithmetic::div_mod::lemma_div_pos_is_pos(place, 7);
    lemma_code_value_bound(s);
    lemma_pow10_pos(7 * ci);
    lemma_pow10_pos(dp);
    if ci >= s.len() {
        assert(place - 7 * (s.len() as int) >= 0);
        lemma_pow10_pos(place - 7 * (s.len() as int));
        lemma_pow10_pos(7 * (s.len() as int));
        lemma_pow10_add(7 * (s.len() as int), place - 7 * (s.len() as int));
        vstd::arithmetic::mul::lemma_mul_nonnegative(
            pow10(7 * (s.len() as int)),
            pow10(place - 7 * (s.len() as int)) - 1,
        );
        assert(pow10(7 * (s.len() as int)) <= pow10(place)) by (nonlinear_arith)
            requires
                pow10(7 * (s.len() as int)) * pow10(place - 7 * (s.len() as int)) == pow10(place),
                pow10(place - 7 * (s.len() as int)) >= 1,
                pow10(7 * (s.len() as int)) >= 1,
        ;
        vstd::arithmetic::div_mod::lemma_basic_div(code_value(s), pow10(place));
    } else {
        lemma_code_value_shift(s, ci);
        let prefix = s.subrange(0, s.len() - ci);
        assert(valid_chars(prefix)) by {
            assert(forall|k: int| 0 <= k < prefix.len() ==> #[trigger] prefix[k] == s[k]);
        }
        assert(valid_chars(prefix.drop_last())) by {
            assert(forall|k: int|
                0 <= k < prefix.len() - 1 ==> #[trigger] prefix.drop_last()[k] == prefix[k]);
        }
        let code = prefix.last() as int;
        assert(prefix.last() == s[s.len() - 1 - ci]);
        assert(0 <= code);
        assert(code < 0x11_0000);
        crate::int_adapter::lemma_pow10_concrete7();
        lemma_code_value_bound(prefix.drop_last());
        let upper = code_value(prefix.drop_last());
        assert(code_value(prefix) == upper * 10_000_000 + code);
        // split the last code at place dp
        lemma_pow10_add(dp, 7 - dp);
        vstd::arithmetic::div_mod::lemma_mod_bound(code, pow10(dp));
        vstd::arithmetic::div_mod::lemma_div_pos_is_pos(code, pow10(dp));
        vstd::arithmetic::div_mod::lemma_fundamental_div_mod(code, pow10(dp));
        assert(code_value(prefix) == (upper * pow10(7 - dp) + code / pow10(dp)) * pow10(dp) + code
            % pow10(dp)) by (nonlinear_arith)
            requires
                code_value(prefix) == upper * 10_000_000 + code,
                pow10(dp) * pow10(7 - dp) == 10_000_000,
                code == pow10(dp) * (code / pow10(dp)) + code % pow10(dp),
        ;
        vstd::arithmetic::div_mod::lemma_fundamental_div_mod_converse(
            code_value(prefix),
            pow10(dp),
            upper * pow10(7 - dp) + code / pow10(dp),
            code % pow10(dp),
        );
        // the division through both factors
        vstd::arithmetic::div_mod::lemma_div_denominator(code_value(s), pow10(7 * ci), pow10(dp));
        lemma_pow10_add(7 * ci, dp);
        assert(code_value(s) / pow10(place) == code_value(prefix) / pow10(dp));
        // the upper part is a multiple of ten at this place
        assert(7 - dp >= 1);
        assert(pow10(7 - dp) == 10 * pow10(6 - dp));
        assert(upper * pow10(7 - dp) == 10 * (upper * pow10(6 - dp))) by (nonlinear_arith)
            requires
                pow10(7 - dp) == 10 * pow10(6 - dp),
        ;
        vstd::arithmetic::div_mod::lemma_mod_multiples_vanish(
            upper * pow10(6 - dp),
            code / pow10(dp),
            10,
        );
    }
}

} // verus!
