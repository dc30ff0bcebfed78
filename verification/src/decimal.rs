//! Reading a number of seconds in decimal notation as whole nanoseconds.

use vstd::prelude::*;

verus! {

/// A decimal digit.
pub open spec fn is_digit(b: u8) -> bool {
    48 <= b && b <= 57
}

/// A plus or a minus sign.
pub open spec fn is_sign(b: u8) -> bool {
    b == 43 || b == 45
}

/// How many digits stand at the front of `s`.
pub open spec fn digit_run(s: Seq<u8>) -> int
    decreases s.len(),
{
    if s.len() > 0 && is_digit(s[0]) {
        1 + digit_run(s.drop_first())
    } else {
        0
    }
}

proof fn lemma_digit_run(s: Seq<u8>, r: int)
    requires
        0 <= r <= s.len(),
        forall|j: int| 0 <= j < r ==> is_digit(s[j]),
        r < s.len() ==> !is_digit(s[r]),
    ensures
        digit_run(s) == r,
    decreases s.len(),
{
    if r > 0 {
        let rest = s.drop_first();
        assert forall|j: int| 0 <= j < r - 1 implies is_digit(rest[j]) by {
            assert(rest[j] == s[j + 1]);
        }
        lemma_digit_run(rest, r - 1);
    }
}

/// The number that a row of digits stands for.
pub open spec fn digits_value(s: Seq<u8>) -> nat
    decreases s.len(),
{
    if s.len() == 0 {
        0
    } else {
        digits_value(s.drop_last()) * 10 + (s.last() - 48) as nat
    }
}

/// Ten to the power of `n`.
pub open spec fn pow10(n: nat) -> nat
    decreases n,
{
    if n == 0 {
        1
    } else {
        10 * pow10((n - 1) as nat)
    }
}

/// `v` with its decimal point moved `shift` places to the right, or to the
/// left where `shift` is negative, and what then stands behind the point
/// cut off.
pub open spec fn scaled(v: nat, shift: int) -> nat {
    if shift >= 0 {
        v * pow10(shift as nat)
    } else {
        v / pow10((-shift) as nat)
    }
}

/// The digits before and after the point of a decimal number, and what
/// follows them.
pub struct Mantissa {
    pub whole: Seq<u8>,
    pub frac: Seq<u8>,
    pub rest: Seq<u8>,
}

/// Takes digits, and optionally a point and more digits, from the front of
/// a text.
pub open spec fn mantissa(body: Seq<u8>) -> Mantissa {
    let w = digit_run(body);
    let after_whole = body.skip(w);
    if after_whole.len() > 0 && after_whole[0] == 46 {
        let frac_src = after_whole.drop_first();
        let f = digit_run(frac_src);
        Mantissa { whole: body.take(w), frac: frac_src.take(f), rest: frac_src.skip(f) }
    } else {
        Mantissa { whole: body.take(w), frac: Seq::empty(), rest: after_whole }
    }
}

/// The exponent of a decimal number: whether there is one, its sign and its
/// digits, and what follows it.
pub struct Exponent {
    pub present: bool,
    pub negative: bool,
    pub digits: Seq<u8>,
    pub rest: Seq<u8>,
}

/// Takes an exponent from the front of a text, if one stands there: the
/// letter `e` or `E`, an optional sign, and digits.
pub open spec fn exponent(s: Seq<u8>) -> Exponent {
    if s.len() > 0 && (s[0] == 101 || s[0] == 69) {
        let src = s.drop_first();
        let signed = src.len() > 0 && is_sign(src[0]);
        let body = if signed {
            src.drop_first()
        } else {
            src
        };
        let x = digit_run(body);
        Exponent {
            present: true,
            negative: signed && src[0] == 45,
            digits: body.take(x),
            rest: body.skip(x),
        }
    } else {
        Exponent { present: false, negative: false, digits: Seq::empty(), rest: s }
    }
}

/// The parts of a decimal number: whether a minus sign stands in front, the
/// digits before the point, the digits after it, whether an exponent
/// follows, its sign and its digits, and what follows the number.
pub struct DecimalParts {
    pub negative: bool,
    pub whole: Seq<u8>,
    pub frac: Seq<u8>,
    pub has_exponent: bool,
    pub exponent_negative: bool,
    pub exponent: Seq<u8>,
    pub tail: Seq<u8>,
}

/// Takes a text apart as a decimal number: an optional sign, digits,
/// optionally a point and more digits, and optionally an exponent.
pub open spec fn decimal_parts(token: Seq<u8>) -> DecimalParts {
    let signed = token.len() > 0 && is_sign(token[0]);
    let body = if signed {
        token.drop_first()
    } else {
        token
    };
    let m = mantissa(body);
    let e = exponent(m.rest);
    DecimalParts {
        negative: signed && token[0] == 45,
        whole: m.whole,
        frac: m.frac,
        has_exponent: e.present,
        exponent_negative: e.negative,
        exponent: e.digits,
        tail: e.rest,
    }
}

/// The parts make up a number: there is a digit before or after the point,
/// an exponent that is announced has a digit, and nothing follows.
pub open spec fn is_number(parts: DecimalParts) -> bool {
    &&& parts.whole.len() + parts.frac.len() > 0
    &&& parts.has_exponent ==> parts.exponent.len() > 0
    &&& parts.tail.len() == 0
}

/// The size of the number in nanoseconds, without its sign: the digits
/// before and after the point as one number, with the point moved by the
/// exponent and by nine places more, and fractions of a nanosecond cut off.
pub open spec fn magnitude(parts: DecimalParts) -> nat {
    let exponent = if parts.exponent_negative {
        -(digits_value(parts.exponent) as int)
    } else {
        digits_value(parts.exponent) as int
    };
    scaled(digits_value(parts.whole + parts.frac), exponent + 9 - parts.frac.len())
}

/// A number of seconds in decimal notation, as whole nanoseconds. `None`
/// where the text is no number, or one whose size is too large for a 64 bit
/// integer.
pub open spec fn decimal_nanos(token: Seq<u8>) -> Option<int> {
    let parts = decimal_parts(token);
    if is_number(parts) && magnitude(parts) <= i64::MAX {
        Some(
            if parts.negative {
                -(magnitude(parts) as int)
            } else {
                magnitude(parts) as int
            },
        )
    } else {
        None
    }
}

proof fn lemma_pow10_positive(n: nat)
    ensures
        pow10(n) >= 1,
    decreases n,
{
    if n > 0 {
        lemma_pow10_positive((n - 1) as nat);
    }
}

proof fn lemma_pow10_add(a: nat, b: nat)
    ensures
        pow10(a + b) == pow10(a) * pow10(b),
    decreases a,
{
    if a > 0 {
        lemma_pow10_add((a - 1) as nat, b);
        assert((a + b - 1) as nat == (a - 1) as nat + b);
        assert(10 * (pow10((a - 1) as nat) * pow10(b)) == (10 * pow10((a - 1) as nat)) * pow10(b))
            by (nonlinear_arith);
    } else {
        assert(pow10(a) == 1);
        assert(1 * pow10(b) == pow10(b));
    }
}

proof fn lemma_pow10_monotonic(a: nat, b: nat)
    requires
        a <= b,
    ensures
        pow10(a) <= pow10(b),
    decreases b,
{
    if a < b {
        lemma_pow10_monotonic(a, (b - 1) as nat);
        lemma_pow10_positive((b - 1) as nat);
    }
}

/// All bytes of `s` are digits.
pub open spec fn all_digits(s: Seq<u8>) -> bool {
    forall|j: int| 0 <= j < s.len() ==> is_digit(#[trigger] s[j])
}

proof fn lemma_digits_bound(s: Seq<u8>)
    requires
        all_digits(s),
    ensures
        digits_value(s) < pow10(s.len()),
    decreases s.len(),
{
    if s.len() > 0 {
        let front = s.drop_last();
        assert forall|j: int| 0 <= j < front.len() implies is_digit(#[trigger] front[j]) by {
            assert(front[j] == s[j]);
        }
        lemma_digits_bound(front);
        assert(is_digit(s[s.len() - 1]));
    }
}

proof fn lemma_digits_split(s: Seq<u8>, k: int)
    requires
        0 <= k <= s.len(),
    ensures
        digits_value(s) == digits_value(s.take(k)) * pow10((s.len() - k) as nat) + digits_value(
            s.skip(k),
        ),
    decreases s.len() - k,
{
    if k == s.len() {
        assert(s.take(k) =~= s);
        assert(s.skip(k).len() == 0);
        assert(pow10(0) == 1);
        assert(digits_value(s) * 1 == digits_value(s));
    } else {
        let front = s.drop_last();
        lemma_digits_split(front, k);
        assert(front.take(k) =~= s.take(k));
        assert(s.skip(k).drop_last() =~= front.skip(k));
        assert(s.skip(k).last() == s.last());
        let a = digits_value(s.take(k));
        let p = pow10((front.len() - k) as nat);
        let r = digits_value(front.skip(k));
        let d = (s.last() - 48) as nat;
        assert(digits_value(front) == a * p + r);
        assert(digits_value(s) == (a * p + r) * 10 + d);
        assert(pow10((s.len() - k) as nat) == 10 * p);
        assert(digits_value(s.skip(k)) == r * 10 + d);
        assert((a * p + r) * 10 + d == a * (10 * p) + (r * 10 + d)) by (nonlinear_arith);
    }
}

/// Cutting off places of a number leaves the number that its leading
/// digits stand for.
proof fn lemma_scaled_down(s: Seq<u8>, shift: int)
    requires
        all_digits(s),
        shift < 0,
    ensures
        s.len() + shift <= 0 ==> scaled(digits_value(s), shift) == 0,
        s.len() + shift > 0 ==> scaled(digits_value(s), shift) == digits_value(
            s.take(s.len() + shift),
        ),
{
    let v = digits_value(s);
    let p = pow10((-shift) as nat);
    lemma_pow10_positive((-shift) as nat);
    if s.len() + shift <= 0 {
        lemma_digits_bound(s);
        lemma_pow10_monotonic(s.len(), (-shift) as nat);
        vstd::arithmetic::div_mod::lemma_basic_div(v as int, p as int);
    } else {
        let k = s.len() + shift;
        lemma_digits_split(s, k);
        let back = s.skip(k);
        assert forall|j: int| 0 <= j < back.len() implies is_digit(#[trigger] back[j]) by {
            assert(back[j] == s[k + j]);
        }
        lemma_digits_bound(back);
        let a = digits_value(s.take(k));
        let r = digits_value(back);
        assert(back.len() == -shift);
        assert(v == a * p + r);
        vstd::arithmetic::div_mod::lemma_fundamental_div_mod_converse_div(
            v as int,
            p as int,
            a as int,
            r as int,
        );
    }
}

/// A number that is not zero, with its point moved nineteen places or more
/// to the right, is too large for a 64 bit integer.
proof fn lemma_scaled_far(v: nat, shift: int)
    requires
        shift >= 19,
    ensures
        v == 0 ==> scaled(v, shift) == 0,
        v > 0 ==> scaled(v, shift) > i64::MAX,
{
    lemma_pow10_monotonic(19, shift as nat);
    assert(pow10(19) == 10_000_000_000_000_000_000) by {
        reveal_with_fuel(pow10, 20);
    }
    let p = pow10(shift as nat);
    if v > 0 {
        assert(v * p >= p) by (nonlinear_arith)
            requires
                v >= 1,
                p >= 0,
        ;
    } else {
        assert(0 * p == 0);
    }
}

proof fn lemma_scaled_step(v: nat, t: nat)
    ensures
        scaled(v, (t + 1) as int) == scaled(v, t as int) * 10,
        scaled(v, 0) == v,
{
    assert(pow10(0) == 1);
    assert(v * 1 == v);
    assert(pow10(t + 1) == 10 * pow10(t));
    assert(v * (10 * pow10(t)) == (v * pow10(t)) * 10) by (nonlinear_arith);
}

proof fn lemma_scaled_monotonic(v: nat, a: int, b: int)
    requires
        0 <= a <= b,
    ensures
        scaled(v, a) <= scaled(v, b),
{
    lemma_pow10_monotonic(a as nat, b as nat);
    let pa = pow10(a as nat);
    let pb = pow10(b as nat);
    assert(v * pa <= v * pb) by (nonlinear_arith)
        requires
            pa <= pb,
            v >= 0,
    ;
}

fn digit(b: u8) -> (r: bool)
    ensures
        r == is_digit(b),
{
    48 <= b && b <= 57
}

fn sign(b: u8) -> (r: bool)
    ensures
        r == is_sign(b),
{
    b == 43 || b == 45
}

/// From this size on an exponent is not counted further: it is larger than
/// any number of digits that a text can hold.
const EXPONENT_CAP: u128 = 1_180_591_620_717_411_303_424;

/// Moves the digits that stand in `token` from position `from` on to the end
/// of `digits`, and says where they end.
fn gather_digits(token: &[u8], from: usize, digits: &mut Vec<u8>) -> (to: usize)
    requires
        from <= token@.len(),
        all_digits(old(digits)@),
    ensures
        from <= to <= token@.len(),
        to - from == digit_run(token@.skip(from as int)),
        final(digits)@ == old(digits)@ + token@.subrange(from as int, to as int),
        all_digits(final(digits)@),
{
    let n = token.len();
    let ghost rest = token@.skip(from as int);
    let ghost before = digits@;
    let mut i: usize = from;
    assert(digits@ =~= before + rest.take(0));
    while i < n && digit(token[i])
        invariant
            from <= i <= n,
            n == token@.len(),
            rest == token@.skip(from as int),
            digits@ == before + rest.take(i - from),
            all_digits(digits@),
            forall|j: int| 0 <= j < i - from ==> is_digit(rest[j]),
        decreases n - i,
    {
        digits.push(token[i]);
        proof {
            assert(rest[i - from] == token@[i as int]);
            assert(before + rest.take(i - from + 1) =~= (before + rest.take(i - from)).push(
                token@[i as int],
            ));
        }
        i += 1;
    }
    proof {
        if i < n {
            assert(rest[i - from] == token@[i as int]);
        }
        lemma_digit_run(rest, i - from);
        assert(rest.take(i - from) =~= token@.subrange(from as int, i as int));
    }
    i
}

/// Reads the digits that stand in `token` from position `from` on as a
/// number, counted up to the cap, and says where they end.
fn read_exponent(token: &[u8], from: usize) -> (found: (usize, u128))
    requires
        from <= token@.len(),
    ensures
        from <= found.0 <= token@.len(),
        found.0 - from == digit_run(token@.skip(from as int)),
        found.1 < EXPONENT_CAP ==> found.1 == digits_value(
            token@.subrange(from as int, found.0 as int),
        ),
        found.1 >= EXPONENT_CAP ==> digits_value(token@.subrange(from as int, found.0 as int))
            >= EXPONENT_CAP,
        found.1 < EXPONENT_CAP * 10 + 10,
{
    let n = token.len();
    let ghost rest = token@.skip(from as int);
    let mut i: usize = from;
    let mut exponent: u128 = 0;
    while i < n && digit(token[i])
        invariant
            from <= i <= n,
            n == token@.len(),
            rest == token@.skip(from as int),
            forall|j: int| 0 <= j < i - from ==> is_digit(rest[j]),
            exponent < EXPONENT_CAP ==> exponent == digits_value(rest.take(i - from)),
            exponent >= EXPONENT_CAP ==> digits_value(rest.take(i - from)) >= EXPONENT_CAP,
            exponent < EXPONENT_CAP * 10 + 10,
        decreases n - i,
    {
        let d: u128 = (token[i] - 48) as u128;
        proof {
            let longer = rest.take(i - from + 1);
            assert(longer.drop_last() =~= rest.take(i - from));
            assert(longer.last() == token@[i as int]);
        }
        if exponent < EXPONENT_CAP {
            exponent = exponent * 10 + d;
        }
        i += 1;
    }
    proof {
        if i < n {
            assert(rest[i - from] == token@[i as int]);
        }
        lemma_digit_run(rest, i - from);
        assert(rest.take(i - from) =~= token@.subrange(from as int, i as int));
    }
    (i, exponent)
}

/// Where the digits of a mantissa begin and end in a text.
struct MantissaMarks {
    start: int,
    whole_end: int,
    has_point: bool,
    frac_end: int,
}

impl MantissaMarks {
    spec fn frac_start(self) -> int {
        if self.has_point {
            self.whole_end + 1
        } else {
            self.whole_end
        }
    }

    /// The marks stand where a scan from left to right puts them.
    spec fn fit(self, token: Seq<u8>) -> bool {
        &&& 0 <= self.start <= self.whole_end <= token.len()
        &&& self.whole_end - self.start == digit_run(token.skip(self.start))
        &&& self.has_point == (self.whole_end < token.len() && token[self.whole_end] == 46)
        &&& self.frac_start() <= self.frac_end <= token.len()
        &&& self.frac_end - self.frac_start() == if self.has_point {
            digit_run(token.skip(self.frac_start()))
        } else {
            0
        }
    }
}

proof fn lemma_mantissa(token: Seq<u8>, m: MantissaMarks)
    requires
        m.fit(token),
    ensures
        mantissa(token.skip(m.start)).whole == token.subrange(m.start, m.whole_end),
        mantissa(token.skip(m.start)).frac == token.subrange(m.frac_start(), m.frac_end),
        mantissa(token.skip(m.start)).rest == token.skip(m.frac_end),
{
    let body = token.skip(m.start);
    let w = digit_run(body);
    let after_whole = body.skip(w);
    assert(after_whole =~= token.skip(m.whole_end));
    assert(body.take(w) =~= token.subrange(m.start, m.whole_end));
    if m.has_point {
        assert(after_whole[0] == token[m.whole_end]);
        let frac_src = after_whole.drop_first();
        assert(frac_src =~= token.skip(m.frac_start()));
        let f = digit_run(frac_src);
        assert(frac_src.take(f) =~= token.subrange(m.frac_start(), m.frac_end));
        assert(frac_src.skip(f) =~= token.skip(m.frac_end));
    } else {
        if after_whole.len() > 0 {
            assert(after_whole[0] == token[m.whole_end]);
        }
        assert(token.subrange(m.frac_start(), m.frac_end) =~= Seq::<u8>::empty());
    }
}

/// Where the parts of an exponent begin and end in a text.
struct ExponentMarks {
    from: int,
    present: bool,
    signed: bool,
    end: int,
}

impl ExponentMarks {
    spec fn src_start(self) -> int {
        if self.present {
            self.from + 1
        } else {
            self.from
        }
    }

    spec fn start(self) -> int {
        if self.signed {
            self.src_start() + 1
        } else {
            self.src_start()
        }
    }

    /// The marks stand where a scan from left to right puts them.
    spec fn fit(self, token: Seq<u8>) -> bool {
        &&& 0 <= self.from <= token.len()
        &&& self.present == (self.from < token.len() && (token[self.from] == 101
            || token[self.from] == 69))
        &&& self.signed == (self.present && self.src_start() < token.len() && is_sign(
            token[self.src_start()],
        ))
        &&& self.start() <= self.end <= token.len()
        &&& self.end - self.start() == if self.present {
            digit_run(token.skip(self.start()))
        } else {
            0
        }
    }
}

proof fn lemma_exponent(token: Seq<u8>, m: ExponentMarks)
    requires
        m.fit(token),
    ensures
        exponent(token.skip(m.from)).present == m.present,
        exponent(token.skip(m.from)).negative == (m.signed && token[m.src_start()] == 45),
        exponent(token.skip(m.from)).digits == token.subrange(m.start(), m.end),
        exponent(token.skip(m.from)).rest.len() == token.len() - m.end,
{
    let s = token.skip(m.from);
    if s.len() > 0 {
        assert(s[0] == token[m.from]);
    }
    if m.present {
        let src = s.drop_first();
        assert(src =~= token.skip(m.src_start()));
        if src.len() > 0 {
            assert(src[0] == token[m.src_start()]);
        }
        let body = if m.signed {
            src.drop_first()
        } else {
            src
        };
        assert(body =~= token.skip(m.start()));
        let x = digit_run(body);
        assert(body.take(x) =~= token.subrange(m.start(), m.end));
        assert(body.skip(x) =~= token.skip(m.end));
    } else {
        assert(token.subrange(m.start(), m.end) =~= Seq::<u8>::empty());
    }
}

/// The marks of a scan from left to right bound the parts of the number.
proof fn lemma_marks(token: Seq<u8>, m: MantissaMarks, e: ExponentMarks)
    requires
        m.start == if token.len() > 0 && is_sign(token[0]) {
            1int
        } else {
            0int
        },
        m.fit(token),
        e.fit(token),
        e.from == m.frac_end,
    ensures
        decimal_parts(token).negative == (m.start == 1 && token[0] == 45),
        decimal_parts(token).whole == token.subrange(m.start, m.whole_end),
        decimal_parts(token).frac == token.subrange(m.frac_start(), m.frac_end),
        decimal_parts(token).has_exponent == e.present,
        decimal_parts(token).exponent_negative == (e.signed && token[e.src_start()] == 45),
        decimal_parts(token).exponent == token.subrange(e.start(), e.end),
        decimal_parts(token).tail.len() == token.len() - e.end,
{
    let body = if m.start == 1 {
        token.drop_first()
    } else {
        token
    };
    assert(body =~= token.skip(m.start));
    lemma_mantissa(token, m);
    lemma_exponent(token, e);
}

/// What the scan of a text as a decimal number has found.
struct Scan {
    negative: bool,
    digits: Vec<u8>,
    whole_len: usize,
    exponent_negative: bool,
    exponent: u128,
    well_formed: bool,
}

/// Takes a text apart as a decimal number. The digits before and after the
/// point are gathered in one row, and the exponent is counted up to the cap.
fn scan(token: &[u8]) -> (found: Scan)
    ensures
        found.negative == decimal_parts(token@).negative,
        found.digits@ == decimal_parts(token@).whole + decimal_parts(token@).frac,
        found.whole_len == decimal_parts(token@).whole.len(),
        all_digits(found.digits@),
        found.exponent_negative == decimal_parts(token@).exponent_negative,
        found.exponent < EXPONENT_CAP ==> found.exponent == digits_value(
            decimal_parts(token@).exponent,
        ),
        found.exponent >= EXPONENT_CAP ==> digits_value(decimal_parts(token@).exponent)
            >= EXPONENT_CAP,
        found.exponent < EXPONENT_CAP * 10 + 10,
        found.well_formed == is_number(decimal_parts(token@)),
{
    let n = token.len();
    let mut negative = false;
    let mut start: usize = 0;
    if n > 0 && sign(token[0]) {
        negative = token[0] == 45;
        start = 1;
    }
    let mut digits: Vec<u8> = Vec::new();
    let whole_end = gather_digits(token, start, &mut digits);
    let has_point = whole_end < n && token[whole_end] == 46;
    let frac_start: usize = if has_point {
        whole_end + 1
    } else {
        whole_end
    };
    let frac_end: usize = if has_point {
        gather_digits(token, frac_start, &mut digits)
    } else {
        frac_start
    };
    let has_exponent = frac_end < n && (token[frac_end] == 101 || token[frac_end] == 69);
    let exp_src_start: usize = if has_exponent {
        frac_end + 1
    } else {
        frac_end
    };
    let exp_signed = has_exponent && exp_src_start < n && sign(token[exp_src_start]);
    let exponent_negative = exp_signed && token[exp_src_start] == 45;
    let exp_start: usize = if exp_signed {
        exp_src_start + 1
    } else {
        exp_src_start
    };
    let (exp_end, exponent): (usize, u128) = if has_exponent {
        read_exponent(token, exp_start)
    } else {
        (exp_start, 0)
    };
    proof {
        lemma_marks(
            token@,
            MantissaMarks {
                start: start as int,
                whole_end: whole_end as int,
                has_point,
                frac_end: frac_end as int,
            },
            ExponentMarks {
                from: frac_end as int,
                present: has_exponent,
                signed: exp_signed,
                end: exp_end as int,
            },
        );
        assert(digits@ =~= token@.subrange(start as int, whole_end as int) + token@.subrange(
            frac_start as int,
            frac_end as int,
        ));
    }
    Scan {
        negative,
        digits,
        whole_len: whole_end - start,
        exponent_negative,
        exponent,
        well_formed: exp_end == n && (whole_end - start) + (frac_end - frac_start) > 0 && (
        !has_exponent || exp_end - exp_start > 0),
    }
}

/// Reads a number of seconds in decimal notation as whole nanoseconds.
#[verifier::loop_isolation(false)]
pub fn parse_decimal(token: &[u8]) -> (value: Option<i64>)
    ensures
        match value {
            Some(v) => decimal_nanos(token@) == Some(v as int),
            None => decimal_nanos(token@).is_none(),
        },
{
    let found = scan(token);
    if !found.well_formed {
        return None;
    }
    let ghost parts = decimal_parts(token@);
    let ghost all = found.digits@;
    let ghost total = digits_value(all);
    let ghost exponent: int = if parts.exponent_negative {
        -(digits_value(parts.exponent) as int)
    } else {
        digits_value(parts.exponent) as int
    };
    let ghost shift: int = exponent + 9 - parts.frac.len();
    assert(magnitude(parts) == scaled(total, shift));
    let len = found.digits.len();
    let counted: i128 = if found.exponent_negative {
        found.whole_len as i128 + 9 - found.exponent as i128
    } else {
        found.whole_len as i128 + 9 + found.exponent as i128
    };
    // `counted` is how many of the digits stand before the point once it
    // has been moved. With an exponent beyond the cap it is not exact, but
    // it lies on the same side of every bound that is asked about below.
    assert(found.exponent < EXPONENT_CAP ==> counted == all.len() + shift);
    assert(found.exponent >= EXPONENT_CAP && found.exponent_negative ==> counted <= 0 && all.len()
        + shift <= 0);
    assert(found.exponent >= EXPONENT_CAP && !found.exponent_negative ==> counted >= len + 19
        && shift >= 19);
    if counted <= 0 {
        proof {
            lemma_scaled_down(all, shift);
        }
        return Some(0);
    }
    let take: usize = if counted < len as i128 {
        counted as usize
    } else {
        len
    };
    let mut size: u64 = 0;
    let mut k: usize = 0;
    while k < take
        invariant
            k <= take <= len,
            len == all.len(),
            all == found.digits@,
            all_digits(all),
            size == digits_value(all.take(k as int)),
            size <= i64::MAX,
        decreases take - k,
    {
        let d: u64 = (found.digits[k] - 48) as u64;
        proof {
            let longer = all.take(k + 1);
            assert(longer.drop_last() =~= all.take(k as int));
            assert(longer.last() == all[k as int]);
            assert(is_digit(all[k as int]));
        }
        if size > (i64::MAX as u64 - d) / 10 {
            proof {
                // The leading digits alone are too large, and so is the
                // number as a whole.
                let lead = digits_value(all.take(k + 1));
                assert(lead > i64::MAX);
                lemma_digits_split(all, k + 1);
                lemma_pow10_positive((all.len() - (k + 1)) as nat);
                let p = pow10((all.len() - (k + 1)) as nat);
                assert(lead * p >= lead) by (nonlinear_arith)
                    requires
                        p >= 1,
                        lead >= 0,
                ;
                assert(total >= lead);
                if shift < 0 {
                    lemma_scaled_down(all, shift);
                    lemma_digits_split(all.take(all.len() + shift), k + 1);
                    assert(all.take(all.len() + shift).take(k + 1) =~= all.take(k + 1));
                    let q = pow10((all.len() + shift - (k + 1)) as nat);
                    lemma_pow10_positive((all.len() + shift - (k + 1)) as nat);
                    assert(lead * q >= lead) by (nonlinear_arith)
                        requires
                            q >= 1,
                            lead >= 0,
                    ;
                } else {
                    lemma_scaled_monotonic(total, 0, shift);
                    lemma_scaled_step(total, 0);
                }
            }
            return None;
        }
        size = size * 10 + d;
        k += 1;
    }
    if counted <= len as i128 {
        proof {
            if shift < 0 {
                lemma_scaled_down(all, shift);
            } else {
                assert(all.take(len as int) =~= all);
                lemma_scaled_step(total, 0);
            }
        }
    } else {
        proof {
            assert(all.take(len as int) =~= all);
            lemma_scaled_step(total, 0);
        }
        let more: i128 = counted - len as i128;
        let turns: u32 = if more > 19 {
            19
        } else {
            more as u32
        };
        let mut t: u32 = 0;
        while t < turns
            invariant
                t <= turns <= 19,
                turns <= shift,
                size == scaled(total, t as int),
                size <= i64::MAX,
            decreases turns - t,
        {
            proof {
                lemma_scaled_step(total, t as nat);
            }
            if size > i64::MAX as u64 / 10 {
                proof {
                    lemma_scaled_monotonic(total, t + 1, shift);
                }
                return None;
            }
            size = size * 10;
            t += 1;
        }
        proof {
            if turns < shift {
                lemma_scaled_far(total, 19);
                lemma_scaled_far(total, shift);
            }
        }
    }
    if found.negative {
        Some(-(size as i64))
    } else {
        Some(size as i64)
    }
}

} // verus!
