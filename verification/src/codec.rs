use vstd::prelude::*;
use vstd::arithmetic::power::{pow, lemma_pow0, lemma_pow1, lemma_pow_adds, lemma_pow_strictly_increases};
use vstd::arithmetic::div_mod::{lemma_fundamental_div_mod_converse_div, lemma_fundamental_div_mod_converse_mod, lemma_mod_mod};
use crate::{in_domain, DOMAIN_LO, DOMAIN_HI};
use crate::generator::{Point, point_wf};

verus! {

/// ASCII codes of the characters the text format is made of.
pub const BYTE_SPACE: u8 = 32;

/// ASCII code of the minus sign.
pub const BYTE_MINUS: u8 = 45;

/// ASCII code of the decimal dot.
pub const BYTE_DOT: u8 = 46;

/// ASCII code of the digit zero.
pub const BYTE_ZERO: u8 = 48;

/// ASCII code of the line terminator.
pub const BYTE_NEWLINE: u8 = 10;

/// True of an ASCII decimal digit.
pub open spec fn is_digit(b: u8) -> bool {
    BYTE_ZERO <= b <= 57
}

/// True when every byte of `s` is an ASCII decimal digit.
pub open spec fn all_digits(s: Seq<u8>) -> bool {
    forall|i: int| 0 <= i < s.len() ==> is_digit(#[trigger] s[i])
}

/// The canonical decimal spelling of a number: at least one digit, and
/// no leading zero unless the number is zero itself.
pub open spec fn canon_digits(s: Seq<u8>) -> bool {
    &&& s.len() >= 1
    &&& all_digits(s)
    &&& (s.len() > 1 ==> s[0] != BYTE_ZERO)
}

/// The number a digit string stands for.
pub open spec fn digits_val(s: Seq<u8>) -> int
    decreases s.len(),
{
    if s.len() == 0 {
        0
    } else {
        digits_val(s.drop_last()) * 10 + (s.last() - BYTE_ZERO)
    }
}

/// The ASCII digit of a value below ten.
pub open spec fn digit_byte(d: int) -> u8
    recommends
        0 <= d <= 9,
{
    (BYTE_ZERO + d) as u8
}

/// The canonical decimal spelling of a nonnegative number.
pub open spec fn dec_rep(n: nat) -> Seq<u8>
    decreases n,
{
    if n < 10 {
        seq![digit_byte(n as int)]
    } else {
        dec_rep(n / 10) + seq![digit_byte((n % 10) as int)]
    }
}

/// The canonical spelling is made of digits, never starts with a zero
/// for a positive number, and spells at least one digit.
proof fn lemma_dec_rep_canon(n: nat)
    ensures
        canon_digits(dec_rep(n)),
        n >= 1 ==> dec_rep(n)[0] != BYTE_ZERO,
    decreases n,
{
    if n >= 10 {
        lemma_dec_rep_canon(n / 10);
        let a = dec_rep(n / 10);
        let whole = dec_rep(n);
        assert(whole == a + seq![digit_byte((n % 10) as int)]);
        assert forall|i: int| 0 <= i < whole.len() implies is_digit(#[trigger] whole[i]) by {
            if i < a.len() {
                assert(whole[i] == a[i]);
            }
        }
    }
}

/// The canonical spelling of `n` stands for `n`.
proof fn lemma_dec_rep_val(n: nat)
    ensures
        digits_val(dec_rep(n)) == n,
    decreases n,
{
    if n < 10 {
        let r = dec_rep(n);
        assert(r.drop_last() =~= Seq::<u8>::empty());
        assert(digits_val(Seq::<u8>::empty()) == 0);
        assert(r.last() == digit_byte(n as int));
        assert(digits_val(r) == r.last() - BYTE_ZERO);
    } else {
        lemma_dec_rep_val(n / 10);
        let a = dec_rep(n / 10);
        let b = seq![digit_byte((n % 10) as int)];
        assert((a + b).drop_last() =~= a);
        assert((a + b).last() == digit_byte((n % 10) as int));
        assert(digits_val(a + b) == digits_val(a) * 10 + (n % 10));
        assert(n / 10 * 10 + n % 10 == n) by (nonlinear_arith);
    }
}

/// A digit string with a nonzero leading digit stands for a positive
/// number.
proof fn lemma_digits_val_pos(s: Seq<u8>)
    requires
        all_digits(s),
        s.len() >= 1,
        s[0] != BYTE_ZERO,
    ensures
        digits_val(s) >= 1,
    decreases s.len(),
{
    if s.len() == 1 {
        assert(is_digit(s[0]));
        assert(s.drop_last() =~= Seq::<u8>::empty());
        assert(digits_val(Seq::<u8>::empty()) == 0);
        assert(s.last() == s[0]);
    } else {
        let a = s.drop_last();
        assert(a[0] == s[0]);
        assert forall|i: int| 0 <= i < a.len() implies is_digit(#[trigger] a[i]) by {
            assert(a[i] == s[i]);
        }
        lemma_digits_val_pos(a);
        assert(is_digit(s.last()));
        assert(digits_val(a) * 10 >= 10) by (nonlinear_arith)
            requires digits_val(a) >= 1;
    }
}

/// A digit string stands for a number below ten to the power of its
/// length.
proof fn lemma_digits_val_bound(s: Seq<u8>)
    requires
        all_digits(s),
    ensures
        0 <= digits_val(s) < pow(10, s.len() as nat),
    decreases s.len(),
{
    if s.len() == 0 {
        lemma_pow0(10);
    } else {
        lemma_digits_val_bound(s.drop_last());
        assert(is_digit(s.last()));
        let w = digits_val(s.drop_last());
        let p = pow(10, (s.len() - 1) as nat);
        lemma_pow_adds(10, (s.len() - 1) as nat, 1);
        lemma_pow1(10);
        assert(pow(10, s.len() as nat) == 10 * p) by (nonlinear_arith)
            requires pow(10, s.len() as nat) == p * pow(10, 1), pow(10, 1) == 10;
        assert(w * 10 + (s.last() - BYTE_ZERO) < 10 * p) by (nonlinear_arith)
            requires 0 <= w < p, s.last() - BYTE_ZERO <= 9;
        assert(0 <= w * 10 + (s.last() - BYTE_ZERO)) by (nonlinear_arith)
            requires 0 <= w, 0 <= s.last() - BYTE_ZERO;
    }
}

/// The canonical spelling of a number stands alone: a canonical digit
/// string spells exactly the number it stands for.
proof fn lemma_canon_digits_rep(s: Seq<u8>)
    requires
        canon_digits(s),
    ensures
        dec_rep(digits_val(s) as nat) == s,
    decreases s.len(),
{
    lemma_digits_val_bound(s);
    let v = digits_val(s);
    if s.len() == 1 {
        assert(is_digit(s[0]));
        assert(s.drop_last() =~= Seq::<u8>::empty());
        assert(digits_val(Seq::<u8>::empty()) == 0);
        assert(s.last() == s[0]);
        assert(v == s[0] - BYTE_ZERO);
        assert(dec_rep(v as nat) =~= s);
    } else {
        let a = s.drop_last();
        assert(a[0] == s[0]);
        assert forall|i: int| 0 <= i < a.len() implies is_digit(#[trigger] a[i]) by {
            assert(a[i] == s[i]);
        }
        lemma_digits_val_pos(a);
        lemma_canon_digits_rep(a);
        let w = digits_val(a);
        let d = s.last() - BYTE_ZERO;
        assert(is_digit(s.last()));
        assert(v == w * 10 + d);
        assert(v >= 10) by (nonlinear_arith)
            requires w >= 1, d >= 0, v == w * 10 + d;
        assert(v / 10 == w && v % 10 == d) by (nonlinear_arith)
            requires v == w * 10 + d, 0 <= d <= 9, w >= 0;
        assert(dec_rep(v as nat) == dec_rep((v / 10) as nat) + seq![digit_byte(v % 10)]);
        assert(dec_rep(v as nat) =~= s);
    }
}

/// The canonical spelling of a number below ten to the k-th power is at
/// most k digits long.
proof fn lemma_dec_rep_len(n: nat, k: nat)
    requires
        k >= 1,
        n < pow(10, k),
    ensures
        dec_rep(n).len() <= k,
    decreases n,
{
    if n >= 10 {
        lemma_pow1(10);
        if k == 1 {
            assert(false);
        }
        lemma_pow_adds(10, (k - 1) as nat, 1);
        assert(pow(10, k) == 10 * pow(10, (k - 1) as nat)) by (nonlinear_arith)
            requires pow(10, k) == pow(10, (k - 1) as nat) * pow(10, 1), pow(10, 1) == 10;
        assert(n / 10 < pow(10, (k - 1) as nat)) by (nonlinear_arith)
            requires n < 10 * pow(10, (k - 1) as nat), n >= 0;
        lemma_dec_rep_len(n / 10, (k - 1) as nat);
    }
}

/// The text of one coordinate, in fixed-point hundredths: an optional
/// minus sign, the whole part in canonical decimal, a dot, and exactly
/// two fraction digits.
pub open spec fn coord_text(c: int) -> Seq<u8> {
    let a = if c < 0 { -c } else { c };
    let sign: Seq<u8> = if c < 0 { seq![BYTE_MINUS] } else { Seq::<u8>::empty() };
    sign + dec_rep((a / 100) as nat) + seq![BYTE_DOT, digit_byte(a % 100 / 10), digit_byte(a % 10)]
}

/// The text of one point: the two coordinates and the group label,
/// separated by single spaces.
pub open spec fn line_text(p: Point) -> Seq<u8> {
    coord_text(p.x as int) + seq![BYTE_SPACE] + coord_text(p.y as int) + seq![BYTE_SPACE]
        + dec_rep(p.group as nat)
}

/// Render a nonnegative number in canonical decimal.
pub fn format_nat(n: u64) -> (v: Vec<u8>)
    ensures
        v@ == dec_rep(n as nat),
    decreases n,
{
    if n < 10 {
        let mut v: Vec<u8> = Vec::new();
        v.push(BYTE_ZERO + n as u8);
        proof {
            assert(v@ =~= dec_rep(n as nat));
        }
        v
    } else {
        let mut v = format_nat(n / 10);
        v.push(BYTE_ZERO + (n % 10) as u8);
        proof {
            assert(v@ =~= dec_rep(n as nat));
        }
        v
    }
}

/// Render one coordinate as fixed-point text with two fraction digits.
pub fn format_coord(c: i64) -> (v: Vec<u8>)
    requires
        in_domain(c as int),
    ensures
        v@ == coord_text(c as int),
{
    let a = if c < 0 { -c } else { c };
    let mut v: Vec<u8> = Vec::new();
    if c < 0 {
        v.push(BYTE_MINUS);
    }
    let mut whole = format_nat((a / 100) as u64);
    v.append(&mut whole);
    v.push(BYTE_DOT);
    v.push(BYTE_ZERO + (a % 100 / 10) as u8);
    v.push(BYTE_ZERO + (a % 10) as u8);
    proof {
        assert(v@ =~= coord_text(c as int));
    }
    v
}

/// Render one point as a text line: the two coordinates with two
/// fraction digits each and the group label, separated by single spaces.
/// The line carries no terminator; the writer appends one newline per
/// line.
pub fn format_point_line(p: &Point) -> (v: Vec<u8>)
    requires
        point_wf(*p),
    ensures
        v@ == line_text(*p),
{
    let mut v = format_coord(p.x);
    v.push(BYTE_SPACE);
    let mut ytext = format_coord(p.y);
    v.append(&mut ytext);
    v.push(BYTE_SPACE);
    let mut gtext = format_nat(p.group as u64);
    v.append(&mut gtext);
    proof {
        assert(v@ =~= line_text(*p));
    }
    v
}

/// Concrete values of the small powers of ten the parser reasons with.
proof fn lemma_pow10_values()
    ensures
        pow(10, 1) == 10,
        pow(10, 2) == 100,
        pow(10, 3) == 1000,
        pow(10, 9) == 1000000000,
        pow(10, 10) == 10000000000,
{
    lemma_pow0(10);
    lemma_pow1(10);
    lemma_pow_adds(10, 1, 1);
    lemma_pow_adds(10, 2, 1);
    lemma_pow_adds(10, 3, 3);
    assert(pow(10, 6) == 1000000) by (nonlinear_arith)
        requires pow(10, 6) == pow(10, 3) * pow(10, 3), pow(10, 3) == 1000;
    lemma_pow_adds(10, 6, 3);
    assert(pow(10, 9) == 1000000000) by (nonlinear_arith)
        requires pow(10, 9) == pow(10, 6) * pow(10, 3), pow(10, 6) == 1000000, pow(10, 3) == 1000;
    lemma_pow_adds(10, 9, 1);
}

/// Copy the byte range `[from, to)` of `s`.
fn copy_range(s: &Vec<u8>, from: usize, to: usize) -> (v: Vec<u8>)
    requires
        from <= to <= s.len(),
    ensures
        v@ == s@.subrange(from as int, to as int),
{
    let mut v: Vec<u8> = Vec::new();
    proof {
        assert(v@ =~= s@.subrange(from as int, from as int));
    }
    let mut i: usize = from;
    while i < to
        invariant
            from <= i <= to <= s.len(),
            v@ == s@.subrange(from as int, i as int),
        decreases to - i,
    {
        v.push(s[i]);
        i = i + 1;
        proof {
            assert(v@ =~= s@.subrange(from as int, i as int));
        }
    }
    v
}

/// Parse a canonical digit string of at most ten digits: all bytes are
/// digits, there is at least one, and no leading zero pads a positive
/// number.
fn parse_digits(s: &Vec<u8>) -> (r: Option<u64>)
    requires
        s@.len() <= 10,
    ensures
        match r {
            Some(v) => canon_digits(s@) && v == digits_val(s@),
            None => !canon_digits(s@),
        },
{
    if s.len() == 0 {
        return None;
    }
    if s.len() > 1 && s[0] == BYTE_ZERO {
        return None;
    }
    let mut acc: u64 = 0;
    let mut i: usize = 0;
    while i < s.len()
        invariant
            0 <= i <= s@.len() <= 10,
            all_digits(s@.subrange(0, i as int)),
            acc == digits_val(s@.subrange(0, i as int)),
        decreases s@.len() - i,
    {
        let b = s[i];
        if b < BYTE_ZERO || b > 57 {
            proof {
                assert(!is_digit(s@[i as int]));
            }
            return None;
        }
        proof {
            lemma_digits_val_bound(s@.subrange(0, i as int));
            lemma_pow10_values();
            if (i as int) < 9 {
                lemma_pow_strictly_increases(10, i as nat, 9);
            }
            assert(acc < 1000000000);
        }
        acc = acc * 10 + (b - BYTE_ZERO) as u64;
        i = i + 1;
        proof {
            let pre = s@.subrange(0, i - 1);
            let cur = s@.subrange(0, i as int);
            assert(cur.drop_last() =~= pre);
            assert(cur.last() == s@[i - 1]);
            assert forall|j: int| 0 <= j < cur.len() implies is_digit(#[trigger] cur[j]) by {
                if j < i - 1 {
                    assert(cur[j] == pre[j]);
                }
            }
        }
    }
    proof {
        assert(s@.subrange(0, s@.len() as int) =~= s@);
    }
    Some(acc)
}

/// Every byte of a coordinate's text is a minus sign, a dot or a digit;
/// in particular none is a space.
proof fn lemma_coord_text_no_space(c: int)
    ensures
        forall|i: int| 0 <= i < coord_text(c).len() ==> #[trigger] coord_text(c)[i] != BYTE_SPACE,
{
    let a = if c < 0 { -c } else { c };
    lemma_dec_rep_canon((a / 100) as nat);
    let s = coord_text(c);
    let w = dec_rep((a / 100) as nat);
    let start: int = if c < 0 { 1int } else { 0int };
    assert forall|i: int| 0 <= i < s.len() implies #[trigger] s[i] != BYTE_SPACE by {
        if start <= i < start + w.len() {
            assert(s[i] == w[i - start]);
            assert(is_digit(w[i - start]));
        }
    }
}

/// What the text of an in-domain coordinate looks like from the
/// parser's side: its sign byte, its length, the dot's place, the
/// canonical whole part and the two fraction digits.
proof fn lemma_coord_text_shape(c: int)
    requires
        in_domain(c),
    ensures
        ({
            let s = coord_text(c);
            let a = if c < 0 { -c } else { c };
            let start: int = if c < 0 { 1int } else { 0int };
            &&& (c < 0 ==> s[0] == BYTE_MINUS)
            &&& (c >= 0 ==> is_digit(s[0]))
            &&& s.len() >= start + 4
            &&& s.len() - 3 - start <= 3
            &&& s[s.len() - 3] == BYTE_DOT
            &&& s.subrange(start, s.len() - 3) == dec_rep((a / 100) as nat)
            &&& canon_digits(s.subrange(start, s.len() - 3))
            &&& digits_val(s.subrange(start, s.len() - 3)) == a / 100
            &&& s[s.len() - 2] == digit_byte(a % 100 / 10)
            &&& s[s.len() - 1] == digit_byte(a % 10)
            &&& is_digit(s[s.len() - 2])
            &&& is_digit(s[s.len() - 1])
        }),
{
    let s = coord_text(c);
    let a = if c < 0 { -c } else { c };
    let start: int = if c < 0 { 1int } else { 0int };
    let w = dec_rep((a / 100) as nat);
    lemma_dec_rep_canon((a / 100) as nat);
    lemma_dec_rep_val((a / 100) as nat);
    lemma_pow10_values();
    lemma_dec_rep_len((a / 100) as nat, 3);
    assert(s.len() == start + w.len() + 3);
    assert(s.subrange(start, s.len() - 3) =~= w);
    assert(0 <= a % 100 / 10 <= 9 && 0 <= a % 10 <= 9);
    assert(is_digit(digit_byte(a % 100 / 10)));
    assert(is_digit(digit_byte(a % 10)));
    if c >= 0 {
        assert(s[0] == w[0]);
        assert(is_digit(w[0]));
    }
}

/// Recomposing a nonnegative number from its hundreds, tens-of-
/// hundredths and hundredths digits gives the number back.
proof fn lemma_coord_value_recompose(a: int)
    requires
        a >= 0,
    ensures
        (a / 100) * 100 + (a % 100 / 10) * 10 + (a % 10) == a,
{
    vstd::arithmetic::div_mod::lemma_fundamental_div_mod(a, 100);
    vstd::arithmetic::div_mod::lemma_fundamental_div_mod(a % 100, 10);
    lemma_mod_mod(a, 10, 10);
}

/// Completeness side of coordinate parsing: when the input is the text
/// of an in-domain coordinate, the fields the parser reads recompose
/// exactly that coordinate's magnitude, and the sign byte tells its
/// sign.
proof fn lemma_parse_value(s: Seq<u8>, cc: int, neg: bool, w: int, d1: u8, d2: u8)
    requires
        in_domain(cc),
        s == coord_text(cc),
        s.len() > 0,
        neg == (s[0] == BYTE_MINUS),
        w == digits_val(s.subrange(if neg { 1int } else { 0int }, s.len() - 3)),
        d1 == s[s.len() - 2],
        d2 == s[s.len() - 1],
    ensures
        neg == (cc < 0),
        (if cc < 0 { -cc } else { cc }) == w * 100 + (d1 - BYTE_ZERO) * 10 + (d2 - BYTE_ZERO),
{
    lemma_coord_text_shape(cc);
    let a = if cc < 0 { -cc } else { cc };
    if cc >= 0 {
        assert(is_digit(s[0]));
        assert(s[0] != BYTE_MINUS);
    }
    assert(neg == (cc < 0));
    assert(w == a / 100);
    assert(d1 == digit_byte(a % 100 / 10));
    assert(d2 == digit_byte(a % 10));
    assert(d1 - BYTE_ZERO == a % 100 / 10);
    assert(d2 - BYTE_ZERO == a % 10);
    lemma_coord_value_recompose(a);
}

/// Soundness side of coordinate parsing: an input whose pieces are a
/// sign, a canonical whole part, a dot and two fraction digits is the
/// text of the coordinate those pieces spell.
proof fn lemma_format_from_fields(c: int, s: Seq<u8>, w: int, d1: u8, d2: u8, start: int)
    requires
        start == (if c < 0 { 1int } else { 0int }),
        s.len() >= start + 4,
        c < 0 ==> s[0] == BYTE_MINUS,
        canon_digits(s.subrange(start, s.len() - 3)),
        w == digits_val(s.subrange(start, s.len() - 3)),
        s[s.len() - 3] == BYTE_DOT,
        is_digit(d1),
        is_digit(d2),
        d1 == s[s.len() - 2],
        d2 == s[s.len() - 1],
        (if c < 0 { -c } else { c }) == w * 100 + (d1 - BYTE_ZERO) * 10 + (d2 - BYTE_ZERO),
    ensures
        s == coord_text(c),
{
    let a = if c < 0 { -c } else { c };
    let whole = s.subrange(start, s.len() - 3);
    let f1 = d1 - BYTE_ZERO;
    let f2 = d2 - BYTE_ZERO;
    lemma_digits_val_pos_zero(whole);
    lemma_fundamental_div_mod_converse_div(a, 100, w, f1 * 10 + f2);
    lemma_fundamental_div_mod_converse_mod(a, 100, w, f1 * 10 + f2);
    lemma_fundamental_div_mod_converse_div(f1 * 10 + f2, 10, f1 as int, f2 as int);
    lemma_fundamental_div_mod_converse_mod(f1 * 10 + f2, 10, f1 as int, f2 as int);
    lemma_mod_mod(a, 10, 10);
    assert(a / 100 == w);
    assert(a % 100 == f1 * 10 + f2);
    assert(a % 100 / 10 == f1);
    assert(a % 10 == f2);
    lemma_canon_digits_rep(whole);
    assert(dec_rep((a / 100) as nat) == whole);
    assert(digit_byte(a % 100 / 10) == d1);
    assert(digit_byte(a % 10) == d2);
    assert(s =~= coord_text(c));
}

/// A digit string's value is nonnegative.
proof fn lemma_digits_val_pos_zero(s: Seq<u8>)
    requires
        all_digits(s),
    ensures
        digits_val(s) >= 0,
    decreases s.len(),
{
    if s.len() > 0 {
        let a = s.drop_last();
        assert forall|i: int| 0 <= i < a.len() implies is_digit(#[trigger] a[i]) by {
            assert(a[i] == s[i]);
        }
        lemma_digits_val_pos_zero(a);
        assert(is_digit(s.last()));
        assert(digits_val(a) * 10 >= 0) by (nonlinear_arith)
            requires digits_val(a) >= 0;
    }
}

/// Parse one fixed-point coordinate. The parser is strict: it accepts
/// exactly the output shape of `format_coord` for an in-domain
/// coordinate, and nothing else.
pub fn parse_coord(s: &Vec<u8>) -> (r: Option<i64>)
    ensures
        match r {
            Some(c) => in_domain(c as int) && s@ == coord_text(c as int),
            None => forall|c: int| in_domain(c) ==> s@ != coord_text(c),
        },
{
    let n = s.len();
    let neg = n > 0 && s[0] == BYTE_MINUS;
    let start: usize = if neg { 1 } else { 0 };
    if n < start + 4 {
        proof {
            assert forall|c: int| in_domain(c) implies s@ != coord_text(c) by {
                if s@ == coord_text(c) {
                    lemma_coord_text_shape(c);
                }
            }
        }
        return None;
    }
    if s[n - 3] != BYTE_DOT || n - 3 - start > 3 {
        proof {
            assert forall|c: int| in_domain(c) implies s@ != coord_text(c) by {
                if s@ == coord_text(c) {
                    lemma_coord_text_shape(c);
                }
            }
        }
        return None;
    }
    let whole = copy_range(s, start, n - 3);
    let wopt = parse_digits(&whole);
    if wopt.is_none() {
        proof {
            assert forall|c: int| in_domain(c) implies s@ != coord_text(c) by {
                if s@ == coord_text(c) {
                    lemma_coord_text_shape(c);
                }
            }
        }
        return None;
    }
    let w = wopt.unwrap();
    let d1 = s[n - 2];
    let d2 = s[n - 1];
    if d1 < BYTE_ZERO || d1 > 57 || d2 < BYTE_ZERO || d2 > 57 {
        proof {
            assert forall|c: int| in_domain(c) implies s@ != coord_text(c) by {
                if s@ == coord_text(c) {
                    lemma_coord_text_shape(c);
                }
            }
        }
        return None;
    }
    proof {
        lemma_digits_val_bound(whole@);
        lemma_pow10_values();
    }
    let v = w * 100 + ((d1 - BYTE_ZERO) as u64) * 10 + (d2 - BYTE_ZERO) as u64;
    if neg && v == 0 {
        proof {
            assert forall|c: int| in_domain(c) implies s@ != coord_text(c) by {
                if s@ == coord_text(c) {
                    lemma_parse_value(s@, c, neg, w as int, d1, d2);
                }
            }
        }
        return None;
    }
    let c: i64 = if neg { -(v as i64) } else { v as i64 };
    if c < DOMAIN_LO || c >= DOMAIN_HI {
        proof {
            assert forall|cc: int| in_domain(cc) implies s@ != coord_text(cc) by {
                if s@ == coord_text(cc) {
                    lemma_parse_value(s@, cc, neg, w as int, d1, d2);
                }
            }
        }
        return None;
    }
    proof {
        lemma_format_from_fields(c as int, s@, w as int, d1, d2, start as int);
    }
    Some(c)
}


/// Parse a group label: the canonical decimal spelling of a number that
/// fits a `u32`, and nothing else.
pub fn parse_group(s: &Vec<u8>) -> (r: Option<u32>)
    ensures
        match r {
            Some(g) => s@ == dec_rep(g as nat),
            None => forall|g: u32| s@ != dec_rep(g as nat),
        },
{
    if s.len() > 10 {
        proof {
            assert forall|g: u32| s@ != dec_rep(g as nat) by {
                if s@ == dec_rep(g as nat) {
                    lemma_pow10_values();
                    lemma_dec_rep_len(g as nat, 10);
                }
            }
        }
        return None;
    }
    let vopt = parse_digits(s);
    if vopt.is_none() {
        proof {
            assert forall|g: u32| s@ != dec_rep(g as nat) by {
                if s@ == dec_rep(g as nat) {
                    lemma_dec_rep_canon(g as nat);
                }
            }
        }
        return None;
    }
    let v = vopt.unwrap();
    if v > 0xffff_ffff {
        proof {
            assert forall|g: u32| s@ != dec_rep(g as nat) by {
                if s@ == dec_rep(g as nat) {
                    lemma_dec_rep_val(g as nat);
                }
            }
        }
        return None;
    }
    proof {
        lemma_canon_digits_rep(s@);
    }
    Some(v as u32)
}

/// Where the pieces of a point's line stand: the first space ends the
/// x field, the second ends the y field, and the three fields read back
/// as the texts of the point's parts.
proof fn lemma_line_shape(p: Point)
    ensures
        ({
            let s = line_text(p);
            let ax = coord_text(p.x as int).len() as int;
            let bx = ax + 1 + coord_text(p.y as int).len() as int;
            &&& s.len() == bx + 1 + dec_rep(p.group as nat).len()
            &&& bx + 1 < s.len()
            &&& s[ax] == BYTE_SPACE
            &&& s[bx] == BYTE_SPACE
            &&& (forall|k: int| 0 <= k < ax ==> #[trigger] s[k] != BYTE_SPACE)
            &&& (forall|k: int| ax < k < bx ==> #[trigger] s[k] != BYTE_SPACE)
            &&& s.subrange(0, ax) == coord_text(p.x as int)
            &&& s.subrange(ax + 1, bx) == coord_text(p.y as int)
            &&& s.subrange(bx + 1, s.len() as int) == dec_rep(p.group as nat)
        }),
{
    let s = line_text(p);
    let a = coord_text(p.x as int);
    let b = coord_text(p.y as int);
    let c = dec_rep(p.group as nat);
    let ax = a.len() as int;
    let bx = ax + 1 + b.len() as int;
    lemma_coord_text_no_space(p.x as int);
    lemma_coord_text_no_space(p.y as int);
    lemma_dec_rep_canon(p.group as nat);
    assert(s.len() == bx + 1 + c.len());
    assert(s[ax] == BYTE_SPACE);
    assert(s[bx] == BYTE_SPACE);
    assert forall|k: int| 0 <= k < ax implies #[trigger] s[k] != BYTE_SPACE by {
        assert(s[k] == a[k]);
    }
    assert forall|k: int| ax < k < bx implies #[trigger] s[k] != BYTE_SPACE by {
        assert(s[k] == b[k - ax - 1]);
    }
    assert(s.subrange(0, ax) =~= a);
    assert(s.subrange(ax + 1, bx) =~= b);
    assert(s.subrange(bx + 1, s.len() as int) =~= c);
}

/// Parse one text line into a point. This is the strict inverse of
/// `format_point_line`: it returns a point exactly when the line is the
/// text of a well-formed point, and that point reformats to the very
/// same line.
pub fn parse_point_line(s: &Vec<u8>) -> (r: Option<Point>)
    ensures
        match r {
            Some(p) => point_wf(p) && s@ == line_text(p),
            None => forall|p: Point| point_wf(p) ==> s@ != line_text(p),
        },
{
    let n = s.len();
    let mut i1: usize = 0;
    loop
        invariant
            0 <= i1 <= n,
            n == s@.len(),
            forall|k: int| 0 <= k < i1 ==> #[trigger] s@[k] != BYTE_SPACE,
        ensures
            0 <= i1 <= n,
            n == s@.len(),
            forall|k: int| 0 <= k < i1 ==> #[trigger] s@[k] != BYTE_SPACE,
            i1 < n ==> s@[i1 as int] == BYTE_SPACE,
            i1 == n ==> (forall|k: int| 0 <= k < n ==> #[trigger] s@[k] != BYTE_SPACE),
        decreases n - i1,
    {
        if i1 >= n {
            break;
        }
        if s[i1] == BYTE_SPACE {
            break;
        }
        i1 = i1 + 1;
    }
    if i1 == n {
        proof {
            assert forall|p: Point| point_wf(p) implies s@ != line_text(p) by {
                if s@ == line_text(p) {
                    lemma_line_shape(p);
                }
            }
        }
        return None;
    }
    let mut i2: usize = i1 + 1;
    loop
        invariant
            i1 + 1 <= i2 <= n,
            n == s@.len(),
            forall|k: int| i1 < k < i2 ==> #[trigger] s@[k] != BYTE_SPACE,
        ensures
            i1 + 1 <= i2 <= n,
            n == s@.len(),
            forall|k: int| i1 < k < i2 ==> #[trigger] s@[k] != BYTE_SPACE,
            i2 < n ==> s@[i2 as int] == BYTE_SPACE,
            i2 == n ==> (forall|k: int| i1 < k < n ==> #[trigger] s@[k] != BYTE_SPACE),
        decreases n - i2,
    {
        if i2 >= n {
            break;
        }
        if s[i2] == BYTE_SPACE {
            break;
        }
        i2 = i2 + 1;
    }
    if i2 == n {
        proof {
            assert forall|p: Point| point_wf(p) implies s@ != line_text(p) by {
                if s@ == line_text(p) {
                    lemma_line_shape(p);
                }
            }
        }
        return None;
    }
    let xfield = copy_range(s, 0, i1);
    let yfield = copy_range(s, i1 + 1, i2);
    let gfield = copy_range(s, i2 + 1, n);
    let xopt = parse_coord(&xfield);
    if xopt.is_none() {
        proof {
            assert forall|p: Point| point_wf(p) implies s@ != line_text(p) by {
                if s@ == line_text(p) {
                    lemma_line_shape(p);
                }
            }
        }
        return None;
    }
    let yopt = parse_coord(&yfield);
    if yopt.is_none() {
        proof {
            assert forall|p: Point| point_wf(p) implies s@ != line_text(p) by {
                if s@ == line_text(p) {
                    lemma_line_shape(p);
                }
            }
        }
        return None;
    }
    let gopt = parse_group(&gfield);
    if gopt.is_none() {
        proof {
            assert forall|p: Point| point_wf(p) implies s@ != line_text(p) by {
                if s@ == line_text(p) {
                    lemma_line_shape(p);
                }
            }
        }
        return None;
    }
    let p = Point { x: xopt.unwrap(), y: yopt.unwrap(), group: gopt.unwrap() };
    proof {
        assert(s@ =~= line_text(p));
    }
    Some(p)
}


/// No two in-domain coordinates share a text: the fixed-point format is
/// a faithful name for the coordinate it spells.
proof fn lemma_coord_text_injective(c1: int, c2: int)
    requires
        in_domain(c1),
        in_domain(c2),
        coord_text(c1) == coord_text(c2),
    ensures
        c1 == c2,
{
    let s = coord_text(c1);
    lemma_coord_text_shape(c1);
    lemma_coord_text_shape(c2);
    let neg = s[0] == BYTE_MINUS;
    let w = digits_val(s.subrange(if neg { 1int } else { 0int }, s.len() - 3));
    let d1 = s[s.len() - 2];
    let d2 = s[s.len() - 1];
    lemma_parse_value(s, c1, neg, w, d1, d2);
    lemma_parse_value(s, c2, neg, w, d1, d2);
}

/// No two well-formed points share a line: together with the parser's
/// contract, a line that parses at all reformats to itself, and a
/// formatted point is the only point its line can stand for.
pub proof fn lemma_line_text_injective(p: Point, q: Point)
    requires
        point_wf(p),
        point_wf(q),
        line_text(p) == line_text(q),
    ensures
        p == q,
{
    let s = line_text(p);
    lemma_line_shape(p);
    lemma_line_shape(q);
    let axp = coord_text(p.x as int).len() as int;
    let axq = coord_text(q.x as int).len() as int;
    assert(axp == axq) by {
        if axp < axq {
            assert(s[axp] == BYTE_SPACE);
        } else if axq < axp {
            assert(s[axq] == BYTE_SPACE);
        }
    }
    let bxp = axp + 1 + coord_text(p.y as int).len() as int;
    let bxq = axq + 1 + coord_text(q.y as int).len() as int;
    assert(bxp == bxq) by {
        if bxp < bxq {
            assert(s[bxp] == BYTE_SPACE);
        } else if bxq < bxp {
            assert(s[bxq] == BYTE_SPACE);
        }
    }
    assert(coord_text(p.x as int) == coord_text(q.x as int));
    assert(coord_text(p.y as int) == coord_text(q.y as int));
    lemma_coord_text_injective(p.x as int, q.x as int);
    lemma_coord_text_injective(p.y as int, q.y as int);
    assert(dec_rep(p.group as nat) == dec_rep(q.group as nat));
    lemma_dec_rep_val(p.group as nat);
    lemma_dec_rep_val(q.group as nat);
}


/// How often the byte `b` occurs in `s`.
pub open spec fn count_byte(s: Seq<u8>, b: u8) -> int
    decreases s.len(),
{
    if s.len() == 0 {
        0
    } else {
        count_byte(s.drop_last(), b) + if s.last() == b { 1int } else { 0int }
    }
}

/// Counting a byte distributes over concatenation.
proof fn lemma_count_byte_concat(a: Seq<u8>, b: Seq<u8>, x: u8)
    ensures
        count_byte(a + b, x) == count_byte(a, x) + count_byte(b, x),
    decreases b.len(),
{
    if b.len() == 0 {
        assert(a + b =~= a);
    } else {
        lemma_count_byte_concat(a, b.drop_last(), x);
        assert((a + b).drop_last() =~= a + b.drop_last());
        assert((a + b).last() == b.last());
    }
}

/// A sequence without the byte `x` counts zero of it.
proof fn lemma_count_byte_absent(s: Seq<u8>, x: u8)
    requires
        forall|i: int| 0 <= i < s.len() ==> #[trigger] s[i] != x,
    ensures
        count_byte(s, x) == 0,
    decreases s.len(),
{
    if s.len() > 0 {
        let a = s.drop_last();
        assert forall|i: int| 0 <= i < a.len() implies #[trigger] a[i] != x by {
            assert(a[i] == s[i]);
        }
        lemma_count_byte_absent(a, x);
        assert(s.last() == s[s.len() - 1]);
    }
}

/// A point's line holds no line terminator: every byte of it is a
/// sign, a dot, a digit or a space.
proof fn lemma_line_text_no_newline(p: Point)
    ensures
        forall|i: int| 0 <= i < line_text(p).len()
            ==> #[trigger] line_text(p)[i] != BYTE_NEWLINE,
{
    let s = line_text(p);
    let a = coord_text(p.x as int);
    let b = coord_text(p.y as int);
    let c = dec_rep(p.group as nat);
    let ax = a.len() as int;
    let bx = ax + 1 + b.len() as int;
    lemma_line_shape(p);
    lemma_coord_text_no_newline(p.x as int);
    lemma_coord_text_no_newline(p.y as int);
    lemma_dec_rep_canon(p.group as nat);
    assert forall|i: int| 0 <= i < s.len() implies #[trigger] s[i] != BYTE_NEWLINE by {
        if 0 <= i < ax {
            assert(s[i] == a[i]);
        } else if ax < i < bx {
            assert(s[i] == b[i - ax - 1]);
        } else if bx < i {
            assert(s[i] == c[i - bx - 1]);
            assert(is_digit(c[i - bx - 1]));
        }
    }
}

/// A coordinate's text holds no line terminator either.
proof fn lemma_coord_text_no_newline(c: int)
    ensures
        forall|i: int| 0 <= i < coord_text(c).len()
            ==> #[trigger] coord_text(c)[i] != BYTE_NEWLINE,
{
    let a = if c < 0 { -c } else { c };
    lemma_dec_rep_canon((a / 100) as nat);
    let s = coord_text(c);
    let w = dec_rep((a / 100) as nat);
    let start: int = if c < 0 { 1int } else { 0int };
    assert forall|i: int| 0 <= i < s.len() implies #[trigger] s[i] != BYTE_NEWLINE by {
        if start <= i < start + w.len() {
            assert(s[i] == w[i - start]);
            assert(is_digit(w[i - start]));
        }
    }
}

/// The whole text of a dataset: each point's line in order, each closed
/// by one line terminator.
pub open spec fn dataset_text(pts: Seq<Point>) -> Seq<u8>
    decreases pts.len(),
{
    if pts.len() == 0 {
        Seq::<u8>::empty()
    } else {
        dataset_text(pts.drop_last()) + line_text(pts.last()) + seq![BYTE_NEWLINE]
    }
}

/// The text writer puts out exactly one line per point: a dataset's
/// text holds as many line terminators as the dataset holds points.
pub proof fn lemma_one_line_per_point(pts: Seq<Point>)
    ensures
        count_byte(dataset_text(pts), BYTE_NEWLINE) == pts.len(),
    decreases pts.len(),
{
    if pts.len() > 0 {
        lemma_one_line_per_point(pts.drop_last());
        let head = dataset_text(pts.drop_last());
        let line = line_text(pts.last());
        lemma_line_text_no_newline(pts.last());
        lemma_count_byte_absent(line, BYTE_NEWLINE);
        lemma_count_byte_concat(head, line, BYTE_NEWLINE);
        lemma_count_byte_concat(head + line, seq![BYTE_NEWLINE], BYTE_NEWLINE);
        assert(count_byte(seq![BYTE_NEWLINE], BYTE_NEWLINE) == 1) by {
            let one = seq![BYTE_NEWLINE];
            assert(one.drop_last() =~= Seq::<u8>::empty());
            assert(count_byte(Seq::<u8>::empty(), BYTE_NEWLINE) == 0);
            assert(one.last() == BYTE_NEWLINE);
        }
    }
}

/// Render a whole dataset as the text file's bytes: one line per point,
/// each closed by a line terminator.
pub fn format_dataset(points: &Vec<Point>) -> (v: Vec<u8>)
    requires
        forall|i: int| 0 <= i < points.len() ==> point_wf(#[trigger] points[i]),
    ensures
        v@ == dataset_text(points@),
{
    let mut v: Vec<u8> = Vec::new();
    proof {
        assert(v@ =~= dataset_text(points@.subrange(0, 0)));
    }
    let mut i: usize = 0;
    while i < points.len()
        invariant
            0 <= i <= points.len(),
            forall|j: int| 0 <= j < points.len() ==> point_wf(#[trigger] points@[j]),
            v@ == dataset_text(points@.subrange(0, i as int)),
        decreases points.len() - i,
    {
        let mut line = format_point_line(&points[i]);
        v.append(&mut line);
        v.push(BYTE_NEWLINE);
        i = i + 1;
        proof {
            let pre = points@.subrange(0, i - 1);
            let cur = points@.subrange(0, i as int);
            assert(cur.drop_last() =~= pre);
            assert(cur.last() == points@[i - 1]);
            assert(v@ =~= dataset_text(cur));
        }
    }
    proof {
        assert(points@.subrange(0, points@.len() as int) =~= points@);
    }
    v
}

} // verus!
