use vstd::prelude::*;

use crate::strings::{push_char, push_str};

verus! {

/// The reserved words and delimiters of the language.
#[derive(Clone, Copy, Debug, PartialEq, Eq, Structural)]
pub enum Keyword {
    LParen,
    RParen,
    Define,
    Lambda,
    If,
    SetBang,
}

impl Keyword {
    /// How the keyword is written in source text.
    pub open spec fn spec_text(self) -> Seq<char> {
        match self {
            Keyword::LParen => seq!['('],
            Keyword::RParen => seq![')'],
            Keyword::Define => seq!['d', 'e', 'f', 'i', 'n', 'e'],
            Keyword::Lambda => seq!['l', 'a', 'm', 'b', 'd', 'a'],
            Keyword::If => seq!['i', 'f'],
            Keyword::SetBang => seq!['s', 'e', 't', '!'],
        }
    }

    /// How the keyword is written.
    pub fn text(&self) -> (r: &'static str)
        ensures
            r@ == self.spec_text(),
    {
        match self {
            Keyword::LParen => {
                proof {
                    reveal_strlit("(");
                }
                assert("("@ =~= seq!['(']);
                "("
            },
            Keyword::RParen => {
                proof {
                    reveal_strlit(")");
                }
                assert(")"@ =~= seq![')']);
                ")"
            },
            Keyword::Define => {
                proof {
                    reveal_strlit("define");
                }
                assert("define"@ =~= seq!['d', 'e', 'f', 'i', 'n', 'e']);
                "define"
            },
            Keyword::Lambda => {
                proof {
                    reveal_strlit("lambda");
                }
                assert("lambda"@ =~= seq!['l', 'a', 'm', 'b', 'd', 'a']);
                "lambda"
            },
            Keyword::If => {
                proof {
                    reveal_strlit("if");
                }
                assert("if"@ =~= seq!['i', 'f']);
                "if"
            },
            Keyword::SetBang => {
                proof {
                    reveal_strlit("set!");
                }
                assert("set!"@ =~= seq!['s', 'e', 't', '!']);
                "set!"
            },
        }
    }
}

/// `10` to the power `k`.
pub open spec fn pow10(k: nat) -> int
    decreases k,
{
    if k == 0 {
        1
    } else {
        10 * pow10((k - 1) as nat)
    }
}

/// The number written by a sequence of decimal digits, most significant first.
pub open spec fn decimal_value(ds: Seq<u8>) -> int
    decreases ds.len(),
{
    if ds.len() == 0 {
        0
    } else {
        decimal_value(ds.drop_last()) * 10 + ds.last() as int
    }
}

pub open spec fn all_digits(ds: Seq<u8>) -> bool {
    forall|i: int| 0 <= i < ds.len() ==> #[trigger] ds[i] < 10
}

/// The character that writes the decimal digit `d`.
pub open spec fn digit_char(d: u8) -> char {
    ((d + 48) as u8) as char
}

pub open spec fn digit_chars(ds: Seq<u8>) -> Seq<char> {
    ds.map_values(|d: u8| digit_char(d))
}

/// The shortest decimal writing of `n`.
pub open spec fn nat_string(n: nat) -> Seq<char>
    decreases n,
{
    if n < 10 {
        seq![digit_char(n as u8)]
    } else {
        nat_string(n / 10).push(digit_char((n % 10) as u8))
    }
}

/// The decimal writing of `v`, with a leading `-` when it is negative.
pub open spec fn int_string(v: int) -> Seq<char> {
    if v < 0 {
        seq!['-'] + nat_string((-v) as nat)
    } else {
        nat_string(v as nat)
    }
}

/// `s` with zeros put in front until it has at least `k` characters.
pub open spec fn pad_zeros(s: Seq<char>, k: nat) -> Seq<char> {
    if s.len() >= k {
        s
    } else {
        Seq::new((k - s.len()) as nat, |i: int| '0') + s
    }
}

pub open spec fn abs(v: int) -> nat {
    if v < 0 {
        (-v) as nat
    } else {
        v as nat
    }
}

/// The fixed-point writing of `numer / 10^k`: sign, integer part, point, and
/// exactly `k` fractional digits (one `0` when `k` is zero).
pub open spec fn real_string(numer: int, k: nat) -> Seq<char> {
    let n = abs(numer) as int;
    let sign = if numer < 0 {
        seq!['-']
    } else {
        Seq::<char>::empty()
    };
    sign + nat_string((n / pow10(k)) as nat) + seq!['.'] + pad_zeros(nat_string((n % pow10(k)) as nat), k)
}

/// The index of the first nonzero digit, or the length when there is none.
pub open spec fn first_nonzero(ds: Seq<u8>) -> int
    decreases ds.len(),
{
    if ds.len() == 0 {
        0
    } else if ds[0] != 0 {
        0
    } else {
        1 + first_nonzero(ds.drop_first())
    }
}

proof fn lemma_pow10_pos(k: nat)
    ensures
        pow10(k) >= 1,
    decreases k,
{
    if k > 0 {
        lemma_pow10_pos((k - 1) as nat);
    }
}

proof fn lemma_decimal_bounds(ds: Seq<u8>)
    requires
        all_digits(ds),
    ensures
        0 <= decimal_value(ds) < pow10(ds.len()),
    decreases ds.len(),
{
    if ds.len() > 0 {
        let p = ds.drop_last();
        assert(all_digits(p));
        lemma_decimal_bounds(p);
        let a = decimal_value(p);
        let d = ds.last() as int;
        let q = pow10(p.len());
        assert(pow10(ds.len()) == 10 * q);
        assert(a * 10 + d < 10 * q) by (nonlinear_arith)
            requires
                0 <= a < q,
                0 <= d < 10,
        ;
        assert(a * 10 + d >= 0) by (nonlinear_arith)
            requires
                0 <= a,
                0 <= d,
        ;
    }
}

proof fn lemma_decimal_concat(a: Seq<u8>, b: Seq<u8>)
    ensures
        decimal_value(a + b) == decimal_value(a) * pow10(b.len()) + decimal_value(b),
    decreases b.len(),
{
    if b.len() == 0 {
        assert(a + b =~= a);
    } else {
        let b2 = b.drop_last();
        assert((a + b).drop_last() =~= a + b2);
        lemma_decimal_concat(a, b2);
        let x = decimal_value(a);
        let y = decimal_value(b2);
        let q = pow10(b2.len());
        assert(pow10(b.len()) == 10 * q);
        assert((x * q + y) * 10 == x * (10 * q) + y * 10) by (nonlinear_arith);
    }
}

proof fn lemma_decimal_zeros(z: Seq<u8>, a: Seq<u8>)
    requires
        forall|i: int| 0 <= i < z.len() ==> #[trigger] z[i] == 0,
    ensures
        decimal_value(z + a) == decimal_value(a),
        decimal_value(z) == 0,
    decreases z.len(),
{
    if z.len() > 0 {
        let z2 = z.drop_last();
        assert(forall|i: int| 0 <= i < z2.len() ==> #[trigger] z2[i] == z[i]);
        lemma_decimal_zeros(z2, a);
        assert(z.last() == z[z.len() - 1]);
    }
    assert(decimal_value(z) == 0);
    lemma_decimal_concat(z, a);
    assert(decimal_value(z) * pow10(a.len()) == 0);
}

proof fn lemma_decimal_positive(ds: Seq<u8>)
    requires
        ds.len() > 0,
        ds[0] != 0,
    ensures
        decimal_value(ds) >= pow10((ds.len() - 1) as nat),
    decreases ds.len(),
{
    let p = ds.drop_last();
    if ds.len() > 1 {
        assert(p[0] == ds[0]);
        lemma_decimal_positive(p);
        let q = pow10((p.len() - 1) as nat);
        let a = decimal_value(p);
        assert(pow10((ds.len() - 1) as nat) == 10 * q);
        assert(a * 10 + ds.last() as int >= 10 * q) by (nonlinear_arith)
            requires
                a >= q,
                ds.last() as int >= 0,
        ;
    } else {
        assert(decimal_value(p) == 0);
        assert(ds.last() == ds[0]);
    }
}

proof fn lemma_nat_string_digits(ds: Seq<u8>)
    requires
        ds.len() > 0,
        ds[0] != 0,
        all_digits(ds),
    ensures
        nat_string(decimal_value(ds) as nat) == digit_chars(ds),
    decreases ds.len(),
{
    lemma_decimal_bounds(ds);
    if ds.len() == 1 {
        assert(decimal_value(ds) == ds[0] as int) by {
            assert(decimal_value(ds.drop_last()) == 0);
            assert(ds.last() == ds[0]);
        }
        assert(digit_chars(ds) =~= seq![digit_char(ds[0])]);
    } else {
        let p = ds.drop_last();
        assert(all_digits(p));
        lemma_nat_string_digits(p);
        lemma_decimal_positive(p);
        lemma_pow10_pos((p.len() - 1) as nat);
        lemma_decimal_bounds(p);
        let a = decimal_value(p);
        let d = ds.last() as int;
        let v = a * 10 + d;
        assert(v / 10 == a && v % 10 == d) by (nonlinear_arith)
            requires
                v == a * 10 + d,
                0 <= d < 10,
                a >= 0,
        ;
        assert(v >= 10) by (nonlinear_arith)
            requires
                v == a * 10 + d,
                d >= 0,
                a >= 1,
        ;
        assert(digit_chars(ds) =~= digit_chars(p).push(digit_char(ds.last())));
    }
}

proof fn lemma_first_nonzero(ds: Seq<u8>)
    ensures
        0 <= first_nonzero(ds) <= ds.len(),
        forall|i: int| 0 <= i < first_nonzero(ds) ==> ds[i] == 0,
        first_nonzero(ds) < ds.len() ==> ds[first_nonzero(ds)] != 0,
    decreases ds.len(),
{
    if ds.len() > 0 && ds[0] == 0 {
        lemma_first_nonzero(ds.drop_first());
        assert forall|i: int| 0 <= i < first_nonzero(ds) implies ds[i] == 0 by {
            if i > 0 {
                assert(ds[i] == ds.drop_first()[i - 1]);
            }
        }
    }
}

/// Splits `ds` at its first nonzero digit: the writing without leading zeros
/// has the same value.
proof fn lemma_strip_zeros(ds: Seq<u8>)
    requires
        all_digits(ds),
    ensures
        decimal_value(ds.subrange(first_nonzero(ds), ds.len() as int)) == decimal_value(ds),
{
    lemma_first_nonzero(ds);
    let f = first_nonzero(ds);
    let z = ds.subrange(0, f);
    let a = ds.subrange(f, ds.len() as int);
    assert(z + a =~= ds);
    lemma_decimal_zeros(z, a);
}

/// Any `k >= 1` digits are given back by padding the shortest writing of their
/// value to `k` characters.
proof fn lemma_pad_digits(ds: Seq<u8>)
    requires
        ds.len() >= 1,
        all_digits(ds),
    ensures
        pad_zeros(nat_string(decimal_value(ds) as nat), ds.len()) == digit_chars(ds),
{
    lemma_first_nonzero(ds);
    lemma_strip_zeros(ds);
    lemma_decimal_bounds(ds);
    let f = first_nonzero(ds);
    let a = ds.subrange(f, ds.len() as int);
    if f == ds.len() {
        lemma_decimal_zeros(ds, seq![]);
        assert(nat_string(0) =~= seq!['0']);
        assert(pad_zeros(seq!['0'], ds.len()) =~= digit_chars(ds));
    } else {
        assert(all_digits(a));
        lemma_nat_string_digits(a);
        assert(pad_zeros(digit_chars(a), ds.len()) =~= digit_chars(ds));
    }
}

/// Appends the characters of the digits `ds[from..to]` to `s`.
fn push_digits(s: &mut String, ds: &Vec<u8>, from: usize, to: usize)
    requires
        from <= to <= ds.len(),
        all_digits(ds@),
    ensures
        final(s)@ == old(s)@ + digit_chars(ds@.subrange(from as int, to as int)),
{
    let ghost start = s@;
    let ghost part = ds@.subrange(from as int, to as int);
    let mut i = from;
    while i < to
        invariant
            from <= i <= to <= ds.len(),
            all_digits(ds@),
            part == ds@.subrange(from as int, to as int),
            s@ == start + digit_chars(part).take(i - from),
        decreases to - i,
    {
        let d = ds[i];
        assert(d < 10);
        push_char(s, (d + 48) as char);
        i = i + 1;
        assert(part[i - 1 - from] == d);
        assert(digit_chars(part).take(i - from) =~= digit_chars(part).take(i - 1 - from).push(
            digit_char(d),
        ));
    }
    assert(digit_chars(part).take(i - from) =~= digit_chars(part));
}

/// An arbitrary-precision integer, held as a sign and its decimal digits.
#[derive(Debug)]
pub struct BigInt {
    negative: bool,
    digits: Vec<u8>,
}

impl View for BigInt {
    type V = int;

    closed spec fn view(&self) -> int {
        if self.negative {
            -decimal_value(self.digits@)
        } else {
            decimal_value(self.digits@)
        }
    }
}

impl BigInt {
    #[verifier::type_invariant]
    spec fn inv(self) -> bool {
        all_digits(self.digits@)
    }

    /// The integer with the given sign and decimal digits, most significant first.
    pub fn from_digits(negative: bool, digits: Vec<u8>) -> (r: BigInt)
        requires
            all_digits(digits@),
        ensures
            r@ == (if negative {
                -decimal_value(digits@)
            } else {
                decimal_value(digits@)
            }),
    {
        BigInt { negative, digits }
    }

    /// The index of the first nonzero digit.
    fn leading_zeros(&self) -> (r: usize)
        ensures
            r == first_nonzero(self.digits@),
    {
        proof {
            lemma_first_nonzero(self.digits@);
        }
        let mut i: usize = 0;
        while i < self.digits.len() && self.digits[i] == 0
            invariant
                i <= self.digits.len(),
                forall|j: int| 0 <= j < i ==> self.digits@[j] == 0,
                0 <= first_nonzero(self.digits@) <= self.digits@.len(),
                forall|j: int| 0 <= j < first_nonzero(self.digits@) ==> self.digits@[j] == 0,
                first_nonzero(self.digits@) < self.digits@.len() ==> self.digits@[first_nonzero(
                    self.digits@,
                )] != 0,
            decreases self.digits.len() - i,
        {
            i = i + 1;
        }
        i
    }

    /// The decimal writing of the integer.
    pub fn to_string(&self) -> (r: String)
        ensures
            r@ == int_string(self@),
    {
        proof {
            use_type_invariant(self);
            lemma_strip_zeros(self.digits@);
            lemma_first_nonzero(self.digits@);
        }
        let f = self.leading_zeros();
        let ghost a = self.digits@.subrange(f as int, self.digits@.len() as int);
        let mut s = String::new();
        if f == self.digits.len() {
            push_char(&mut s, '0');
            proof {
                assert(a.len() == 0);
                assert(nat_string(0) =~= seq!['0']);
            }
            return s;
        }
        proof {
            assert(all_digits(a));
            lemma_nat_string_digits(a);
            lemma_decimal_positive(a);
            lemma_pow10_pos((a.len() - 1) as nat);
        }
        if self.negative {
            push_char(&mut s, '-');
        }
        push_digits(&mut s, &self.digits, f, self.digits.len());
        s
    }
}

/// A decimal fixed-point number: `numer / 10^denom_log10`, where `denom_log10`
/// is the number of digits written after the point.
#[derive(Debug)]
pub struct Real {
    pub numer: BigInt,
    pub denom_log10: usize,
}

impl View for Real {
    type V = (int, nat);

    open spec fn view(&self) -> (int, nat) {
        (self.numer@, self.denom_log10 as nat)
    }
}

impl Real {
    /// The writing of the number with exactly `denom_log10` fractional digits.
    pub fn to_string(&self) -> (r: String)
        ensures
            r@ == real_string(self.numer@, self.denom_log10 as nat),
    {
        let ds = &self.numer.digits;
        let k = self.denom_log10;
        proof {
            use_type_invariant(&self.numer);
            lemma_strip_zeros(ds@);
            lemma_first_nonzero(ds@);
            lemma_pow10_pos(k as nat);
            lemma_decimal_bounds(ds@);
        }
        let f = self.numer.leading_zeros();
        let m = ds.len() - f;
        let ghost a = ds@.subrange(f as int, ds@.len() as int);
        let mut s = String::new();
        if self.numer.negative && m > 0 {
            proof {
                lemma_decimal_positive(a);
                lemma_pow10_pos((a.len() - 1) as nat);
            }
            push_char(&mut s, '-');
        }
        if m > k {
            push_digits(&mut s, ds, f, ds.len() - k);
            push_char(&mut s, '.');
            if k == 0 {
                push_char(&mut s, '0');
            } else {
                push_digits(&mut s, ds, ds.len() - k, ds.len());
            }
            proof {
                lemma_real_long(ds@, f as nat, k as nat);
            }
        } else {
            push_char(&mut s, '0');
            push_char(&mut s, '.');
            if k == 0 {
                push_char(&mut s, '0');
            } else {
                let mut z: usize = 0;
                let ghost mid = s@;
                while z < k - m
                    invariant
                        z <= k - m,
                        s@ == mid + Seq::new(z as nat, |j: int| '0'),
                    decreases k - m - z,
                {
                    push_char(&mut s, '0');
                    z = z + 1;
                    assert(Seq::new(z as nat, |j: int| '0') =~= Seq::new(
                        (z - 1) as nat,
                        |j: int| '0',
                    ).push('0'));
                }
                push_digits(&mut s, ds, f, ds.len());
            }
            proof {
                lemma_real_short(ds@, f as nat, k as nat);
            }
        }
        assert(s@ =~= real_string(self.numer@, k as nat));
        s
    }
}

/// The writing of a real whose significant digits outnumber its fractional digits.
proof fn lemma_real_long(ds: Seq<u8>, f: nat, k: nat)
    requires
        all_digits(ds),
        f == first_nonzero(ds),
        ds.len() - f > k,
    ensures
        ({
            let n = decimal_value(ds);
            &&& nat_string((n / pow10(k)) as nat) == digit_chars(ds.subrange(f as int, ds.len() - k))
            &&& pad_zeros(nat_string((n % pow10(k)) as nat), k) == (if k == 0 {
                seq!['0']
            } else {
                digit_chars(ds.subrange(ds.len() - k, ds.len() as int))
            })
        }),
{
    lemma_first_nonzero(ds);
    lemma_strip_zeros(ds);
    lemma_pow10_pos(k);
    let a = ds.subrange(f as int, ds.len() as int);
    let m = a.len();
    let ip = a.subrange(0, m - k);
    let fp = a.subrange(m - k, m as int);
    assert(ip =~= ds.subrange(f as int, ds.len() - k));
    assert(fp =~= ds.subrange(ds.len() - k, ds.len() as int));
    assert(ip + fp =~= a);
    assert(all_digits(ip));
    assert(all_digits(fp));
    lemma_decimal_concat(ip, fp);
    lemma_decimal_bounds(fp);
    lemma_decimal_bounds(ip);
    assert(ip[0] == ds[f as int]);
    lemma_nat_string_digits(ip);
    let p = pow10(k);
    let x = decimal_value(ip);
    let y = decimal_value(fp);
    assert((x * p + y) / p == x && (x * p + y) % p == y) by (nonlinear_arith)
        requires
            0 <= y < p,
            x >= 0,
    ;
    if k > 0 {
        lemma_pad_digits(fp);
    } else {
        assert(nat_string(0) =~= seq!['0']);
    }
}

/// The writing of a real with no more significant digits than fractional digits.
proof fn lemma_real_short(ds: Seq<u8>, f: nat, k: nat)
    requires
        all_digits(ds),
        f == first_nonzero(ds),
        ds.len() - f <= k,
    ensures
        ({
            let n = decimal_value(ds);
            &&& nat_string((n / pow10(k)) as nat) == seq!['0']
            &&& pad_zeros(nat_string((n % pow10(k)) as nat), k) == (if k == 0 {
                seq!['0']
            } else {
                Seq::new((k - (ds.len() - f)) as nat, |j: int| '0') + digit_chars(
                    ds.subrange(f as int, ds.len() as int),
                )
            })
        }),
{
    lemma_first_nonzero(ds);
    lemma_strip_zeros(ds);
    lemma_pow10_pos(k);
    let a = ds.subrange(f as int, ds.len() as int);
    let m = a.len();
    assert(all_digits(a));
    lemma_decimal_bounds(a);
    lemma_pow10_mono(m, k);
    let n = decimal_value(ds);
    let p = pow10(k);
    assert(n / p == 0 && n % p == n) by (nonlinear_arith)
        requires
            0 <= n < p,
    ;
    assert(nat_string(0) =~= seq!['0']);
    if k > 0 {
        let zs = Seq::new((k - m) as nat, |j: int| 0u8);
        let fp = zs + a;
        assert(all_digits(fp));
        lemma_decimal_zeros(zs, a);
        lemma_pad_digits(fp);
        assert(digit_chars(fp) =~= Seq::new((k - m) as nat, |j: int| '0') + digit_chars(a));
    } else {
        assert(m == 0);
        assert(a.len() == 0);
    }
}

proof fn lemma_trunc(negative: bool, ds: Seq<u8>, k: nat)
    requires
        all_digits(ds),
    ensures
        ({
            let v = if negative {
                -decimal_value(ds)
            } else {
                decimal_value(ds)
            };
            trunc_value(v, k) == (if negative {
                -(abs(v) as int / pow10(k))
            } else {
                abs(v) as int / pow10(k)
            })
        }),
{
    lemma_decimal_bounds(ds);
    lemma_pow10_pos(k);
    let p = pow10(k);
    assert(0int / p == 0) by (nonlinear_arith)
        requires
            p >= 1,
    ;
}

/// `numer / 10^k`, rounded toward zero.
pub open spec fn trunc_value(numer: int, k: nat) -> int {
    if numer < 0 {
        -((-numer) / pow10(k))
    } else {
        numer / pow10(k)
    }
}

proof fn lemma_decimal_prefix_le(a: Seq<u8>, b: Seq<u8>)
    requires
        all_digits(a),
        all_digits(b),
    ensures
        decimal_value(a) <= decimal_value(a + b),
{
    lemma_decimal_concat(a, b);
    lemma_decimal_bounds(a);
    lemma_decimal_bounds(b);
    lemma_pow10_pos(b.len());
    let x = decimal_value(a);
    let p = pow10(b.len());
    assert(x <= x * p) by (nonlinear_arith)
        requires
            x >= 0,
            p >= 1,
    ;
}

/// The magnitude of `numer / 10^k` is the value of all digits but the last `k`.
proof fn lemma_int_part(ds: Seq<u8>, k: nat)
    requires
        all_digits(ds),
    ensures
        decimal_value(ds) / pow10(k) == (if ds.len() > k {
            decimal_value(ds.subrange(0, ds.len() - k))
        } else {
            0
        }),
{
    lemma_pow10_pos(k);
    lemma_decimal_bounds(ds);
    let n = decimal_value(ds);
    let p = pow10(k);
    if ds.len() > k {
        let ip = ds.subrange(0, ds.len() - k);
        let fp = ds.subrange(ds.len() - k, ds.len() as int);
        assert(ip + fp =~= ds);
        assert(all_digits(ip));
        assert(all_digits(fp));
        lemma_decimal_concat(ip, fp);
        lemma_decimal_bounds(fp);
        lemma_decimal_bounds(ip);
        let x = decimal_value(ip);
        let y = decimal_value(fp);
        assert((x * p + y) / p == x) by (nonlinear_arith)
            requires
                0 <= y < p,
                x >= 0,
        ;
    } else {
        lemma_pow10_mono(ds.len(), k);
        assert(n / p == 0) by (nonlinear_arith)
            requires
                0 <= n < p,
        ;
    }
}

impl Real {
    /// The magnitude of the integer part, when it fits in a `u64`.
    fn int_magnitude(&self) -> (r: Option<u64>)
        ensures
            ({
                let m = abs(self.numer@) as int / pow10(self.denom_log10 as nat);
                r == (if m <= u64::MAX {
                    Some(m as u64)
                } else {
                    None::<u64>
                })
            }),
    {
        let ds = &self.numer.digits;
        let k = self.denom_log10;
        proof {
            use_type_invariant(&self.numer);
            lemma_int_part(ds@, k as nat);
            lemma_decimal_bounds(ds@);
        }
        assert(abs(self.numer@) == decimal_value(ds@));
        let ghost m = abs(self.numer@) as int / pow10(k as nat);
        if ds.len() <= k {
            assert(m == 0);
            return Some(0);
        }
        let end = ds.len() - k;
        let ghost whole = ds@.subrange(0, end as int);
        let mut acc: u64 = 0;
        let mut i: usize = 0;
        assert(ds@.subrange(0, 0) =~= seq![]);
        while i < end
            invariant
                i <= end <= ds.len(),
                all_digits(ds@),
                whole == ds@.subrange(0, end as int),
                acc == decimal_value(ds@.subrange(0, i as int)),
                m == decimal_value(whole),
                m == abs(self.numer@) as int / pow10(self.denom_log10 as nat),
            decreases end - i,
        {
            let d = ds[i];
            assert(d < 10);
            let ghost next = ds@.subrange(0, i + 1);
            assert(next.drop_last() =~= ds@.subrange(0, i as int));
            assert(next.last() == d);
            match acc.checked_mul(10) {
                Some(t) => match t.checked_add(d as u64) {
                    Some(v) => {
                        acc = v;
                    },
                    None => {
                        proof {
                            assert(all_digits(next));
                            assert(all_digits(ds@.subrange(i + 1, end as int)));
                            assert(next + ds@.subrange(i + 1, end as int) =~= whole);
                            lemma_decimal_prefix_le(next, ds@.subrange(i + 1, end as int));
                        }
                        return None;
                    },
                },
                None => {
                    proof {
                        assert(all_digits(next));
                        assert(all_digits(ds@.subrange(i + 1, end as int)));
                        assert(next + ds@.subrange(i + 1, end as int) =~= whole);
                        lemma_decimal_prefix_le(next, ds@.subrange(i + 1, end as int));
                    }
                    return None;
                },
            }
            i = i + 1;
        }
        assert(ds@.subrange(0, i as int) =~= whole);
        Some(acc)
    }

    /// The number rounded toward zero, when it fits in an `i64`.
    pub fn to_i64(&self) -> (r: Option<i64>)
        ensures
            ({
                let t = trunc_value(self.numer@, self.denom_log10 as nat);
                r == (if i64::MIN <= t <= i64::MAX {
                    Some(t as i64)
                } else {
                    None::<i64>
                })
            }),
    {
        proof {
            use_type_invariant(&self.numer);
            lemma_trunc(self.numer.negative, self.numer.digits@, self.denom_log10 as nat);
            assert(self.numer@ == (if self.numer.negative {
                -decimal_value(self.numer.digits@)
            } else {
                decimal_value(self.numer.digits@)
            }));
            lemma_pow10_pos(self.denom_log10 as nat);
            let a = abs(self.numer@) as int;
            let p = pow10(self.denom_log10 as nat);
            assert(a / p >= 0) by (nonlinear_arith)
                requires
                    a >= 0,
                    p >= 1,
            ;
        }
        let m = self.int_magnitude();
        match m {
            None => None,
            Some(m) => {
                if self.numer.negative {
                    if m <= 9223372036854775807 {
                        Some(-(m as i64))
                    } else if m == 9223372036854775808 {
                        Some(i64::MIN)
                    } else {
                        None
                    }
                } else if m <= 9223372036854775807 {
                    Some(m as i64)
                } else {
                    None
                }
            },
        }
    }

    /// The number rounded toward zero, when it fits in a `u64`.
    pub fn to_u64(&self) -> (r: Option<u64>)
        ensures
            ({
                let t = trunc_value(self.numer@, self.denom_log10 as nat);
                r == (if 0 <= t <= u64::MAX {
                    Some(t as u64)
                } else {
                    None::<u64>
                })
            }),
    {
        proof {
            use_type_invariant(&self.numer);
            lemma_trunc(self.numer.negative, self.numer.digits@, self.denom_log10 as nat);
            assert(self.numer@ == (if self.numer.negative {
                -decimal_value(self.numer.digits@)
            } else {
                decimal_value(self.numer.digits@)
            }));
            lemma_pow10_pos(self.denom_log10 as nat);
            let a = abs(self.numer@) as int;
            let p = pow10(self.denom_log10 as nat);
            assert(a / p >= 0) by (nonlinear_arith)
                requires
                    a >= 0,
                    p >= 1,
            ;
        }
        let m = self.int_magnitude();
        match m {
            None => None,
            Some(m) => {
                if self.numer.negative && m > 0 {
                    None
                } else {
                    Some(m)
                }
            },
        }
    }
}

proof fn lemma_pow10_mono(a: nat, b: nat)
    requires
        a <= b,
    ensures
        pow10(a) <= pow10(b),
    decreases b,
{
    if a < b {
        lemma_pow10_mono(a, (b - 1) as nat);
        lemma_pow10_pos((b - 1) as nat);
    }
}

impl BigInt {
    /// A copy of the integer.
    pub fn duplicate(&self) -> (r: BigInt)
        ensures
            r@ == self@,
    {
        proof {
            use_type_invariant(self);
        }
        let digits = self.digits.clone();
        assert(digits@ =~= self.digits@);
        BigInt { negative: self.negative, digits }
    }
}

/// A literal or an identifier.
#[derive(Debug)]
pub enum Primitive {
    Integer(BigInt),
    Bool(bool),
    Real(Real),
    Ident(String),
}

/// What a primitive denotes: integers by value, reals as numerator and count
/// of fractional digits, identifiers by their characters.
pub enum PrimitiveV {
    Integer(int),
    Bool(bool),
    Real(int, nat),
    Ident(Seq<char>),
}

impl View for Primitive {
    type V = PrimitiveV;

    open spec fn view(&self) -> PrimitiveV {
        match self {
            Primitive::Integer(i) => PrimitiveV::Integer(i@),
            Primitive::Bool(b) => PrimitiveV::Bool(*b),
            Primitive::Real(r) => PrimitiveV::Real(r.numer@, r.denom_log10 as nat),
            Primitive::Ident(s) => PrimitiveV::Ident(s@),
        }
    }
}

/// How a primitive is written back as text.
pub open spec fn primitive_string(p: PrimitiveV) -> Seq<char> {
    match p {
        PrimitiveV::Integer(v) => int_string(v),
        PrimitiveV::Bool(b) => if b {
            seq!['#', 't']
        } else {
            seq!['#', 'f']
        },
        PrimitiveV::Real(n, k) => real_string(n, k),
        PrimitiveV::Ident(s) => s,
    }
}

impl Primitive {
    /// A copy of the primitive.
    pub fn duplicate(&self) -> (r: Primitive)
        ensures
            r@ == self@,
    {
        match self {
            Primitive::Integer(i) => Primitive::Integer(i.duplicate()),
            Primitive::Bool(b) => Primitive::Bool(*b),
            Primitive::Real(r) => Primitive::Real(
                Real { numer: r.numer.duplicate(), denom_log10: r.denom_log10 },
            ),
            Primitive::Ident(s) => Primitive::Ident(s.clone()),
        }
    }

    /// How the primitive is written.
    pub fn to_string(&self) -> (r: String)
        ensures
            r@ == primitive_string(self@),
    {
        match self {
            Primitive::Integer(i) => i.to_string(),
            Primitive::Bool(b) => {
                let mut s = String::new();
                push_char(&mut s, '#');
                push_char(&mut s, if *b { 't' } else { 'f' });
                assert(s@ =~= primitive_string(self@));
                s
            },
            Primitive::Real(r) => r.to_string(),
            Primitive::Ident(s) => s.clone(),
        }
    }
}

/// A lexical token.
#[derive(Debug)]
pub enum Token {
    Primitive(Primitive),
    Keyword(Keyword),
}

/// What a token denotes.
pub enum TokenV {
    Primitive(PrimitiveV),
    Keyword(Keyword),
}

impl View for Token {
    type V = TokenV;

    open spec fn view(&self) -> TokenV {
        match self {
            Token::Primitive(p) => TokenV::Primitive(p@),
            Token::Keyword(k) => TokenV::Keyword(*k),
        }
    }
}

/// How a token is written back as text.
pub open spec fn token_string(t: TokenV) -> Seq<char> {
    match t {
        TokenV::Primitive(p) => primitive_string(p),
        TokenV::Keyword(k) => k.spec_text(),
    }
}

impl Token {
    /// A copy of the token.
    pub fn duplicate(&self) -> (r: Token)
        ensures
            r@ == self@,
    {
        match self {
            Token::Primitive(p) => Token::Primitive(p.duplicate()),
            Token::Keyword(k) => Token::Keyword(*k),
        }
    }

    /// How the token is written.
    pub fn to_string(&self) -> (r: String)
        ensures
            r@ == token_string(self@),
    {
        match self {
            Token::Primitive(p) => p.to_string(),
            Token::Keyword(k) => {
                let mut s = String::new();
                push_str(&mut s, k.text());
                assert(s@ =~= k.spec_text());
                s
            },
        }
    }
}

} // verus!
