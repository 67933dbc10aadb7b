//! Base58 over the Bitcoin alphabet, with leading zero bytes kept as
//! leading `'1'` symbols.
use vstd::prelude::*;

use crate::primitives::push_char;
use vstd::string::*;

verus! {

/// `b` raised to the power `e`.
pub open spec fn pow_nat(b: nat, e: nat) -> nat
    decreases e,
{
    if e == 0 {
        1
    } else {
        b * pow_nat(b, (e - 1) as nat)
    }
}

/// Value of a digit string read most significant digit first.
pub open spec fn be_value(s: Seq<u8>, base: nat) -> nat
    decreases s.len(),
{
    if s.len() == 0 {
        0
    } else {
        be_value(s.drop_last(), base) * base + s.last() as nat
    }
}

/// Value of a digit string read least significant digit first.
pub open spec fn le_value(s: Seq<u8>, base: nat) -> nat
    decreases s.len(),
{
    if s.len() == 0 {
        0
    } else {
        s[0] as nat + base * le_value(s.skip(1), base)
    }
}

/// The digits of `n` in `base`, most significant first, without leading
/// zero digits: empty for zero.
pub open spec fn digits_of(n: nat, base: nat) -> Seq<u8>
    decreases n,
    via digits_of_decreases
{
    if n == 0 || base < 2 {
        Seq::empty()
    } else {
        digits_of(n / base, base).push((n % base) as u8)
    }
}

#[via_fn]
proof fn digits_of_decreases(n: nat, base: nat) {
    if !(n == 0 || base < 2) {
        assert(n / base < n) by (nonlinear_arith)
            requires
                n > 0,
                base >= 2,
        ;
    }
}

/// Every element of `s` is below `base`.
pub open spec fn digits_below(s: Seq<u8>, base: nat) -> bool {
    forall|i: int| 0 <= i < s.len() ==> s[i] < base
}

proof fn lemma_step_arith(p: nat, q: nat, t: nat, carry: nat, d: nat, rest: nat, base: nat, mul: nat)
    requires
        base >= 2,
        t == carry + d * mul,
    ensures
        p + q * (t % base) + (base * q) * (t / base + mul * rest) == p + q * (carry + mul * (d
            + base * rest)),
{
    let r = t % base;
    let k = t / base;
    assert(t == base * k + r) by (nonlinear_arith)
        requires
            base >= 2,
            r == t % base,
            k == t / base,
    ;
    assert(q * r + (base * q) * (k + mul * rest) == q * (carry + mul * (d + base * rest)))
        by (nonlinear_arith)
        requires
            t == base * k + r,
            t == carry + d * mul,
    ;
}

proof fn lemma_le_push(s: Seq<u8>, x: u8, base: nat)
    ensures
        le_value(s.push(x), base) == le_value(s, base) + pow_nat(base, s.len()) * x,
    decreases s.len(),
{
    if s.len() == 0 {
        assert(s.push(x).skip(1) =~= Seq::<u8>::empty());
        assert(le_value(s.push(x).skip(1), base) == 0);
        assert(base * 0 == 0);
        assert(pow_nat(base, 0) == 1);
    } else {
        assert(s.push(x).skip(1) =~= s.skip(1).push(x));
        lemma_le_push(s.skip(1), x, base);
        let a = le_value(s.skip(1), base);
        let q = pow_nat(base, (s.len() - 1) as nat);
        assert(pow_nat(base, s.len()) == base * q);
        assert(le_value(s.push(x), base) == s[0] as nat + base * (a + q * x));
        assert(base * (a + q * x) == base * a + (base * q) * x) by (nonlinear_arith);
    }
}

proof fn lemma_digits_of(n: nat, base: nat)
    requires
        2 <= base <= 256,
    ensures
        be_value(digits_of(n, base), base) == n,
        digits_below(digits_of(n, base), base),
        n == 0 <==> digits_of(n, base).len() == 0,
        n > 0 ==> digits_of(n, base)[0] != 0,
    decreases n,
{
    if n > 0 {
        let q = n / base;
        let r = n % base;
        assert(q < n && r < base && n == q * base + r) by (nonlinear_arith)
            requires
                n > 0,
                base >= 2,
                q == n / base,
                r == n % base,
        ;
        lemma_digits_of(q, base);
        let d = digits_of(n, base);
        assert(d.drop_last() =~= digits_of(q, base));
        if q == 0 {
            assert(q * base == 0) by (nonlinear_arith)
                requires
                    q == 0,
            ;
            assert(r > 0);
        }
    }
}

proof fn lemma_digits_of_value(s: Seq<u8>, base: nat)
    requires
        2 <= base <= 256,
        digits_below(s, base),
        s.len() > 0 ==> s[0] != 0,
    ensures
        digits_of(be_value(s, base), base) == s,
    decreases s.len(),
{
    if s.len() > 0 {
        let t = s.drop_last();
        lemma_digits_of_value(t, base);
        let v = be_value(t, base);
        let x = s.last() as nat;
        if t.len() == 0 {
            assert(v == 0);
            assert(x > 0);
        } else {
            lemma_digits_of(v, base);
        }
        vstd::arithmetic::div_mod::lemma_fundamental_div_mod_converse(
            (v * base + x) as int,
            base as int,
            v as int,
            x as int,
        );
        assert(v * base + x > 0) by (nonlinear_arith)
            requires
                v > 0 || x > 0,
                base >= 2,
        ;
        assert(s =~= t.push(s.last()));
    }
}

proof fn lemma_be_skip_zero(s: Seq<u8>, base: nat)
    requires
        s.len() > 0,
        s[0] == 0,
    ensures
        be_value(s, base) == be_value(s.skip(1), base),
    decreases s.len(),
{
    if s.len() == 1 {
        assert(s.drop_last() =~= Seq::<u8>::empty());
        assert(s.skip(1) =~= Seq::<u8>::empty());
        assert(0nat * base == 0) by (nonlinear_arith);
    } else {
        lemma_be_skip_zero(s.drop_last(), base);
        assert(s.skip(1).drop_last() =~= s.drop_last().skip(1));
    }
}

/// Leading zero digits do not change the value of a most-significant-first
/// digit string.
proof fn lemma_be_skip_zeros(s: Seq<u8>, k: int, base: nat)
    requires
        0 <= k <= s.len(),
        forall|i: int| 0 <= i < k ==> s[i] == 0,
    ensures
        be_value(s, base) == be_value(s.skip(k), base),
    decreases k,
{
    if k > 0 {
        lemma_be_skip_zero(s, base);
        lemma_be_skip_zeros(s.skip(1), k - 1, base);
        assert(s.skip(1).skip(k - 1) =~= s.skip(k));
    } else {
        assert(s.skip(0) =~= s);
    }
}

/// Number of zero elements at the front of `s`.
pub open spec fn leading_zeros(s: Seq<u8>) -> nat
    decreases s.len(),
{
    if s.len() == 0 || s[0] != 0 {
        0
    } else {
        1 + leading_zeros(s.skip(1))
    }
}

proof fn lemma_leading_zeros(s: Seq<u8>, k: int)
    requires
        0 <= k <= s.len(),
        forall|i: int| 0 <= i < k ==> s[i] == 0,
        k == s.len() || s[k] != 0,
    ensures
        leading_zeros(s) == k,
    decreases k,
{
    if k > 0 {
        lemma_leading_zeros(s.skip(1), k - 1);
    }
}

proof fn lemma_leading_zeros_shape(s: Seq<u8>)
    ensures
        leading_zeros(s) <= s.len(),
        forall|i: int| 0 <= i < leading_zeros(s) ==> s[i] == 0,
        leading_zeros(s) == s.len() || s[leading_zeros(s) as int] != 0,
    decreases s.len(),
{
    if s.len() > 0 && s[0] == 0 {
        lemma_leading_zeros_shape(s.skip(1));
        assert forall|i: int| 0 <= i < leading_zeros(s) implies s[i] == 0 by {
            if i > 0 {
                assert(s[i] == s.skip(1)[i - 1]);
            }
        }
    }
}

proof fn lemma_le_trailing_zeros(s: Seq<u8>, k: int, base: nat)
    requires
        0 <= k <= s.len(),
        forall|i: int| k <= i < s.len() ==> s[i] == 0,
    ensures
        le_value(s, base) == le_value(s.take(k), base),
    decreases s.len() - k,
{
    if k < s.len() {
        let t = s.drop_last();
        lemma_le_trailing_zeros(t, k, base);
        lemma_le_push(t, 0, base);
        assert(s =~= t.push(0));
        assert(t.take(k) =~= s.take(k));
        assert(pow_nat(base, t.len()) * 0 == 0) by (nonlinear_arith);
    } else {
        assert(s.take(k) =~= s);
    }
}

proof fn lemma_be_reverse(s: Seq<u8>, base: nat)
    ensures
        be_value(s.reverse(), base) == le_value(s, base),
    decreases s.len(),
{
    if s.len() > 0 {
        lemma_be_reverse(s.skip(1), base);
        assert(s.reverse().drop_last() =~= s.skip(1).reverse());
        let a = le_value(s.skip(1), base);
        assert(a * base == base * a) by (nonlinear_arith);
    }
}

/// Multiplies the little-endian number held in `digits` by `mul` and adds
/// `carry_in`, in place.
fn mul_add(digits: &mut Vec<u8>, base: u32, mul: u32, carry_in: u32)
    requires
        2 <= base <= 256,
        1 <= mul <= 256,
        carry_in < mul,
        digits_below(old(digits)@, base as nat),
    ensures
        digits_below(final(digits)@, base as nat),
        le_value(final(digits)@, base as nat) == le_value(old(digits)@, base as nat) * mul
            + carry_in,
{
    let ghost orig = digits@;
    let ghost target = le_value(orig, base as nat) * mul + carry_in;
    let mut carry: u32 = carry_in;
    let len: usize = digits.len();
    let mut j: usize = 0;
    assert(digits@.take(0) =~= Seq::<u8>::empty());
    assert(orig.skip(0) =~= orig);
    assert(pow_nat(base as nat, 0) == 1);
    assert(le_value(orig, base as nat) * mul == mul * le_value(orig, base as nat))
        by (nonlinear_arith);
    while j < len
        invariant
            2 <= base <= 256,
            1 <= mul <= 256,
            len == digits.len() == orig.len(),
            j <= len,
            carry < mul,
            digits_below(digits@, base as nat),
            forall|i: int| j <= i < len ==> digits[i] == orig[i],
            le_value(digits@.take(j as int), base as nat) + pow_nat(base as nat, j as nat) * (
            carry + mul * le_value(orig.skip(j as int), base as nat)) == target,
        decreases len - j,
    {
        let d: u32 = digits[j] as u32;
        assert(d * mul < mul * base) by (nonlinear_arith)
            requires
                d < base,
                mul >= 1,
        ;
        assert(carry + d * mul < mul * base) by (nonlinear_arith)
            requires
                carry < mul,
                d < base,
        ;
        assert(mul * base <= 65536) by (nonlinear_arith)
            requires
                mul <= 256,
                base <= 256,
        ;
        let t: u32 = carry + d * mul;
        let ghost before = digits@;
        digits.set(j, (t % base) as u8);
        carry = t / base;
        proof {
            assert(t / base < mul) by (nonlinear_arith)
                requires
                    t < mul * base,
                    base >= 2,
            ;
            assert(digits@.take(j + 1) =~= before.take(j as int).push((t % base) as u8));
            lemma_le_push(before.take(j as int), (t % base) as u8, base as nat);
            assert(orig.skip(j as int).skip(1) =~= orig.skip(j + 1));
            lemma_step_arith(
                le_value(before.take(j as int), base as nat),
                pow_nat(base as nat, j as nat),
                t as nat,
                (t - d * mul) as nat,
                d as nat,
                le_value(orig.skip(j + 1), base as nat),
                base as nat,
                mul as nat,
            );
        }
        j += 1;
    }
    assert(digits@.take(len as int) =~= digits@);
    assert(orig.skip(len as int) =~= Seq::<u8>::empty());
    assert(le_value(orig.skip(len as int), base as nat) == 0);
    assert(mul * 0 == 0);
    while carry > 0
        invariant
            2 <= base <= 256,
            carry < mul <= 256,
            digits_below(digits@, base as nat),
            le_value(digits@, base as nat) + pow_nat(base as nat, digits.len() as nat) * carry
                == target,
        decreases carry,
    {
        let ghost before = digits@;
        digits.push((carry % base) as u8);
        proof {
            assert(carry / base < carry) by (nonlinear_arith)
                requires
                    carry > 0,
                    base >= 2,
            ;
            assert(pow_nat(base as nat, before.len() + 1) == base * pow_nat(
                base as nat,
                before.len(),
            ));
            lemma_le_push(before, (carry % base) as u8, base as nat);
            lemma_step_arith(
                le_value(before, base as nat),
                pow_nat(base as nat, before.len()),
                carry as nat,
                carry as nat,
                0,
                0,
                base as nat,
                mul as nat,
            );
        }
        carry = carry / base;
    }
}

/// Rewrites a most-significant-first digit string from one base into
/// another, without leading zero digits.
fn convert(src: &[u8], from: u32, to: u32) -> (r: Vec<u8>)
    requires
        2 <= from <= 256,
        2 <= to <= 256,
        digits_below(src@, from as nat),
    ensures
        r@ == digits_of(be_value(src@, from as nat), to as nat),
{
    let mut acc: Vec<u8> = Vec::new();
    let mut i: usize = 0;
    assert(src@.take(0) =~= Seq::<u8>::empty());
    while i < src.len()
        invariant
            2 <= from <= 256,
            2 <= to <= 256,
            i <= src.len(),
            digits_below(src@, from as nat),
            digits_below(acc@, to as nat),
            le_value(acc@, to as nat) == be_value(src@.take(i as int), from as nat),
        decreases src.len() - i,
    {
        mul_add(&mut acc, to, from, src[i] as u32);
        assert(src@.take(i + 1).drop_last() =~= src@.take(i as int));
        i += 1;
    }
    assert(src@.take(src.len() as int) =~= src@);
    let mut k: usize = acc.len();
    while k > 0 && acc[k - 1] == 0
        invariant
            k <= acc.len(),
            forall|j: int| k <= j < acc.len() ==> acc[j] == 0,
        decreases k,
    {
        k -= 1;
    }
    let ghost trimmed = acc@.take(k as int);
    let ghost rev = trimmed.reverse();
    proof {
        lemma_le_trailing_zeros(acc@, k as int, to as nat);
        lemma_be_reverse(trimmed, to as nat);
        lemma_digits_of_value(rev, to as nat);
    }
    let mut r: Vec<u8> = Vec::new();
    let mut m: usize = 0;
    while m < k
        invariant
            k <= acc.len(),
            m <= k,
            rev.len() == k,
            forall|j: int| 0 <= j < k ==> rev[j] == acc[k - 1 - j],
            r@ == rev.take(m as int),
        decreases k - m,
    {
        r.push(acc[k - 1 - m]);
        assert(rev.take(m + 1) =~= rev.take(m as int).push(rev[m as int]));
        m += 1;
    }
    assert(rev.take(k as int) =~= rev);
    r
}

/// Counts the zero elements at the front of `s`.
fn count_leading_zeros(s: &[u8]) -> (r: usize)
    ensures
        r == leading_zeros(s@),
{
    let mut k: usize = 0;
    while k < s.len() && s[k] == 0
        invariant
            k <= s.len(),
            forall|i: int| 0 <= i < k ==> s[i] == 0,
        decreases s.len() - k,
    {
        k += 1;
    }
    proof {
        lemma_leading_zeros(s@, k as int);
    }
    k
}

/// Code point of the symbol for digit `d`: the alphabet
/// `123456789ABCDEFGHJKLMNPQRSTUVWXYZabcdefghijkmnopqrstuvwxyz`, which
/// leaves out `0`, `O`, `I` and `l`.
pub open spec fn symbol_code(d: u8) -> u8 {
    if d < 9 {
        (49 + d) as u8
    } else if d < 17 {
        (56 + d) as u8
    } else if d < 22 {
        (57 + d) as u8
    } else if d < 33 {
        (58 + d) as u8
    } else if d < 44 {
        (64 + d) as u8
    } else {
        (65 + d) as u8
    }
}

/// The symbol for digit `d < 58`.
pub open spec fn symbol(d: u8) -> char {
    symbol_code(d) as char
}

/// Whether `c` is one of the 58 symbols.
pub open spec fn is_symbol(c: char) -> bool {
    let v = c as u32;
    (49 <= v <= 57) || (65 <= v <= 72) || (74 <= v <= 78) || (80 <= v <= 90) || (97 <= v <= 107)
        || (109 <= v <= 122)
}

/// The digit of a symbol.
pub open spec fn symbol_value(c: char) -> u8 {
    let v = c as u32;
    if v <= 57 {
        (v - 49) as u8
    } else if v <= 72 {
        (v - 56) as u8
    } else if v <= 78 {
        (v - 57) as u8
    } else if v <= 90 {
        (v - 58) as u8
    } else if v <= 107 {
        (v - 64) as u8
    } else {
        (v - 65) as u8
    }
}

proof fn lemma_symbol(d: u8)
    requires
        d < 58,
    ensures
        is_symbol(symbol(d)),
        symbol_value(symbol(d)) == d,
{
}

fn symbol_of(d: u8) -> (c: char)
    requires
        d < 58,
    ensures
        c == symbol(d),
{
    let code: u8 = if d < 9 {
        49 + d
    } else if d < 17 {
        56 + d
    } else if d < 22 {
        57 + d
    } else if d < 33 {
        58 + d
    } else if d < 44 {
        64 + d
    } else {
        65 + d
    };
    code as char
}

/// Reads a symbol as its digit; `None` for a character outside the alphabet.
fn digit_of_symbol(c: char) -> (r: Option<u8>)
    ensures
        r is Some <==> is_symbol(c),
        r matches Some(d) ==> d == symbol_value(c) && d < 58,
{
    let v: u32 = c as u32;
    if 49 <= v && v <= 57 {
        Some((v - 49) as u8)
    } else if 65 <= v && v <= 72 {
        Some((v - 56) as u8)
    } else if 74 <= v && v <= 78 {
        Some((v - 57) as u8)
    } else if 80 <= v && v <= 90 {
        Some((v - 58) as u8)
    } else if 97 <= v && v <= 107 {
        Some((v - 64) as u8)
    } else if 109 <= v && v <= 122 {
        Some((v - 65) as u8)
    } else {
        None
    }
}

/// The base58 text of a byte string: one `'1'` for each leading zero byte,
/// then the digits of the whole string read as a big-endian number, most
/// significant first. The empty string encodes to a single `'1'`.
pub open spec fn encode_spec(b: Seq<u8>) -> Seq<char> {
    if b.len() == 0 {
        seq!['1']
    } else {
        Seq::new(leading_zeros(b), |i: int| '1') + digits_of(be_value(b, 256), 58).map_values(
            |d: u8| symbol(d),
        )
    }
}

/// The bytes that base58 text stands for: one zero byte for each leading
/// `'1'`, then the bytes of the number that the symbols spell; `None` when
/// a character is outside the alphabet.
pub open spec fn decode_spec(s: Seq<char>) -> Option<Seq<u8>> {
    if forall|i: int| 0 <= i < s.len() ==> is_symbol(#[trigger] s[i]) {
        let ds = s.map_values(|c: char| symbol_value(c));
        Some(Seq::new(leading_zeros(ds), |i: int| 0u8) + digits_of(be_value(ds, 58), 256))
    } else {
        None
    }
}

/// Why base58 text could not be read.
#[derive(Debug, Clone, Copy, PartialEq, Eq, Structural)]
pub enum Base58Error {
    /// A character outside the base58 alphabet.
    InvalidCharacter,
}

/// Encodes bytes as base58 text.
pub fn base58_encode(data: &[u8]) -> (r: String)
    ensures
        r@ == encode_spec(data@),
{
    let mut out = String::new();
    if data.len() == 0 {
        push_char(&mut out, '1');
        assert(out@ =~= seq!['1']);
        return out;
    }
    let zeros = count_leading_zeros(data);
    let digits = convert(data, 256, 58);
    proof {
        lemma_digits_of(be_value(data@, 256), 58);
        lemma_leading_zeros_shape(data@);
    }
    let mut i: usize = 0;
    while i < zeros
        invariant
            i <= zeros,
            out@ =~= Seq::new(i as nat, |k: int| '1'),
        decreases zeros - i,
    {
        push_char(&mut out, '1');
        i += 1;
    }
    let ghost ones = out@;
    let mut j: usize = 0;
    while j < digits.len()
        invariant
            j <= digits.len(),
            digits_below(digits@, 58),
            out@ =~= ones + digits@.take(j as int).map_values(|d: u8| symbol(d)),
        decreases digits.len() - j,
    {
        let c = symbol_of(digits[j]);
        push_char(&mut out, c);
        assert(digits@.take(j + 1) =~= digits@.take(j as int).push(digits[j as int]));
        j += 1;
    }
    assert(digits@.take(digits.len() as int) =~= digits@);
    out
}

/// Decodes base58 text into bytes.
pub fn base58_decode(s: &str) -> (r: Result<Vec<u8>, Base58Error>)
    ensures
        match r {
            Ok(v) => decode_spec(s@) == Some(v@),
            Err(e) => decode_spec(s@) is None && e == Base58Error::InvalidCharacter,
        },
{
    let n = s.unicode_len();
    let mut ds: Vec<u8> = Vec::new();
    let mut i: usize = 0;
    while i < n
        invariant
            n == s@.len(),
            i <= n,
            forall|k: int| 0 <= k < i ==> is_symbol(#[trigger] s@[k]),
            ds@ == s@.take(i as int).map_values(|c: char| symbol_value(c)),
            digits_below(ds@, 58),
        decreases n - i,
    {
        let c = s.get_char(i);
        match digit_of_symbol(c) {
            Some(d) => {
                let ghost before = ds@;
                ds.push(d);
                assert(ds@ =~= before.push(d));
                assert(s@.take(i + 1).map_values(|c: char| symbol_value(c)) =~= s@.take(
                    i as int,
                ).map_values(|c: char| symbol_value(c)).push(symbol_value(s@[i as int])));
            },
            None => {
                return Err(Base58Error::InvalidCharacter);
            },
        }
        i += 1;
    }
    assert(s@.take(n as int) =~= s@);
    assert(ds@ =~= s@.map_values(|c: char| symbol_value(c)));
    let zeros = count_leading_zeros(ds.as_slice());
    let bytes = convert(ds.as_slice(), 58, 256);
    let mut out: Vec<u8> = Vec::new();
    let mut k: usize = 0;
    while k < zeros
        invariant
            k <= zeros,
            out@ =~= Seq::new(k as nat, |t: int| 0u8),
        decreases zeros - k,
    {
        out.push(0);
        k += 1;
    }
    let ghost front = out@;
    let mut j: usize = 0;
    while j < bytes.len()
        invariant
            j <= bytes.len(),
            out@ =~= front + bytes@.take(j as int),
        decreases bytes.len() - j,
    {
        out.push(bytes[j]);
        j += 1;
    }
    assert(bytes@.take(bytes.len() as int) =~= bytes@);
    Ok(out)
}

/// Decoding the encoding of a non-empty byte string gives the bytes back.
/// (The empty string encodes to `"1"`, which decodes to one zero byte.)
pub proof fn lemma_decode_encode(b: Seq<u8>)
    requires
        b.len() > 0,
    ensures
        decode_spec(encode_spec(b)) == Some(b),
{
    let z = leading_zeros(b);
    let v = be_value(b, 256);
    let d = digits_of(v, 58);
    lemma_digits_of(v, 58);
    lemma_leading_zeros_shape(b);
    let s = encode_spec(b);
    assert forall|i: int| 0 <= i < s.len() implies is_symbol(#[trigger] s[i]) by {
        if i >= z {
            lemma_symbol(d[i - z]);
        }
    }
    let ds = s.map_values(|c: char| symbol_value(c));
    assert forall|i: int| z <= i < s.len() implies ds[i] == d[i - z] by {
        lemma_symbol(d[i - z]);
    }
    assert(ds =~= Seq::new(z, |i: int| 0u8) + d);
    lemma_leading_zeros(ds, z as int);
    lemma_be_skip_zeros(ds, z as int, 58);
    assert(ds.skip(z as int) =~= d);
    lemma_be_skip_zeros(b, z as int, 256);
    lemma_digits_of_value(b.skip(z as int), 256);
    assert(Seq::new(z, |i: int| 0u8) + b.skip(z as int) =~= b);
}

/// Every character of an encoding is a base58 symbol, and an input that
/// starts with a zero byte gives text that starts with `'1'`.
pub proof fn lemma_encode_shape(b: Seq<u8>)
    ensures
        encode_spec(b).len() > 0,
        forall|i: int| 0 <= i < encode_spec(b).len() ==> is_symbol(#[trigger] encode_spec(b)[i]),
        b.len() > 0 && b[0] == 0 ==> encode_spec(b)[0] == '1',
{
    if b.len() > 0 {
        let z = leading_zeros(b);
        let d = digits_of(be_value(b, 256), 58);
        lemma_digits_of(be_value(b, 256), 58);
        lemma_leading_zeros_shape(b);
        let s = encode_spec(b);
        assert forall|i: int| 0 <= i < s.len() implies is_symbol(#[trigger] s[i]) by {
            if i >= z {
                lemma_symbol(d[i - z]);
            }
        }
        if b[0] == 0 {
            assert(z >= 1);
            assert(s[0] == '1');
        } else {
            lemma_digits_of_value(b, 256);
            assert(d.len() > 0);
        }
    }
}

/// Bounds on a big-endian byte string from its first byte.
pub(crate) proof fn lemma_be_bounds(s: Seq<u8>)
    requires
        s.len() >= 1,
    ensures
        s[0] as nat * pow_nat(256, (s.len() - 1) as nat) <= be_value(s, 256),
        be_value(s, 256) < (s[0] as nat + 1) * pow_nat(256, (s.len() - 1) as nat),
    decreases s.len(),
{
    let t = s.drop_last();
    if s.len() == 1 {
        assert(t.len() == 0);
        assert(be_value(t, 256) == 0);
        assert(pow_nat(256, 0) == 1);
        assert(s.last() == s[0]);
        assert(be_value(s, 256) == 0nat * 256 + s[0] as nat);
        assert(be_value(s, 256) == s[0] as nat);
        assert(s[0] as nat * 1 == s[0] as nat);
    } else {
        lemma_be_bounds(t);
        let p = pow_nat(256, (t.len() - 1) as nat);
        let bt = be_value(t, 256);
        let x = s[0] as nat;
        let last = s.last() as nat;
        assert(t[0] == s[0]);
        assert(pow_nat(256, (s.len() - 1) as nat) == 256 * p);
        assert(x * (256 * p) <= bt * 256 + last && bt * 256 + last < (x + 1) * (256 * p))
            by (nonlinear_arith)
            requires
                x * p <= bt,
                bt < (x + 1) * p,
                last < 256,
        ;
    }
}

/// A number between `58^k` and `58^(k+1)` has `k + 1` base-58 digits, the
/// first being its quotient by `58^k`.
pub(crate) proof fn lemma_digits_len(n: nat, k: nat)
    requires
        pow_nat(58, k) <= n < pow_nat(58, k + 1),
    ensures
        digits_of(n, 58).len() == k + 1,
        digits_of(n, 58)[0] as nat == n / pow_nat(58, k),
    decreases k,
{
    let q = n / 58;
    let r = n % 58;
    vstd::arithmetic::div_mod::lemma_fundamental_div_mod(n as int, 58);
    if k == 0 {
        assert(pow_nat(58, 0) == 1);
        assert(pow_nat(58, 1) == 58 * pow_nat(58, 0));
        vstd::arithmetic::div_mod::lemma_fundamental_div_mod_converse(n as int, 58, 0, n as int);
        assert(digits_of(0, 58).len() == 0);
    } else {
        let p = pow_nat(58, (k - 1) as nat);
        assert(pow_nat(58, k) == 58 * p);
        assert(pow_nat(58, k + 1) == 58 * pow_nat(58, k));
        assert(p <= q && q < 58 * p) by (nonlinear_arith)
            requires
                58 * p <= n,
                n < 58 * (58 * p),
                n == 58 * q + r,
                0 <= r < 58,
        ;
        lemma_digits_of(n, 58);
        lemma_digits_len(q, (k - 1) as nat);
        vstd::arithmetic::div_mod::lemma_div_denominator(n as int, 58, p as int);
        assert(digits_of(n, 58) == digits_of(q, 58).push(r as u8));
    }
}

} // verus!
