use vstd::prelude::*;

verus! {

/// The number that a big-endian bit sequence denotes.
pub open spec fn bits_value(bits: Seq<bool>) -> nat
    decreases bits.len(),
{
    if bits.len() == 0 {
        0
    } else {
        2 * bits_value(bits.drop_last()) + if bits.last() { 1nat } else { 0nat }
    }
}

/// The shortest big-endian bit sequence that denotes `n`; zero is one `false`.
pub open spec fn minimal_bits(n: nat) -> Seq<bool>
    decreases n,
{
    if n < 2 {
        seq![n == 1]
    } else {
        minimal_bits(n / 2).push(n % 2 == 1)
    }
}

/// The low `width` bits of `n`, most significant first.
pub open spec fn fixed_bits(n: nat, width: nat) -> Seq<bool>
    decreases width,
{
    if width == 0 {
        Seq::empty()
    } else {
        fixed_bits(n / 2, (width - 1) as nat).push(n % 2 == 1)
    }
}

/// Two to the power `e`.
pub open spec fn pow2(e: nat) -> nat
    decreases e,
{
    if e == 0 {
        1
    } else {
        2 * pow2((e - 1) as nat)
    }
}

/// A power of two is at least one.
pub proof fn lemma_pow2_positive(e: nat)
    ensures
        pow2(e) >= 1,
    decreases e,
{
    if e > 0 {
        lemma_pow2_positive((e - 1) as nat);
    }
}

/// A larger exponent gives no smaller power of two.
pub proof fn lemma_pow2_monotone(a: nat, b: nat)
    requires
        a <= b,
    ensures
        pow2(a) <= pow2(b),
    decreases b,
{
    if a < b {
        lemma_pow2_monotone(a, (b - 1) as nat);
    }
}

/// The power of a sum is the product of the powers.
pub proof fn lemma_pow2_add(a: nat, b: nat)
    ensures
        pow2(a + b) == pow2(a) * pow2(b),
    decreases a,
{
    if a == 0 {
        assert(pow2(a) == 1);
        assert(1 * pow2(b) == pow2(b));
    } else {
        let a1 = (a - 1) as nat;
        lemma_pow2_add(a1, b);
        assert(pow2(a + b) == 2 * pow2(a1 + b));
        let x = pow2(a1);
        let y = pow2(b);
        assert(2 * (x * y) == (2 * x) * y) by (nonlinear_arith);
    }
}

/// A minimal bit sequence has a leading one, unless it writes zero.
pub proof fn lemma_minimal_bits(n: nat)
    ensures
        minimal_bits(n).len() >= 1,
        bits_value(minimal_bits(n)) == n,
        minimal_bits(n)[0] == (n != 0),
        pow2(minimal_bits(n).len()) > n,
        n >= 1 ==> pow2((minimal_bits(n).len() - 1) as nat) <= n,
    decreases n,
{
    if n < 2 {
        let s = seq![n == 1];
        assert(s.drop_last() =~= Seq::<bool>::empty());
        assert(bits_value(s.drop_last()) == 0);
        assert(pow2(1) == 2 * pow2(0));
    } else {
        lemma_minimal_bits(n / 2);
        let s = minimal_bits(n / 2);
        assert(s.push(n % 2 == 1).drop_last() =~= s);
    }
}

/// The remainder by twice a number, from the remainder of the half.
pub proof fn lemma_mod_of_double(n: int, p: int)
    requires
        n >= 0,
        p >= 1,
    ensures
        n % (2 * p) == 2 * ((n / 2) % p) + n % 2,
{
    let half = n / 2;
    let a = half / p;
    let b = half % p;
    vstd::arithmetic::div_mod::lemma_fundamental_div_mod(half, p);
    assert(half == p * a + b);
    assert(p * a == a * p) by (nonlinear_arith);
    assert(a * (2 * p) == 2 * (a * p)) by (nonlinear_arith);
    assert(n == a * (2 * p) + (2 * b + n % 2));
    vstd::arithmetic::div_mod::lemma_fundamental_div_mod_converse(n, 2 * p, a, 2 * b + n % 2);
}

/// Fixed-width bits denote the number reduced modulo two to the width.
pub proof fn lemma_fixed_bits(n: nat, width: nat)
    ensures
        fixed_bits(n, width).len() == width,
        bits_value(fixed_bits(n, width)) == n % pow2(width),
    decreases width,
{
    if width == 0 {
    } else {
        let w1 = (width - 1) as nat;
        lemma_fixed_bits(n / 2, w1);
        let s = fixed_bits(n / 2, w1);
        assert(s.push(n % 2 == 1).drop_last() =~= s);
        lemma_pow2_positive(w1);
        lemma_mod_of_double(n as int, pow2(w1) as int);
    }
}

/// Reading back what `fixed_bits` wrote, and writing what was read.
pub proof fn lemma_fixed_bits_of_value(bits: Seq<bool>)
    ensures
        bits_value(bits) < pow2(bits.len()),
        fixed_bits(bits_value(bits), bits.len()) == bits,
    decreases bits.len(),
{
    if bits.len() == 0 {
        assert(fixed_bits(0, 0) =~= bits);
    } else {
        let front = bits.drop_last();
        lemma_fixed_bits_of_value(front);
        let v = bits_value(bits);
        assert(v / 2 == bits_value(front));
        assert((v % 2 == 1) == bits.last());
        assert(front.push(bits.last()) =~= bits);
    }
}

/// Padding a minimal bit sequence with leading zeros gives the fixed-width one.
pub proof fn lemma_fixed_bits_pads_minimal(n: nat, width: nat)
    requires
        minimal_bits(n).len() <= width,
    ensures
        fixed_bits(n, width) == Seq::new((width - minimal_bits(n).len()) as nat, |i: int| false)
            + minimal_bits(n),
    decreases width,
{
    lemma_minimal_bits(n);
    let pad = Seq::new((width - minimal_bits(n).len()) as nat, |i: int| false);
    if n < 2 {
        lemma_fixed_bits_small(n, width);
        assert(fixed_bits(n, width) =~= pad + minimal_bits(n));
    } else {
        let w1 = (width - 1) as nat;
        lemma_fixed_bits_pads_minimal(n / 2, w1);
        let pad1 = Seq::new((w1 - minimal_bits(n / 2).len()) as nat, |i: int| false);
        assert(pad1 =~= pad);
        assert((pad + minimal_bits(n / 2)).push(n % 2 == 1) =~= pad + minimal_bits(n));
    }
}

/// Zero and one in fixed width: zeros, then the number itself.
proof fn lemma_fixed_bits_small(n: nat, width: nat)
    requires
        n < 2,
        width >= 1,
    ensures
        fixed_bits(n, width) == Seq::new((width - 1) as nat, |i: int| false).push(n == 1),
    decreases width,
{
    let w1 = (width - 1) as nat;
    if w1 == 0 {
        assert(fixed_bits(0, 0) =~= Seq::new(0, |i: int| false));
    } else {
        lemma_fixed_bits_small(0, w1);
        assert(fixed_bits(0, w1) =~= Seq::new(w1, |i: int| false));
    }
}

/// A number fits in `width` bits, of which there is at least one, exactly
/// when its shortest writing is no longer than that.
pub proof fn lemma_width_of_minimal(n: nat, width: int)
    ensures
        minimal_bits(n).len() <= width <==> width >= 1 && n < pow2(width as nat),
{
    lemma_minimal_bits(n);
    let len = minimal_bits(n).len();
    if width >= 1 {
        if len <= width {
            lemma_pow2_monotone(len, width as nat);
        } else if n >= 1 {
            lemma_pow2_monotone(width as nat, (len - 1) as nat);
        }
    }
}

/// The shortest big-endian bit sequence of a non-negative number.
pub fn to_bin(val: i32) -> (bits: Vec<bool>)
    requires
        val >= 0,
    ensures
        bits@ == minimal_bits(val as nat),
        bits_value(bits@) == val,
        bits.len() >= 1,
        bits@[0] == (val != 0),
        val < pow2(bits@.len()),
{
    proof {
        lemma_minimal_bits(val as nat);
    }
    let mut low_first: Vec<bool> = Vec::new();
    let mut rest: i32 = val;
    while rest / 2 > 0
        invariant
            rest >= 0,
            minimal_bits(val as nat) == minimal_bits(rest as nat) + low_first@.reverse(),
        decreases rest,
    {
        proof {
            let r = rest as nat;
            let bit = r % 2 == 1;
            assert(low_first@.push(bit).reverse() =~= seq![bit] + low_first@.reverse());
            assert(minimal_bits(r / 2).push(bit) + low_first@.reverse() =~= minimal_bits(r / 2) + (
            seq![bit] + low_first@.reverse()));
        }
        low_first.push(rest % 2 == 1);
        rest = rest / 2;
    }
    proof {
        assert(low_first@.push(rest == 1).reverse() =~= seq![rest == 1] + low_first@.reverse());
    }
    low_first.push(rest == 1);
    let mut bits: Vec<bool> = Vec::new();
    let mut i: usize = low_first.len();
    while i > 0
        invariant
            i <= low_first.len(),
            bits@ == low_first@.reverse().subrange(0, low_first.len() - i),
        decreases i,
    {
        i -= 1;
        bits.push(low_first[i]);
        assert(bits@ =~= low_first@.reverse().subrange(0, low_first.len() - i));
    }
    assert(bits@ =~= low_first@.reverse());
    bits
}

/// The big-endian bits of `val`, padded with leading zeros to `size` bits, or
/// `None` when the shortest writing of `val` is longer than that.
pub fn to_const_size_bin(val: i32, size: i32) -> (bits: Option<Vec<bool>>)
    requires
        val >= 0,
    ensures
        bits is Some <==> minimal_bits(val as nat).len() <= size,
        bits is Some <==> size >= 1 && val < pow2(size as nat),
        bits matches Some(b) ==> b@ == fixed_bits(val as nat, size as nat) && b.len() == size
            && bits_value(b@) == val,
{
    proof {
        lemma_minimal_bits(val as nat);
        lemma_width_of_minimal(val as nat, size as int);
        if size >= 0 {
            lemma_fixed_bits(val as nat, size as nat);
            if val < pow2(size as nat) {
                lemma_pow2_positive(size as nat);
                vstd::arithmetic::div_mod::lemma_small_mod(val as nat, pow2(size as nat));
            }
        }
    }
    let minimal = to_bin(val);
    if size < 0 || minimal.len() > size as usize {
        return None;
    }
    let mut bits: Vec<bool> = Vec::new();
    let pad: usize = size as usize - minimal.len();
    let mut i: usize = 0;
    while i < pad
        invariant
            i <= pad,
            bits@ == Seq::new(i as nat, |k: int| false),
        decreases pad - i,
    {
        bits.push(false);
        i += 1;
        assert(bits@ =~= Seq::new(i as nat, |k: int| false));
    }
    let mut j: usize = 0;
    while j < minimal.len()
        invariant
            j <= minimal.len(),
            bits@ == Seq::new(pad as nat, |k: int| false) + minimal@.subrange(0, j as int),
        decreases minimal.len() - j,
    {
        bits.push(minimal[j]);
        j += 1;
        assert(bits@ =~= Seq::new(pad as nat, |k: int| false) + minimal@.subrange(0, j as int));
    }
    proof {
        assert(minimal@.subrange(0, j as int) =~= minimal@);
        lemma_fixed_bits_pads_minimal(val as nat, size as nat);
    }
    Some(bits)
}

/// A prefix of a bit sequence denotes no more than the whole.
pub proof fn lemma_bits_value_prefix(bits: Seq<bool>, k: int)
    requires
        0 <= k <= bits.len(),
    ensures
        bits_value(bits.subrange(0, k)) <= bits_value(bits),
    decreases bits.len() - k,
{
    if k == bits.len() {
        assert(bits.subrange(0, k) =~= bits);
    } else {
        lemma_bits_value_prefix(bits, k + 1);
        assert(bits.subrange(0, k + 1).drop_last() =~= bits.subrange(0, k));
    }
}

/// The number that a big-endian bit sequence denotes.
pub fn bin_to_num(data: &[bool]) -> (value: i32)
    requires
        bits_value(data@) <= i32::MAX,
    ensures
        value == bits_value(data@),
{
    let mut value: i32 = 0;
    let mut i: usize = 0;
    while i < data.len()
        invariant
            i <= data.len(),
            value == bits_value(data@.subrange(0, i as int)),
            bits_value(data@) <= i32::MAX,
        decreases data.len() - i,
    {
        proof {
            lemma_bits_value_prefix(data@, i + 1);
            assert(data@.subrange(0, i + 1).drop_last() =~= data@.subrange(0, i as int));
        }
        value = 2 * value + if data[i] { 1 } else { 0 };
        i += 1;
    }
    assert(data@.subrange(0, i as int) =~= data@);
    value
}

} // verus!
