//! Unsigned integers bounded to a fixed number of bits, with canonical
//! fixed-width big-endian and little-endian byte encodings.

use vstd::prelude::*;
use vstd::arithmetic::power2::*;

verus! {

/// The number that a little-endian byte string denotes.
pub open spec fn le_value(s: Seq<u8>) -> nat
    decreases s.len(),
{
    if s.len() == 0 {
        0
    } else {
        s[0] as nat + 256 * le_value(s.drop_first())
    }
}

/// A byte string in the opposite order.
pub open spec fn rev_bytes(s: Seq<u8>) -> Seq<u8> {
    Seq::new(s.len(), |i: int| s[s.len() - 1 - i])
}

/// The number that a big-endian byte string denotes.
pub open spec fn be_value(s: Seq<u8>) -> nat {
    le_value(rev_bytes(s))
}

/// The number of bits that `v` needs: zero for zero.
pub open spec fn bit_len(v: nat) -> nat
    decreases v,
{
    if v == 0 {
        0
    } else {
        1 + bit_len(v / 2)
    }
}

/// The number of bytes that holds `bits` bits.
pub open spec fn byte_width(bits: nat) -> nat {
    (bits + 7) / 8
}

/// The `n`-byte little-endian encoding of `v`, taken modulo `256^n`.
pub open spec fn le_encode(v: nat, n: nat) -> Seq<u8>
    decreases n,
{
    if n == 0 {
        Seq::empty()
    } else {
        seq![(v % 256) as u8] + le_encode(v / 256, (n - 1) as nat)
    }
}

/// The `n`-byte big-endian encoding of `v`, zero-padded on the high side.
pub open spec fn be_encode(v: nat, n: nat) -> Seq<u8> {
    rev_bytes(le_encode(v, n))
}

/// The decimal digit for `d`, below ten.
pub open spec fn digit_char(d: nat) -> char {
    if d == 0 {
        '0'
    } else if d == 1 {
        '1'
    } else if d == 2 {
        '2'
    } else if d == 3 {
        '3'
    } else if d == 4 {
        '4'
    } else if d == 5 {
        '5'
    } else if d == 6 {
        '6'
    } else if d == 7 {
        '7'
    } else if d == 8 {
        '8'
    } else {
        '9'
    }
}

/// The decimal rendering of `v`, most significant digit first, without leading zeros.
pub open spec fn decimal_of(v: nat) -> Seq<char>
    decreases v,
{
    if v < 10 {
        seq![digit_char(v)]
    } else {
        decimal_of(v / 10).push(digit_char(v % 10))
    }
}

pub proof fn lemma_le_value_bound(s: Seq<u8>)
    ensures
        le_value(s) < pow2(8 * s.len()),
    decreases s.len(),
{
    if s.len() == 0 {
        lemma2_to64();
    } else {
        let t = s.drop_first();
        lemma_le_value_bound(t);
        lemma_pow2_adds(8, 8 * t.len());
        lemma2_to64();
        assert(8 * s.len() == 8 + 8 * t.len());
        let p = pow2(8 * t.len());
        assert(s[0] as nat + 256 * le_value(t) < 256 * p) by (nonlinear_arith)
            requires
                s[0] < 256,
                le_value(t) < p,
        ;
    }
}

/// The value splits at byte `k` into a low part and a high part.
pub proof fn lemma_le_value_split(s: Seq<u8>, k: nat)
    requires
        k <= s.len(),
    ensures
        le_value(s) == le_value(s.subrange(0, k as int)) + pow2(8 * k) * le_value(
            s.subrange(k as int, s.len() as int),
        ),
    decreases k,
{
    if k == 0 {
        lemma2_to64();
        assert(s.subrange(0, s.len() as int) =~= s);
        assert(s.subrange(0, 0) =~= Seq::<u8>::empty());
        assert(pow2(0) == 1);
        assert(le_value(s.subrange(0, 0)) == 0);
        assert(le_value(s) == le_value(s.subrange(0, 0)) + pow2(0) * le_value(s));
    } else {
        let t = s.drop_first();
        lemma_le_value_split(t, (k - 1) as nat);
        let lo = s.subrange(0, k as int);
        assert(lo.drop_first() =~= t.subrange(0, k - 1));
        assert(s.subrange(k as int, s.len() as int) =~= t.subrange(k - 1, t.len() as int));
        lemma_pow2_adds(8, 8 * (k - 1) as nat);
        lemma2_to64();
        assert(8 * k == 8 + 8 * (k - 1) as nat);
        let a = le_value(t.subrange(0, k - 1));
        let b = le_value(t.subrange(k - 1, t.len() as int));
        let p = pow2(8 * (k - 1) as nat);
        assert(pow2(8 * k) == 256 * p);
        assert(le_value(lo) == s[0] as nat + 256 * a);
        assert(le_value(t) == a + p * b);
        assert(256 * (a + p * b) == 256 * a + (256 * p) * b) by (nonlinear_arith);
        assert(le_value(s) == s[0] as nat + 256 * le_value(t));
        assert(le_value(s.subrange(k as int, s.len() as int)) == b);
        assert(le_value(s) == le_value(lo) + pow2(8 * k) * b);
    }
}

/// A byte string of zeros denotes zero.
pub proof fn lemma_le_value_zeros(s: Seq<u8>)
    requires
        forall|i: int| 0 <= i < s.len() ==> s[i] == 0,
    ensures
        le_value(s) == 0,
    decreases s.len(),
{
    if s.len() > 0 {
        lemma_le_value_zeros(s.drop_first());
    }
}

/// High zero bytes do not change the value.
pub proof fn lemma_le_value_prefix(s: Seq<u8>, k: nat)
    requires
        k <= s.len(),
        forall|i: int| k <= i < s.len() ==> s[i] == 0,
    ensures
        le_value(s) == le_value(s.subrange(0, k as int)),
{
    lemma_le_value_split(s, k);
    lemma_le_value_zeros(s.subrange(k as int, s.len() as int));
}

/// A byte string is the encoding of its own value at its own length.
pub proof fn lemma_le_encode_value(s: Seq<u8>)
    ensures
        le_encode(le_value(s), s.len()) == s,
    decreases s.len(),
{
    if s.len() > 0 {
        let t = s.drop_first();
        lemma_le_encode_value(t);
        let v = le_value(s);
        assert(v % 256 == s[0] as nat && v / 256 == le_value(t)) by (nonlinear_arith)
            requires
                v == s[0] as nat + 256 * le_value(t),
                s[0] < 256,
        ;
        assert(le_encode(v, s.len()) =~= s);
    }
}

/// Encoding a value that fits in `n` bytes and reading it back gives the value.
pub proof fn lemma_le_encode_decode(v: nat, n: nat)
    requires
        v < pow2(8 * n),
    ensures
        le_value(le_encode(v, n)) == v,
        le_encode(v, n).len() == n,
    decreases n,
{
    if n > 0 {
        lemma_pow2_adds(8, 8 * (n - 1) as nat);
        lemma2_to64();
        assert(8 * n == 8 + 8 * (n - 1) as nat);
        let p = pow2(8 * (n - 1) as nat);
        assert(v / 256 < p && v == v % 256 + 256 * (v / 256)) by (nonlinear_arith)
            requires
                v < 256 * p,
        ;
        lemma_le_encode_decode(v / 256, (n - 1) as nat);
        let e = le_encode(v, n);
        assert(e.drop_first() =~= le_encode(v / 256, (n - 1) as nat));
    } else {
        lemma2_to64();
    }
}

pub proof fn lemma_rev_rev(s: Seq<u8>)
    ensures
        rev_bytes(rev_bytes(s)) == s,
{
    assert(rev_bytes(rev_bytes(s)) =~= s);
}

/// For `v > 0`, `bit_len(v)` is the `n` with `2^(n-1) <= v < 2^n`.
pub proof fn lemma_bit_len_bounds(v: nat)
    ensures
        v < pow2(bit_len(v)),
        v > 0 ==> bit_len(v) >= 1 && pow2((bit_len(v) - 1) as nat) <= v,
    decreases v,
{
    if v > 0 {
        let h = v / 2;
        lemma_bit_len_bounds(h);
        let b = bit_len(v);
        assert(b == 1 + bit_len(h));
        lemma_pow2_unfold(b);
        assert(pow2(b) == 2 * pow2(bit_len(h)));
        assert(v < 2 * (h + 1));
        if h > 0 {
            lemma_pow2_unfold(bit_len(h));
            assert(pow2((b - 1) as nat) == 2 * pow2((bit_len(h) - 1) as nat));
            assert(2 * h <= v);
        } else {
            assert(b == 1);
            assert(pow2(0) == 1) by {
                lemma2_to64();
            }
        }
    } else {
        lemma_pow2_pos(0);
    }
}

/// `bit_len` is determined by the two powers of two around a value.
pub proof fn lemma_bit_len_unique(v: nat, n: nat)
    requires
        n >= 1,
        pow2((n - 1) as nat) <= v < pow2(n),
    ensures
        bit_len(v) == n,
{
    lemma_bit_len_bounds(v);
    let b = bit_len(v);
    if b < n {
        if b > 0 {
            lemma_pow2_strictly_increases((b - 1) as nat, (n - 1) as nat);
        }
        if b <= n - 1 && b < n - 1 {
            lemma_pow2_strictly_increases(b, (n - 1) as nat);
        }
        assert(false);
    } else if b > n {
        lemma_pow2_strictly_increases(n, (b - 1) as nat);
        if n == b - 1 {
        }
        assert(false);
    }
}

/// A value fits in `n` bits exactly when it needs no more than `n` bits.
pub proof fn lemma_bit_len_fits(v: nat, n: nat)
    ensures
        v < pow2(n) <==> bit_len(v) <= n,
{
    lemma_bit_len_bounds(v);
    if bit_len(v) <= n {
        if bit_len(v) < n {
            lemma_pow2_strictly_increases(bit_len(v), n);
        }
    } else {
        if n < bit_len(v) - 1 {
            lemma_pow2_strictly_increases(n, (bit_len(v) - 1) as nat);
        }
    }
}

/// Shifting a nonzero value up by `m` bits and filling them adds `m` to its bit length.
pub proof fn lemma_bit_len_shift(x: nat, m: nat, r: nat)
    requires
        x > 0,
        r < pow2(m),
    ensures
        bit_len(x * pow2(m) + r) == bit_len(x) + m,
{
    lemma_bit_len_bounds(x);
    let b = bit_len(x);
    let n = b + m;
    let v = x * pow2(m) + r;
    lemma_pow2_adds((b - 1) as nat, m);
    lemma_pow2_adds(b, m);
    assert((b - 1) as nat + m == (n - 1) as nat);
    let lo = pow2((b - 1) as nat);
    let hi = pow2(b);
    let pm = pow2(m);
    assert(lo * pm <= v && v < hi * pm) by (nonlinear_arith)
        requires
            lo <= x,
            x < hi,
            r < pm,
            v == x * pm + r,
    ;
    lemma_bit_len_unique(v, n);
}


/// Raised when a magnitude needs more bits than the bound allows.
#[derive(Clone, Copy, Debug, PartialEq, Eq, Structural)]
pub struct OverflowError {
    /// The number of bits that the magnitude needs.
    pub required_bits: usize,
    /// The number of bits that the bound allows.
    pub bound_bits: usize,
}

/// An unsigned integer whose value fits in a fixed number of bits.
///
/// The value is kept as its canonical little-endian encoding, zero-padded to
/// exactly `ceil(bits / 8)` bytes.
pub struct BoundedUint {
    bits: usize,
    le: Vec<u8>,
}

/// The number of bytes that holds `bits` bits.
pub fn width_of(bits: usize) -> (w: usize)
    ensures
        w == byte_width(bits as nat),
{
    if bits % 8 == 0 {
        bits / 8
    } else {
        bits / 8 + 1
    }
}

/// The bytes of `bytes` in the opposite order.
fn reversed(bytes: &[u8]) -> (r: Vec<u8>)
    ensures
        r@ == rev_bytes(bytes@),
{
    let n = bytes.len();
    let mut r: Vec<u8> = Vec::new();
    let mut i: usize = 0;
    while i < n
        invariant
            n == bytes@.len(),
            i <= n,
            r@.len() == i,
            forall|j: int| 0 <= j < i ==> r@[j] == bytes@[n - 1 - j],
        decreases n - i,
    {
        r.push(bytes[n - 1 - i]);
        i += 1;
    }
    assert(r@ =~= rev_bytes(bytes@));
    r
}

/// The number of bits that one byte needs.
fn byte_bit_len(b: u8) -> (r: usize)
    ensures
        r == bit_len(b as nat),
        r <= 8,
{
    let mut t: u8 = b;
    let mut r: usize = 0;
    proof {
        lemma_bit_len_fits(b as nat, 8);
        lemma2_to64();
    }
    while t > 0
        invariant
            bit_len(b as nat) == r + bit_len(t as nat),
            bit_len(b as nat) <= 8,
        decreases t,
    {
        t = t / 2;
        r = r + 1;
    }
    r
}

/// The number of bits that the value of a little-endian byte string needs.
fn le_bit_len(bytes: &[u8]) -> (r: usize)
    requires
        bytes@.len() <= usize::MAX / 8,
    ensures
        r == bit_len(le_value(bytes@)),
        r <= 8 * bytes@.len(),
{
    let mut k: usize = bytes.len();
    while k > 0 && bytes[k - 1] == 0
        invariant
            k <= bytes@.len(),
            forall|i: int| k <= i < bytes@.len() ==> bytes@[i] == 0,
        decreases k,
    {
        k -= 1;
    }
    proof {
        lemma_le_value_prefix(bytes@, k as nat);
    }
    if k == 0 {
        proof {
            lemma_le_value_zeros(bytes@.subrange(0, 0));
        }
        0
    } else {
        let top = bytes[k - 1];
        let nb = byte_bit_len(top);
        proof {
            let s = bytes@.subrange(0, k as int);
            let m = (8 * (k - 1)) as nat;
            lemma_le_value_split(s, (k - 1) as nat);
            let lo = s.subrange(0, k - 1);
            let hi = s.subrange(k - 1, k as int);
            assert(hi.drop_first() =~= Seq::<u8>::empty());
            assert(hi[0] == top);
            assert(le_value(hi.drop_first()) == 0);
            assert(le_value(hi) == top as nat);
            lemma_le_value_bound(lo);
            lemma_bit_len_shift(top as nat, m, le_value(lo));
            assert(le_value(s) == top as nat * pow2(m) + le_value(lo)) by (nonlinear_arith)
                requires
                    le_value(s) == le_value(lo) + pow2(m) * le_value(hi),
                    le_value(hi) == top as nat,
            ;
        }
        8 * (k - 1) + nb
    }
}

/// Divides a little-endian magnitude by ten: quotient (same width) and remainder.
fn div10(q: &Vec<u8>) -> (r: (Vec<u8>, u8))
    ensures
        r.0@.len() == q@.len(),
        r.1 < 10,
        le_value(q@) == 10 * le_value(r.0@) + r.1 as nat,
{
    let n = q.len();
    let mut out: Vec<u8> = Vec::new();
    let mut i: usize = 0;
    while i < n
        invariant
            i <= n,
            out@.len() == i,
        decreases n - i,
    {
        out.push(0);
        i += 1;
    }
    let mut rem: u8 = 0;
    let mut i: usize = n;
    while i > 0
        invariant
            i <= n,
            n == q@.len(),
            out@.len() == n,
            rem < 10,
            le_value(q@.subrange(i as int, n as int)) == 10 * le_value(
                out@.subrange(i as int, n as int),
            ) + rem as nat,
        decreases i,
    {
        let cur: u16 = rem as u16 * 256 + q[i - 1] as u16;
        let old_out = Ghost(out@);
        out.set(i - 1, (cur / 10) as u8);
        proof {
            let qs = q@.subrange(i - 1, n as int);
            let os = out@.subrange(i - 1, n as int);
            assert(qs.drop_first() =~= q@.subrange(i as int, n as int));
            assert(os.drop_first() =~= old_out@.subrange(i as int, n as int));
            assert(out@.subrange(i as int, n as int) =~= old_out@.subrange(i as int, n as int));
            let hq = le_value(q@.subrange(i as int, n as int));
            let ho = le_value(old_out@.subrange(i as int, n as int));
            assert(le_value(qs) == q@[i - 1] as nat + 256 * hq);
            assert(le_value(os) == (cur / 10) as nat + 256 * ho);
            assert(q@[i - 1] as nat + 256 * hq == 10 * ((cur / 10) as nat + 256 * ho) + (cur
                % 10) as nat) by (nonlinear_arith)
                requires
                    hq == 10 * ho + rem as nat,
                    cur as nat == rem as nat * 256 + q@[i - 1] as nat,
            ;
        }
        rem = (cur % 10) as u8;
        i -= 1;
    }
    assert(q@.subrange(0, n as int) =~= q@);
    assert(out@.subrange(0, n as int) =~= out@);
    (out, rem)
}

/// Tells whether every byte is zero, that is whether the value is zero.
fn is_zero(q: &Vec<u8>) -> (r: bool)
    ensures
        r <==> le_value(q@) == 0,
{
    let mut i: usize = 0;
    while i < q.len()
        invariant
            i <= q@.len(),
            forall|j: int| 0 <= j < i ==> q@[j] == 0,
        decreases q@.len() - i,
    {
        if q[i] != 0 {
            proof {
                lemma_le_value_split(q@, i as nat);
                let hi = q@.subrange(i as int, q@.len() as int);
                assert(le_value(hi) >= hi[0] as nat);
                lemma_pow2_pos((8 * i) as nat);
                assert(pow2((8 * i) as nat) * le_value(hi) > 0) by (nonlinear_arith)
                    requires
                        pow2((8 * i) as nat) > 0,
                        le_value(hi) > 0,
                ;
            }
            return false;
        }
        i += 1;
    }
    proof {
        lemma_le_value_zeros(q@);
    }
    true
}

/// The text of one decimal digit.
fn digit_str(d: u8) -> (r: &'static str)
    requires
        d < 10,
    ensures
        r@ == seq![digit_char(d as nat)],
{
    proof {
        reveal_strlit("0");
        reveal_strlit("1");
        reveal_strlit("2");
        reveal_strlit("3");
        reveal_strlit("4");
        reveal_strlit("5");
        reveal_strlit("6");
        reveal_strlit("7");
        reveal_strlit("8");
        reveal_strlit("9");
    }
    if d == 0 {
        "0"
    } else if d == 1 {
        "1"
    } else if d == 2 {
        "2"
    } else if d == 3 {
        "3"
    } else if d == 4 {
        "4"
    } else if d == 5 {
        "5"
    } else if d == 6 {
        "6"
    } else if d == 7 {
        "7"
    } else if d == 8 {
        "8"
    } else {
        "9"
    }
}

/// The characters of a sequence of decimal digits.
pub open spec fn digits_text(ds: Seq<u8>) -> Seq<char> {
    ds.map_values(|d: u8| digit_char(d as nat))
}

/// Renders a little-endian magnitude in decimal.
fn le_to_decimal(le: &Vec<u8>) -> (r: String)
    ensures
        r@ == decimal_of(le_value(le@)),
{
    let ghost v = le_value(le@);
    let mut q: Vec<u8> = Vec::new();
    let mut i: usize = 0;
    while i < le.len()
        invariant
            i <= le@.len(),
            q@ =~= le@.subrange(0, i as int),
        decreases le@.len() - i,
    {
        q.push(le[i]);
        i += 1;
    }
    assert(q@ =~= le@);
    // digits, most significant first, of what has been divided out so far
    let mut ds: Vec<u8> = Vec::new();
    loop
        invariant_except_break
            decimal_of(v) == decimal_of(le_value(q@)) + digits_text(ds@),
        invariant
            forall|j: int| 0 <= j < ds@.len() ==> ds@[j] < 10,
        ensures
            decimal_of(v) == digits_text(ds@),
            forall|j: int| 0 <= j < ds@.len() ==> ds@[j] < 10,
        decreases le_value(q@),
    {
        let ghost w = le_value(q@);
        let (nq, d) = div10(&q);
        let ghost old_ds = ds@;
        ds.insert(0, d);
        assert forall|j: int| 0 <= j < ds@.len() implies ds@[j] < 10 by {
            if j > 0 {
                assert(ds@[j] == old_ds[j - 1]);
            }
        }
        assert(digits_text(ds@) =~= seq![digit_char(d as nat)] + digits_text(old_ds));
        assert(w / 10 == le_value(nq@) && w % 10 == d as nat);
        if is_zero(&nq) {
            assert(w == d as nat);
            assert(decimal_of(w) == seq![digit_char(w)]);
            assert(decimal_of(v) == digits_text(ds@));
            break;
        }
        assert(decimal_of(w) == decimal_of(w / 10).push(digit_char(w % 10)));
        assert(decimal_of(w / 10).push(digit_char(d as nat)) + digits_text(old_ds)
            =~= decimal_of(w / 10) + digits_text(ds@));
        q = nq;
    }
    let mut out = String::new();
    let mut i: usize = 0;
    while i < ds.len()
        invariant
            i <= ds@.len(),
            forall|j: int| 0 <= j < ds@.len() ==> ds@[j] < 10,
            out@ =~= digits_text(ds@.subrange(0, i as int)),
        decreases ds@.len() - i,
    {
        out.append(digit_str(ds[i]));
        proof {
            assert(digits_text(ds@.subrange(0, i + 1)) =~= digits_text(ds@.subrange(0, i as int))
                + seq![digit_char(ds@[i as int] as nat)]);
        }
        i += 1;
    }
    assert(ds@.subrange(0, ds@.len() as int) =~= ds@);
    out
}

impl BoundedUint {
    #[verifier::type_invariant]
    spec fn inv(&self) -> bool {
        &&& self.le@.len() == byte_width(self.bits as nat)
        &&& le_value(self.le@) < pow2(self.bits as nat)
    }

    /// The bound, in bits.
    pub closed spec fn bits(&self) -> nat {
        self.bits as nat
    }

    /// The integer's value.
    pub closed spec fn value(&self) -> nat {
        le_value(self.le@)
    }

    /// Zero, bounded to `bits` bits.
    pub fn zero(bits: usize) -> (r: Self)
        ensures
            r.bits() == bits,
            r.value() == 0,
    {
        let w = width_of(bits);
        let mut le: Vec<u8> = Vec::new();
        let mut i: usize = 0;
        while i < w
            invariant
                i <= w,
                le@.len() == i,
                forall|j: int| 0 <= j < i ==> le@[j] == 0,
            decreases w - i,
        {
            le.push(0);
            i += 1;
        }
        proof {
            lemma_le_value_zeros(le@);
            lemma_pow2_pos(bits as nat);
        }
        BoundedUint { bits, le }
    }

    /// The bound, in bits.
    pub fn bit_bound(&self) -> (r: usize)
        ensures
            r == self.bits(),
            self.value() < pow2(self.bits()),
    {
        proof {
            use_type_invariant(self);
        }
        self.bits
    }

    /// Reads `bytes` as a little-endian magnitude bounded to `bits` bits.
    ///
    /// Fails when the magnitude needs more than `bits` bits; the error tells
    /// how many it needs.
    pub fn from_le_bytes(bytes: &[u8], bits: usize) -> (r: Result<Self, OverflowError>)
        requires
            bytes@.len() <= usize::MAX / 8,
        ensures
            r is Ok <==> le_value(bytes@) < pow2(bits as nat),
            r matches Ok(x) ==> x.bits() == bits && x.value() == le_value(bytes@),
            r matches Err(e) ==> e.bound_bits == bits && e.required_bits == bit_len(
                le_value(bytes@),
            ),
    {
        let need = le_bit_len(bytes);
        proof {
            lemma_bit_len_fits(le_value(bytes@), bits as nat);
        }
        if need > bits {
            return Err(OverflowError { required_bits: need, bound_bits: bits });
        }
        let w = width_of(bits);
        let n = bytes.len();
        let mut le: Vec<u8> = Vec::new();
        let mut i: usize = 0;
        while i < w
            invariant
                i <= w,
                n == bytes@.len(),
                le@.len() == i,
                forall|j: int| 0 <= j < i ==> le@[j] == (if j < n { bytes@[j] } else { 0u8 }),
            decreases w - i,
        {
            if i < n {
                le.push(bytes[i]);
            } else {
                le.push(0);
            }
            i += 1;
        }
        proof {
            let v = le_value(bytes@);
            lemma_le_value_bound(bytes@);
            // every byte at or above the width is zero, else the value would need more bits
            let k: nat = if n < w { n as nat } else { w as nat };
            assert forall|j: int| k <= j < n implies bytes@[j] == 0 by {
                if bytes@[j] != 0 {
                    lemma_le_value_split(bytes@, j as nat);
                    let hi = bytes@.subrange(j, n as int);
                    assert(le_value(hi) >= hi[0] as nat);
                    assert(pow2((8 * j) as nat) <= pow2((8 * j) as nat) * le_value(hi))
                        by (nonlinear_arith)
                        requires
                            le_value(hi) >= 1,
                    ;
                    assert(pow2(bits as nat) <= pow2((8 * j) as nat)) by {
                        if (bits as nat) < ((8 * j) as nat) {
                            lemma_pow2_strictly_increases(bits as nat, (8 * j) as nat);
                        }
                    }
                }
            }
            lemma_le_value_prefix(bytes@, k);
            lemma_le_value_prefix(le@, k);
            assert(le@.subrange(0, k as int) =~= bytes@.subrange(0, k as int));
        }
        Ok(BoundedUint { bits, le })
    }

    /// Reads `bytes` as a big-endian magnitude bounded to `bits` bits.
    ///
    /// Fails when the magnitude needs more than `bits` bits; the error tells
    /// how many it needs.
    pub fn from_be_bytes(bytes: &[u8], bits: usize) -> (r: Result<Self, OverflowError>)
        requires
            bytes@.len() <= usize::MAX / 8,
        ensures
            r is Ok <==> be_value(bytes@) < pow2(bits as nat),
            r matches Ok(x) ==> x.bits() == bits && x.value() == be_value(bytes@),
            r matches Err(e) ==> e.bound_bits == bits && e.required_bits == bit_len(
                be_value(bytes@),
            ),
    {
        let le = reversed(bytes);
        BoundedUint::from_le_bytes(le.as_slice(), bits)
    }

    /// The canonical little-endian encoding, exactly `ceil(bits / 8)` bytes.
    pub fn to_le_bytes(&self) -> (r: Vec<u8>)
        ensures
            r@ == le_encode(self.value(), byte_width(self.bits())),
    {
        proof {
            use_type_invariant(self);
            lemma_le_encode_value(self.le@);
        }
        let n = self.le.len();
        let mut r: Vec<u8> = Vec::new();
        let mut i: usize = 0;
        while i < n
            invariant
                i <= n,
                n == self.le@.len(),
                r@ =~= self.le@.subrange(0, i as int),
            decreases n - i,
        {
            r.push(self.le[i]);
            i += 1;
        }
        r
    }

    /// The canonical big-endian encoding, exactly `ceil(bits / 8)` bytes.
    pub fn to_be_bytes(&self) -> (r: Vec<u8>)
        ensures
            r@ == be_encode(self.value(), byte_width(self.bits())),
    {
        proof {
            use_type_invariant(self);
            lemma_le_encode_value(self.le@);
        }
        reversed(self.le.as_slice())
    }

    /// The value in decimal, without leading zeros; zero renders as `0`.
    pub fn to_decimal_string(&self) -> (r: String)
        ensures
            r@ == decimal_of(self.value()),
    {
        le_to_decimal(&self.le)
    }
}

impl Clone for BoundedUint {
    fn clone(&self) -> (r: Self)
        ensures
            r.bits() == self.bits(),
            r.value() == self.value(),
    {
        proof {
            use_type_invariant(self);
            lemma_le_encode_value(self.le@);
        }
        BoundedUint { bits: self.bits, le: self.to_le_bytes() }
    }
}

/// Big-endian round trip: a full-width big-endian string whose value fits
/// the bound is exactly the canonical encoding of that value, so decoding it
/// and encoding again gives it back byte for byte.
pub proof fn lemma_be_round_trip(b: Seq<u8>, bits: nat)
    requires
        b.len() == byte_width(bits),
        be_value(b) < pow2(bits),
    ensures
        be_encode(be_value(b), byte_width(bits)) == b,
{
    lemma_le_encode_value(rev_bytes(b));
    lemma_rev_rev(b);
}

/// Little-endian round trip: a full-width little-endian string whose value
/// fits the bound is exactly the canonical encoding of that value.
pub proof fn lemma_le_round_trip(b: Seq<u8>, bits: nat)
    requires
        b.len() == byte_width(bits),
        le_value(b) < pow2(bits),
    ensures
        le_encode(le_value(b), byte_width(bits)) == b,
{
    lemma_le_encode_value(b);
}

/// Value round trip: the canonical encodings of a value within the bound, in
/// either order, denote that value again.
pub proof fn lemma_value_round_trip(v: nat, bits: nat)
    requires
        v < pow2(bits),
    ensures
        le_value(le_encode(v, byte_width(bits))) == v,
        be_value(be_encode(v, byte_width(bits))) == v,
        le_encode(v, byte_width(bits)).len() == byte_width(bits),
        be_encode(v, byte_width(bits)).len() == byte_width(bits),
{
    let w = byte_width(bits);
    assert(bits <= 8 * w);
    if bits < 8 * w {
        lemma_pow2_strictly_increases(bits, 8 * w);
    }
    lemma_le_encode_decode(v, w);
    lemma_rev_rev(le_encode(v, w));
}

} // verus!
