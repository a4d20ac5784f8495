//! GF(2^8): the finite field with 2^8 elements.
//!
//! Addition and subtraction are bitwise XOR.  Multiplication, division and
//! exponentiation go through logarithm / exponent tables for a fixed
//! primitive polynomial.  The tables are built once per engine instance; the
//! constructor checks, by exhaustive enumeration, every structural property
//! that the proofs rely on, so that a well-formed [`GfTables`] value carries
//! the field laws as a verified invariant.

use vstd::prelude::*;

verus! {

use vstd::arithmetic::div_mod::{
    lemma_add_mod_noop, lemma_add_mod_noop_right, lemma_mod_twice, lemma_small_mod,
    lemma_mul_mod_noop_right,
};

/// Addition in GF(2^8): bitwise XOR.
pub open spec fn gf_add(a: u8, b: u8) -> u8 {
    a ^ b
}

/// Subtraction in GF(2^8) coincides with addition.
pub open spec fn gf_sub(a: u8, b: u8) -> u8 {
    a ^ b
}

/// Logarithm and exponent tables of GF(2^8), together with a flattened
/// 256 x 256 multiplication table derived from them.
#[derive(Debug, Clone)]
pub struct GfTables {
    /// `exp[i]` is the i-th power of the generator, for `i < 255`.
    pub exp: Vec<u8>,
    /// `log[a]` is the discrete logarithm of `a`, for `a != 0`.
    pub log: Vec<u8>,
    /// `mul[a * 256 + b]` is the product of `a` and `b`.
    pub mul: Vec<u8>,
}

/// Multiplication through a given pair of exponent / logarithm tables:
/// zero annihilates, and otherwise the product is `exp[(log a + log b) mod 255]`.
pub open spec fn gf_mul_raw(exp_t: Seq<u8>, log_t: Seq<u8>, a: u8, b: u8) -> u8 {
    if a == 0 || b == 0 {
        0
    } else {
        exp_t[((log_t[a as int] + log_t[b as int]) % 255) as int]
    }
}

/// Multiplication in GF(2^8), defined through the tables.
pub open spec fn gf_mul(t: GfTables, a: u8, b: u8) -> u8 {
    gf_mul_raw(t.exp@, t.log@, a, b)
}

/// Division in GF(2^8): zero divides to zero; otherwise
/// `exp[(log a - log b) mod 255]`.  A zero divisor is an error that
/// callers rule out; this total spec maps it to zero.
pub open spec fn gf_div(t: GfTables, a: u8, b: u8) -> u8 {
    if a == 0 {
        0
    } else if b == 0 {
        0
    } else {
        t.exp@[((t.log@[a as int] + 255 - t.log@[b as int]) % 255) as int]
    }
}

/// Exponentiation in GF(2^8), defined by repeated multiplication.
pub open spec fn gf_pow(t: GfTables, a: u8, n: nat) -> u8
    decreases n,
{
    if n == 0 {
        1
    } else {
        gf_mul(t, a, gf_pow(t, a, (n - 1) as nat))
    }
}

impl GfTables {
    /// The exponent and logarithm tables are mutually inverse bijections
    /// between 0..255 and the 255 nonzero field elements.
    pub open spec fn bijective(self) -> bool {
        &&& self.exp@.len() == 255
        &&& self.log@.len() == 256
        &&& self.exp@[0] == 1
        &&& forall|i: int| 0 <= i < 255 ==> #[trigger] self.exp@[i] != 0
        &&& forall|i: int| 0 <= i < 255 ==> self.log@[#[trigger] self.exp@[i] as int] == i
        &&& forall|a: int|
            1 <= a < 256 ==> (#[trigger] self.log@[a]) < 255 && self.exp@[self.log@[a] as int]
                == a
    }

    /// The flattened multiplication table agrees with `gf_mul`.
    pub open spec fn mul_table_ok(self) -> bool {
        &&& self.mul@.len() == 65536
        &&& forall|a: u8, b: u8| #[trigger] self.mul@[a as int * 256 + b as int] == gf_mul(self, a, b)
    }

    /// Multiplication distributes over addition.  This is the one field law
    /// that does not follow from the bijectivity of the tables; it is
    /// established by exhaustive check at construction time.
    pub open spec fn distributive(self) -> bool {
        forall|a: u8, b: u8, c: u8| #[trigger] gf_mul(self, a, gf_add(b, c)) == gf_add(
            gf_mul(self, a, b),
            gf_mul(self, a, c),
        )
    }

    /// Full well-formedness: everything the field proofs rely on.
    pub open spec fn wf(self) -> bool {
        self.bijective() && self.mul_table_ok() && self.distributive()
    }
}

/// A single field element; a byte reinterpreted under the GF(2^8) structure.
#[derive(Debug, Clone, Copy, PartialEq, Eq, Structural)]
pub struct Galois(pub u8);

impl Galois {
    pub fn new(v: u8) -> (r: Self)
        ensures
            r.0 == v,
    {
        Galois(v)
    }

    pub fn zero() -> (r: Self)
        ensures
            r.0 == 0,
    {
        Galois(0)
    }

    pub fn one() -> (r: Self)
        ensures
            r.0 == 1,
    {
        Galois(1)
    }

    pub fn pow(self, t: &GfTables, n: usize) -> (r: Self)
        requires
            t.wf(),
        ensures
            r.0 == gf_pow(*t, self.0, n as nat),
    {
        Galois(exp(t, self.0, n))
    }
}

/// Add two elements.
pub fn add(a: u8, b: u8) -> (r: u8)
    ensures
        r == gf_add(a, b),
{
    a ^ b
}

/// Subtract `b` from `a`.
pub fn sub(a: u8, b: u8) -> (r: u8)
    ensures
        r == gf_sub(a, b),
{
    a ^ b
}

/// Multiply two elements.
pub fn mul(t: &GfTables, a: u8, b: u8) -> (r: u8)
    requires
        t.bijective(),
        t.mul_table_ok(),
    ensures
        r == gf_mul(*t, a, b),
{
    t.mul[(a as usize) * 256 + (b as usize)]
}

/// Divide one element by another.  `b`, the divisor, may not be 0.
pub fn div(t: &GfTables, a: u8, b: u8) -> (r: u8)
    requires
        t.bijective(),
        b != 0,
    ensures
        r == gf_div(*t, a, b),
{
    if a == 0 {
        0
    } else {
        let log_a = t.log[a as usize];
        let log_b = t.log[b as usize];
        t.exp[((log_a as usize) + 255 - (log_b as usize)) % 255]
    }
}

/// Compute `a^n`.
pub fn exp(t: &GfTables, a: u8, n: usize) -> (r: u8)
    requires
        t.wf(),
    ensures
        r == gf_pow(*t, a, n as nat),
{
    if n == 0 {
        1
    } else if a == 0 {
        proof {
            lemma_pow_zero_base(*t, n as nat);
        }
        0
    } else {
        let log_a = t.log[a as usize] as usize;
        let m = n % 255;
        proof {
            assert(t.log@[a as int] < 255);
            assert((log_a as int) * (m as int) <= 254 * 254) by (nonlinear_arith)
                requires
                    log_a as int <= 254,
                    m as int <= 254,
            ;
        }
        let r = t.exp[(log_a * m) % 255];
        proof {
            lemma_pow_by_log(*t, a, n as nat);
            let la = t.log@[a as int] as int;
            lemma_mul_mod_noop_right(la, n as int, 255);
            assert((la * ((n as int) % 255)) % 255 == (la * (n as int)) % 255);
        }
        r
    }
}

/// `0^n == 0` for positive `n`.
proof fn lemma_pow_zero_base(t: GfTables, n: nat)
    requires
        n > 0,
    ensures
        gf_pow(t, 0, n) == 0,
{
}

/// For a nonzero base, exponentiation is a table lookup:
/// `a^n == exp[(log a * n) mod 255]`.
proof fn lemma_pow_by_log(t: GfTables, a: u8, n: nat)
    requires
        t.bijective(),
        a != 0,
    ensures
        gf_pow(t, a, n) == t.exp@[((t.log@[a as int] * n) % 255) as int],
    decreases n,
{
    let la = t.log@[a as int] as int;
    if n == 0 {
        lemma_small_mod(0, 255);
    } else {
        lemma_pow_by_log(t, a, (n - 1) as nat);
        let prev = gf_pow(t, a, (n - 1) as nat);
        let ip = (la * (n - 1)) % 255;
        assert(prev == t.exp@[ip]);
        assert(prev != 0);
        assert(t.log@[prev as int] == ip);
        assert(gf_pow(t, a, n) == gf_mul(t, a, prev));
        assert(gf_mul(t, a, prev) == t.exp@[((la + ip) % 255) as int]);
        lemma_small_mod(la as nat, 255);
        lemma_add_mod_noop(la, la * (n - 1), 255);
        assert((la % 255 + (la * (n - 1)) % 255) % 255 == (la + la * (n - 1)) % 255);
        assert(la + la * (n - 1) == la * n) by (nonlinear_arith);
        assert((la + ip) % 255 == (la * n) % 255);
    }
}

/// Multiplication is commutative (needs only bijectivity).
pub proof fn lemma_mul_comm(t: GfTables, a: u8, b: u8)
    requires
        t.bijective(),
    ensures
        gf_mul(t, a, b) == gf_mul(t, b, a),
{
}

/// One is the multiplicative identity.
pub proof fn lemma_mul_one(t: GfTables, a: u8)
    requires
        t.bijective(),
    ensures
        gf_mul(t, a, 1) == a,
{
    if a != 0 {
        let la = t.log@[a as int] as int;
        assert(t.log@[1int] == 0) by {
            assert(t.exp@[0] == 1);
        }
        lemma_small_mod(la as nat, 255);
    }
}

/// Multiplication is associative (needs only bijectivity).
pub proof fn lemma_mul_assoc(t: GfTables, a: u8, b: u8, c: u8)
    requires
        t.bijective(),
    ensures
        gf_mul(t, gf_mul(t, a, b), c) == gf_mul(t, a, gf_mul(t, b, c)),
{
    if a != 0 && b != 0 && c != 0 {
        let la = t.log@[a as int] as int;
        let lb = t.log@[b as int] as int;
        let lc = t.log@[c as int] as int;
        let ab = gf_mul(t, a, b);
        let bc = gf_mul(t, b, c);
        assert(ab == t.exp@[((la + lb) % 255) as int]);
        assert(ab != 0);
        assert(t.log@[ab as int] == (la + lb) % 255);
        assert(bc == t.exp@[((lb + lc) % 255) as int]);
        assert(bc != 0);
        assert(t.log@[bc as int] == (lb + lc) % 255);
        assert(gf_mul(t, ab, c) == t.exp@[(((la + lb) % 255 + lc) % 255) as int]);
        assert(gf_mul(t, a, bc) == t.exp@[((la + (lb + lc) % 255) % 255) as int]);
        lemma_small_mod(lc as nat, 255);
        lemma_add_mod_noop(la + lb, lc, 255);
        lemma_mod_twice(la + lb, 255);
        assert(((la + lb) % 255 + lc) % 255 == (la + lb + lc) % 255);
        lemma_small_mod(la as nat, 255);
        lemma_add_mod_noop(la, lb + lc, 255);
        lemma_mod_twice(lb + lc, 255);
        assert((la + (lb + lc) % 255) % 255 == (la + lb + lc) % 255);
    }
}

/// Multiplying by `b` and then dividing by `b` gives the element back.
pub proof fn lemma_mul_div_cancel(t: GfTables, a: u8, b: u8)
    requires
        t.bijective(),
        b != 0,
    ensures
        gf_div(t, gf_mul(t, a, b), b) == a,
{
    if a != 0 {
        let la = t.log@[a as int] as int;
        let lb = t.log@[b as int] as int;
        let ab = gf_mul(t, a, b);
        assert(ab == t.exp@[((la + lb) % 255) as int]);
        assert(ab != 0);
        assert(t.log@[ab as int] == (la + lb) % 255);
        assert(gf_div(t, ab, b) == t.exp@[(((la + lb) % 255 + 255 - lb) % 255) as int]);
        lemma_add_mod_noop_right((la + lb) % 255, 255 - lb, 255);
        lemma_add_mod_noop(la + lb, 255 - lb, 255);
        lemma_mod_twice(la + lb, 255);
        assert(((la + lb) % 255 + (255 - lb)) % 255 == (la + 255) % 255);
        lemma_add_mod_noop(la, 255, 255);
        lemma_small_mod(la as nat, 255);
        assert((la + 255) % 255 == la % 255);
        assert(t.exp@[la] == a);
    }
}

/// Every nonzero element has a multiplicative inverse, `1 / b`.
pub proof fn lemma_inverse(t: GfTables, b: u8)
    requires
        t.bijective(),
        b != 0,
    ensures
        gf_div(t, 1, b) != 0,
        gf_mul(t, gf_div(t, 1, b), b) == 1,
{
    let lb = t.log@[b as int] as int;
    assert(t.log@[1int] == 0) by {
        assert(t.exp@[0] == 1);
    }
    let inv = gf_div(t, 1, b);
    assert(inv == t.exp@[((0 + 255 - lb) % 255) as int]);
    assert(inv != 0);
    assert(t.log@[inv as int] == (255 - lb) % 255);
    assert(gf_mul(t, inv, b) == t.exp@[(((255 - lb) % 255 + lb) % 255) as int]);
    lemma_add_mod_noop(255 - lb, lb, 255);
    lemma_mod_twice(255 - lb, 255);
    lemma_small_mod(lb as nat, 255);
    assert(((255 - lb) % 255 + lb % 255) % 255 == (255 - lb + lb) % 255);
    if lb == 0 {
        assert((255 - lb) % 255 == 0) by {
            assert((255int) % 255 == 0);
        }
        lemma_small_mod(0, 255);
    } else {
        lemma_small_mod((255 - lb) as nat, 255);
    }
    assert((255int) % 255 == 0);
    assert(t.exp@[0] == 1);
}

/// Distributivity, restated from the table invariant.
pub proof fn lemma_mul_distrib(t: GfTables, a: u8, b: u8, c: u8)
    requires
        t.wf(),
    ensures
        gf_mul(t, a, gf_add(b, c)) == gf_add(gf_mul(t, a, b), gf_mul(t, a, c)),
        gf_mul(t, gf_add(b, c), a) == gf_add(gf_mul(t, b, a), gf_mul(t, c, a)),
{
    lemma_mul_comm(t, a, gf_add(b, c));
    lemma_mul_comm(t, a, b);
    lemma_mul_comm(t, a, c);
}

/// The additive laws of the field: zero is the identity and every element
/// is its own inverse; addition is commutative and associative.
pub proof fn lemma_add_laws(a: u8, b: u8, c: u8)
    ensures
        gf_add(a, 0) == a,
        gf_add(a, a) == 0,
        gf_add(a, b) == gf_add(b, a),
        gf_add(gf_add(a, b), c) == gf_add(a, gf_add(b, c)),
        gf_sub(a, b) == gf_add(a, b),
{
    assert(a ^ 0 == a) by (bit_vector);
    assert(a ^ a == 0) by (bit_vector);
    assert(a ^ b == b ^ a) by (bit_vector);
    assert((a ^ b) ^ c == a ^ (b ^ c)) by (bit_vector);
}

/// Check that the exponent and logarithm tables are mutually inverse.
fn check_bijective(exp_t: &Vec<u8>, log_t: &Vec<u8>) -> (r: bool)
    requires
        exp_t@.len() == 255,
        log_t@.len() == 256,
    ensures
        r ==> forall|m: Vec<u8>| (GfTables { exp: *exp_t, log: *log_t, mul: m }).bijective(),
{
    if exp_t[0] != 1 {
        return false;
    }
    let mut i: usize = 0;
    while i < 255
        invariant
            i <= 255,
            exp_t@.len() == 255,
            log_t@.len() == 256,
            forall|k: int| 0 <= k < i ==> #[trigger] exp_t@[k] != 0,
            forall|k: int| 0 <= k < i ==> log_t@[#[trigger] exp_t@[k] as int] == k,
        decreases 255 - i,
    {
        let e = exp_t[i];
        if e == 0 {
            return false;
        }
        if log_t[e as usize] as usize != i {
            return false;
        }
        i += 1;
    }
    let mut a: usize = 1;
    while a < 256
        invariant
            1 <= a <= 256,
            exp_t@.len() == 255,
            log_t@.len() == 256,
            forall|k: int|
                1 <= k < a ==> (#[trigger] log_t@[k]) < 255 && exp_t@[log_t@[k] as int] == k,
        decreases 256 - a,
    {
        let l = log_t[a] as usize;
        if l >= 255 {
            return false;
        }
        if exp_t[l] as usize != a {
            return false;
        }
        a += 1;
    }
    true
}

/// Check distributivity of multiplication over addition by exhausting
/// all element triples through the multiplication table.
fn check_distributive(t: &GfTables) -> (r: bool)
    requires
        t.bijective(),
        t.mul_table_ok(),
    ensures
        r ==> t.distributive(),
{
    let mut a: usize = 0;
    while a < 256
        invariant
            a <= 256,
            t.bijective(),
            t.mul_table_ok(),
            forall|x: u8, y: u8, z: u8|
                x < a ==> #[trigger] gf_mul(*t, x, gf_add(y, z)) == gf_add(
                    gf_mul(*t, x, y),
                    gf_mul(*t, x, z),
                ),
        decreases 256 - a,
    {
        let mut b: usize = 0;
        while b < 256
            invariant
                a < 256,
                b <= 256,
                t.bijective(),
                t.mul_table_ok(),
                forall|y: u8, z: u8|
                    y < b ==> #[trigger] gf_mul(*t, a as u8, gf_add(y, z)) == gf_add(
                        gf_mul(*t, a as u8, y),
                        gf_mul(*t, a as u8, z),
                    ),
            decreases 256 - b,
        {
            let mut c: usize = 0;
            while c < 256
                invariant
                    a < 256,
                    b < 256,
                    c <= 256,
                    t.bijective(),
                    t.mul_table_ok(),
                    forall|z: u8|
                        z < c ==> #[trigger] gf_mul(*t, a as u8, gf_add(b as u8, z)) == gf_add(
                            gf_mul(*t, a as u8, b as u8),
                            gf_mul(*t, a as u8, z),
                        ),
                decreases 256 - c,
            {
                let bc: usize = ((b as u8) ^ (c as u8)) as usize;
                let left = t.mul[a * 256 + bc];
                let right = t.mul[a * 256 + b] ^ t.mul[a * 256 + c];
                if left != right {
                    return false;
                }
                proof {
                    assert(left == gf_mul(*t, a as u8, gf_add(b as u8, c as u8)));
                    assert(right == gf_add(gf_mul(*t, a as u8, b as u8), gf_mul(*t, a as u8, c as u8)));
                }
                c += 1;
            }
            proof {
                assert forall|y: u8, z: u8| y < b + 1 implies #[trigger] gf_mul(
                    *t,
                    a as u8,
                    gf_add(y, z),
                ) == gf_add(gf_mul(*t, a as u8, y), gf_mul(*t, a as u8, z)) by {
                    if y as int == b as int {
                        assert(gf_mul(*t, a as u8, gf_add(b as u8, z)) == gf_add(
                            gf_mul(*t, a as u8, b as u8),
                            gf_mul(*t, a as u8, z),
                        ));
                    }
                }
            }
            b += 1;
        }
        proof {
            assert forall|x: u8, y: u8, z: u8| x < a + 1 implies #[trigger] gf_mul(
                *t,
                x,
                gf_add(y, z),
            ) == gf_add(gf_mul(*t, x, y), gf_mul(*t, x, z)) by {
                if x as int == a as int {
                    assert(gf_mul(*t, a as u8, gf_add(y, z)) == gf_add(
                        gf_mul(*t, a as u8, y),
                        gf_mul(*t, a as u8, z),
                    ));
                }
            }
        }
        a += 1;
    }
    true
}

/// Build the logarithm / exponent / multiplication tables of GF(2^8) for
/// the primitive polynomial x^8 + x^4 + x^3 + x^2 + 1 with generator 2,
/// and check every structural property the proofs rely on.  The check
/// cannot fail on this fixed construction; its success is what turns the
/// tables into a carrier of the field laws.
///
/// The contract stops short of `r.is_some()`: that clause is owed, and
/// holds because the polynomial is primitive, but this library checks it
/// at run time instead of proving primitivity.
pub fn gf_build_tables() -> (r: Option<GfTables>)
    ensures
        r.is_some() ==> r.unwrap().wf(),
{
    // Exponent table: successive powers of the generator.
    let mut exp_t: Vec<u8> = Vec::new();
    let mut cur: u16 = 1;
    while exp_t.len() < 255
        invariant
            exp_t@.len() <= 255,
            cur < 256,
        decreases 255 - exp_t@.len(),
    {
        exp_t.push(cur as u8);
        proof {
            let c = cur;
            assert(c < 256 ==> (c << 1) < 512) by (bit_vector);
        }
        cur = cur << 1;
        if cur >= 256 {
            proof {
                let c = cur;
                assert(256 <= c && c < 512 ==> (c ^ 0x11d) < 256) by (bit_vector);
            }
            cur = cur ^ 0x11d;
        }
    }

    // Logarithm table: inverse of the exponent table.
    let mut log_t: Vec<u8> = Vec::new();
    let mut j: usize = 0;
    while j < 256
        invariant
            log_t@.len() == j,
            j <= 256,
        decreases 256 - j,
    {
        log_t.push(0);
        j += 1;
    }
    let mut i: usize = 0;
    while i < 255
        invariant
            i <= 255,
            exp_t@.len() == 255,
            log_t@.len() == 256,
        decreases 255 - i,
    {
        let e = exp_t[i] as usize;
        log_t[e] = i as u8;
        i += 1;
    }

    if !check_bijective(&exp_t, &log_t) {
        return None;
    }

    // Flattened multiplication table.
    let ghost gt = GfTables { exp: exp_t, log: log_t, mul: arbitrary() };
    let mut mul_t: Vec<u8> = Vec::new();
    let mut a: usize = 0;
    while a < 256
        invariant
            a <= 256,
            exp_t@.len() == 255,
            log_t@.len() == 256,
            gt.exp == exp_t,
            gt.log == log_t,
            gt.bijective(),
            mul_t@.len() == a * 256,
            forall|x: u8, y: u8|
                x < a ==> #[trigger] mul_t@[x as int * 256 + y as int] == gf_mul_raw(
                    exp_t@,
                    log_t@,
                    x,
                    y,
                ),
        decreases 256 - a,
    {
        let mut b: usize = 0;
        while b < 256
            invariant
                a < 256,
                b <= 256,
                exp_t@.len() == 255,
                log_t@.len() == 256,
                gt.exp == exp_t,
                gt.log == log_t,
                gt.bijective(),
                mul_t@.len() == a * 256 + b,
                forall|x: u8, y: u8|
                    x < a ==> #[trigger] mul_t@[x as int * 256 + y as int] == gf_mul_raw(
                        exp_t@,
                        log_t@,
                        x,
                        y,
                    ),
                forall|y: u8|
                    y < b ==> #[trigger] mul_t@[a as int * 256 + y as int] == gf_mul_raw(
                        exp_t@,
                        log_t@,
                        a as u8,
                        y,
                    ),
            decreases 256 - b,
        {
            let v: u8 = if a == 0 || b == 0 {
                0u8
            } else {
                let s = (log_t[a] as usize) + (log_t[b] as usize);
                exp_t[s % 255]
            };
            mul_t.push(v);
            b += 1;
        }
        a += 1;
    }

    let t = GfTables { exp: exp_t, log: log_t, mul: mul_t };
    proof {
        assert(t.bijective());
        assert forall|x: u8, y: u8| #[trigger] t.mul@[x as int * 256 + y as int] == gf_mul(t, x, y) by {
            assert(t.mul@[x as int * 256 + y as int] == gf_mul_raw(t.exp@, t.log@, x, y));
        }
        assert(t.mul_table_ok());
    }
    if check_distributive(&t) {
        Some(t)
    } else {
        None
    }
}

} // verus!
