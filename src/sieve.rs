use vstd::prelude::*;

verus! {

/// Number of bits in the table.
pub const MAXBITS: usize = 65536;

/// Sieving with the numbers below this suffices for the whole table.
pub const SQRT_MAXBITS: usize = 256;

/// Bit `b` of `w` is set.
pub open spec fn bit_of(w: u64, b: u64) -> bool {
    (w >> b) & 1u64 == 1u64
}

/// No `d` in `2..hi` below `k` divides `k`.
pub open spec fn no_divisor(k: int, hi: int) -> bool {
    forall|d: int| 2 <= d < hi && d < k ==> #[trigger] (k % d) != 0
}

pub open spec fn is_prime_number(k: int) -> bool {
    k >= 2 && no_divisor(k, k)
}

/// Number of primes below `k`.
pub open spec fn prime_count(k: int) -> nat
    decreases k,
{
    if k <= 0 {
        0
    } else {
        prime_count(k - 1) + if is_prime_number(k - 1) {
            1nat
        } else {
            0nat
        }
    }
}

/// Number of set bits of `w` below bit `b`.
pub open spec fn word_ones(w: u64, b: int) -> nat
    decreases b,
{
    if b <= 0 {
        0
    } else {
        word_ones(w, b - 1) + if bit_of(w, (b - 1) as u64) {
            1nat
        } else {
            0nat
        }
    }
}

proof fn lemma_all_ones(b: u64)
    requires
        b < 64,
    ensures
        bit_of(0xFFFF_FFFF_FFFF_FFFFu64, b),
{
    assert((0xFFFF_FFFF_FFFF_FFFFu64 >> b) & 1u64 == 1u64) by (bit_vector)
        requires
            b < 64,
    ;
}

proof fn lemma_clear_bit(w: u64, b: u64, c: u64)
    requires
        b < 64,
        c < 64,
    ensures
        bit_of(w & !(1u64 << b), c) == (c != b && bit_of(w, c)),
{
    assert(((w & !(1u64 << b)) >> c) & 1u64 == 1u64 <==> (c != b && (w >> c) & 1u64 == 1u64))
        by (bit_vector)
        requires
            b < 64,
            c < 64,
    ;
}

proof fn lemma_test_bit(w: u64, b: u64)
    requires
        b < 64,
    ensures
        ((w & (1u64 << b)) == (1u64 << b)) == bit_of(w, b),
{
    assert(((w & (1u64 << b)) == (1u64 << b)) == ((w >> b) & 1u64 == 1u64)) by (bit_vector)
        requires
            b < 64,
    ;
}

/// A divisor of a divisor of `k` divides `k`.
proof fn lemma_divides_trans(k: int, i: int, d: int)
    requires
        0 < d,
        0 < i,
        0 <= k,
        k % i == 0,
        i % d == 0,
    ensures
        k % d == 0,
{
    vstd::arithmetic::div_mod::lemma_fundamental_div_mod(k, i);
    vstd::arithmetic::div_mod::lemma_fundamental_div_mod(i, d);
    let q1 = k / i;
    let q2 = i / d;
    assert(k == d * (q2 * q1)) by (nonlinear_arith)
        requires
            k == i * q1,
            i == d * q2,
    ;
    vstd::arithmetic::div_mod::lemma_mod_multiples_basic(q2 * q1, d);
    assert((q2 * q1) * d == d * (q2 * q1)) by (nonlinear_arith);
}

/// A multiple of `i` above `i` is at least `2 * i`.
proof fn lemma_next_multiple(k: int, i: int)
    requires
        0 < i < k,
        k % i == 0,
    ensures
        2 * i <= k,
{
    vstd::arithmetic::div_mod::lemma_fundamental_div_mod(k, i);
    let q = k / i;
    assert(q >= 2) by (nonlinear_arith)
        requires
            k == i * q,
            0 < i < k,
    ;
    assert(2 * i <= k) by (nonlinear_arith)
        requires
            k == i * q,
            q >= 2,
            i > 0,
    ;
}

/// Below `65536`, a number with no divisor under `256` has none at all.
proof fn lemma_small_divisor(k: int)
    requires
        2 <= k < 65536,
        no_divisor(k, 256),
    ensures
        no_divisor(k, k),
{
    assert forall|d: int| 2 <= d < k && d < k implies #[trigger] (k % d) != 0 by {
        if k % d == 0 {
            vstd::arithmetic::div_mod::lemma_fundamental_div_mod(k, d);
            let e = k / d;
            assert(e >= 2) by (nonlinear_arith)
                requires
                    k == d * e,
                    2 <= d < k,
            ;
            let m = if d <= e {
                d
            } else {
                e
            };
            assert(m * m <= k) by (nonlinear_arith)
                requires
                    k == d * e,
                    m == d || m == e,
                    m <= d,
                    m <= e,
                    m >= 0,
            ;
            assert(m < 256) by (nonlinear_arith)
                requires
                    m * m < 65536,
                    m >= 0,
            ;
            if m == e {
                assert(k == e * d) by (nonlinear_arith)
                    requires
                        k == d * e,
                ;
                vstd::arithmetic::div_mod::lemma_mod_multiples_basic(d, e);
                assert(d * e == k) by (nonlinear_arith)
                    requires
                        k == d * e,
                ;
            }
            assert(k % m == 0);
            assert(m < k);
        }
    }
}

proof fn lemma_shift_right(w: u64, s: u64, k: u64)
    requires
        s < 64,
        k < 64,
    ensures
        bit_of(w >> s, k) == (s + k < 64 && bit_of(w, (s + k) as u64)),
{
    assert(((w >> s) >> k) & 1u64 == 1u64 <==> (s + k < 64 && (w >> ((s + k) as u64)) & 1u64
        == 1u64)) by (bit_vector)
        requires
            s < 64,
            k < 64,
    ;
}

proof fn lemma_shift_left(w: u64, s: u64, c: u64)
    requires
        s < 64,
        c < 64,
    ensures
        bit_of(w << s, c) == (c >= s && bit_of(w, (c - s) as u64)),
{
    assert(((w << s) >> c) & 1u64 == 1u64 <==> (c >= s && (w >> ((c - s) as u64)) & 1u64
        == 1u64)) by (bit_vector)
        requires
            s < 64,
            c < 64,
    ;
}

proof fn lemma_or_bit(a: u64, b: u64, k: u64)
    requires
        k < 64,
    ensures
        bit_of(a | b, k) == (bit_of(a, k) || bit_of(b, k)),
{
    assert(((a | b) >> k) & 1u64 == 1u64 <==> ((a >> k) & 1u64 == 1u64 || (b >> k) & 1u64
        == 1u64)) by (bit_vector)
        requires
            k < 64,
    ;
}

/// A table of one bit per number below `MAXBITS`, set exactly for the
/// primes.
pub struct PrimeBits {
    primes: Vec<u64>,
}

impl PrimeBits {
    /// Bit `k` of the table.
    pub closed spec fn bit(&self, k: int) -> bool {
        bit_of(self.primes@[k / 64], (k % 64) as u64)
    }

    pub closed spec fn words_ok(&self) -> bool {
        self.primes@.len() == 1024
    }

    /// The table is the sieve: bit `k` is set when `k` is prime.
    pub closed spec fn wf(&self) -> bool {
        &&& self.words_ok()
        &&& forall|k: int| 0 <= k < MAXBITS ==> #[trigger] self.bit(k) == is_prime_number(k)
    }

    /// Quotient and remainder of `n` by 64.
    fn bit_div_mod64(n: u64) -> (r: (u64, u64))
        ensures
            r.0 == n / 64,
            r.1 == n % 64,
    {
        let q = n >> 6;
        let r = n & 0x3F;
        assert(q == n / 64) by (bit_vector)
            requires
                q == n >> 6,
        ;
        assert(r == n % 64) by (bit_vector)
            requires
                r == n & 0x3F,
        ;
        (q, r)
    }

    /// Clears bit `n`.
    fn clear(&mut self, n: usize)
        requires
            old(self).words_ok(),
            n < MAXBITS,
        ensures
            final(self).words_ok(),
            !final(self).bit(n as int),
            forall|k: int| 0 <= k < MAXBITS && k != n ==> #[trigger] final(self).bit(k) == old(self).bit(k),
    {
        let (elem, bit) = Self::bit_div_mod64(n as u64);
        let ghost before = *self;
        let w = self.primes[elem as usize];
        self.primes.set(elem as usize, w & !(1u64 << bit));
        proof {
            lemma_clear_bit(w, bit, bit);
            assert forall|k: int| 0 <= k < MAXBITS && k != n implies #[trigger] self.bit(k) == before.bit(k) by {
                if k / 64 == elem as int {
                    let c = (k % 64) as u64;
                    lemma_clear_bit(w, bit, c);
                    assert(c != bit) by {
                        vstd::arithmetic::div_mod::lemma_fundamental_div_mod(k, 64);
                        vstd::arithmetic::div_mod::lemma_fundamental_div_mod(n as int, 64);
                    }
                }
            }
        }
    }

    /// Whether bit `n` is set.
    fn is_set(&self, n: usize) -> (r: bool)
        requires
            self.words_ok(),
            n < MAXBITS,
        ensures
            r == self.bit(n as int),
    {
        let (elem, bit) = Self::bit_div_mod64(n as u64);
        let mask: u64 = 1 << bit;
        proof {
            lemma_test_bit(self.primes@[elem as int], bit);
        }
        self.primes[elem as usize] & mask == mask
    }

    /// Whether `n` is prime; `None` for `n` past the table.
    pub fn is_prime(&self, n: usize) -> (r: Option<bool>)
        requires
            self.wf(),
        ensures
            n >= MAXBITS ==> r is None,
            n < MAXBITS ==> r == Some(is_prime_number(n as int)),
    {
        if n >= MAXBITS {
            None
        } else {
            Some(self.is_set(n))
        }
    }

    /// Word `i` of the table: bits `64 * i .. 64 * i + 64`, lowest first.
    pub fn word(&self, i: usize) -> (w: u64)
        requires
            self.wf(),
            i < 1024,
        ensures
            forall|b: u64| b < 64 ==> #[trigger] bit_of(w, b) == is_prime_number(64 * i + b),
    {
        proof {
            assert forall|b: u64| b < 64 implies #[trigger] bit_of(self.primes@[i as int], b)
                == is_prime_number(64 * i + b) by {
                let k = 64 * i + b;
                vstd::arithmetic::div_mod::lemma_fundamental_div_mod_converse(k, 64, i as int, b as int);
                assert(k / 64 == i && k % 64 == b);
                assert(self.bit(k) == is_prime_number(k));
            }
        }
        self.primes[i]
    }

    /// Bit `64 * e + b` of the table is bit `b` of word `e`.
    proof fn lemma_word_bit(&self, e: int, b: int)
        requires
            self.wf(),
            0 <= e < 1024,
            0 <= b < 64,
        ensures
            bit_of(self.primes@[e], b as u64) == is_prime_number(64 * e + b),
    {
        let k = 64 * e + b;
        vstd::arithmetic::div_mod::lemma_fundamental_div_mod_converse(k, 64, e, b);
        assert(self.bit(k) == is_prime_number(k));
    }

    /// Number of set bits of `w`.
    fn ones(w: u64) -> (r: usize)
        ensures
            r == word_ones(w, 64),
            r <= 64,
    {
        let mut count: usize = 0;
        let mut b: u64 = 0;
        while b < 64
            invariant
                0 <= b <= 64,
                count == word_ones(w, b as int),
                count <= b,
            decreases 64 - b,
        {
            if (w >> b) & 1 == 1 {
                count += 1;
            }
            b += 1;
        }
        count
    }

    proof fn lemma_count_word(&self, e: int, b: int)
        requires
            self.wf(),
            0 <= e < 1024,
            0 <= b <= 64,
        ensures
            prime_count(64 * e + b) == prime_count(64 * e) + word_ones(self.primes@[e], b),
        decreases b,
    {
        if b > 0 {
            self.lemma_count_word(e, b - 1);
            self.lemma_word_bit(e, b - 1);
        }
    }

    /// Number of primes below `MAXBITS`.
    pub fn num_primes(&self) -> (r: usize)
        requires
            self.wf(),
        ensures
            r == prime_count(MAXBITS as int),
    {
        let mut num: usize = 0;
        let mut e: usize = 0;
        while e < 1024
            invariant
                self.wf(),
                0 <= e <= 1024,
                num == prime_count(64 * e),
                num <= 64 * e,
            decreases 1024 - e,
        {
            proof {
                self.lemma_count_word(e as int, 64);
            }
            let c = Self::ones(self.primes[e]);
            num = num + c;
            e += 1;
        }
        num
    }

    /// The `n` bits of the table from bit `m` on, bit `m` lowest.
    pub fn extract(&self, m: u64, n: u64) -> (r: u64)
        requires
            self.wf(),
            0 < n <= 64,
            m + n <= MAXBITS,
        ensures
            forall|k: u64| k < 64 ==> #[trigger] bit_of(r, k) == (k < n && is_prime_number(m + k)),
    {
        let (elem1, bit1) = Self::bit_div_mod64(m);
        let (elem2, bit2) = Self::bit_div_mod64(m + n);
        proof {
            vstd::arithmetic::div_mod::lemma_fundamental_div_mod(m as int, 64);
            vstd::arithmetic::div_mod::lemma_fundamental_div_mod((m + n) as int, 64);
        }
        if n == 64 && bit1 == 0 {
            let r = self.primes[elem1 as usize];
            proof {
                assert forall|k: u64| k < 64 implies #[trigger] bit_of(r, k) == (k < n
                    && is_prime_number(m + k)) by {
                    self.lemma_word_bit(elem1 as int, k as int);
                }
            }
            return r;
        }
        if bit2 == 0 {
            assert(elem2 == elem1 + 1 && bit1 == 64 - n);
            let r = self.primes[elem1 as usize] >> (64 - n);
            proof {
                assert forall|k: u64| k < 64 implies #[trigger] bit_of(r, k) == (k < n
                    && is_prime_number(m + k)) by {
                    lemma_shift_right(self.primes@[elem1 as int], (64 - n) as u64, k);
                    if k < n {
                        self.lemma_word_bit(elem1 as int, (bit1 + k) as int);
                    }
                }
            }
            return r;
        }
        if elem1 == elem2 {
            // section from a single element
            let mut result = self.primes[elem1 as usize];
            let ghost w = result;
            result <<= 64 - bit2;
            let ghost x = result;
            let r = result >> (64 - n);
            proof {
                assert(bit2 == bit1 + n);
                assert forall|k: u64| k < 64 implies #[trigger] bit_of(r, k) == (k < n
                    && is_prime_number(m + k)) by {
                    lemma_shift_right(x, (64 - n) as u64, k);
                    if k < n {
                        lemma_shift_left(w, (64 - bit2) as u64, (64 - n + k) as u64);
                        self.lemma_word_bit(elem1 as int, (bit1 + k) as int);
                    }
                }
            }
            return r;
        }
        // section split across two elements
        assert(elem2 == elem1 + 1 && bit1 + n == 64 + bit2);
        let mut back = self.primes[elem1 as usize];
        let ghost w1 = back;
        back >>= bit1;
        let mut result = self.primes[elem2 as usize];
        let ghost w2 = result;
        result <<= 64 - bit2;
        let ghost x = result;
        result >>= 64 - n;
        let ghost y = result;
        let r = result | back;
        proof {
            assert forall|k: u64| k < 64 implies #[trigger] bit_of(r, k) == (k < n
                && is_prime_number(m + k)) by {
                lemma_or_bit(y, back, k);
                lemma_shift_right(w1, bit1, k);
                lemma_shift_right(x, (64 - n) as u64, k);
                if k < n {
                    lemma_shift_left(w2, (64 - bit2) as u64, (64 - n + k) as u64);
                }
                if bit1 + k < 64 {
                    self.lemma_word_bit(elem1 as int, (bit1 + k) as int);
                } else if k < n {
                    self.lemma_word_bit(elem2 as int, (bit1 + k - 64) as int);
                }
            }
        }
        r
    }

    /// Fills the table by the sieve of Eratosthenes.
    pub fn new() -> (p: PrimeBits)
        ensures
            p.wf(),
    {
        let mut words: Vec<u64> = Vec::new();
        let mut w: usize = 0;
        while w < 1024
            invariant
                0 <= w <= 1024,
                words@.len() == w,
                forall|i: int| 0 <= i < w ==> #[trigger] words@[i] == 0xFFFF_FFFF_FFFF_FFFFu64,
            decreases 1024 - w,
        {
            words.push(0xFFFF_FFFF_FFFF_FFFFu64);
            w += 1;
        }
        let mut p = PrimeBits { primes: words };
        proof {
            assert forall|k: int| 0 <= k < MAXBITS implies #[trigger] p.bit(k) by {
                lemma_all_ones((k % 64) as u64);
            }
        }
        p.clear(0);
        p.clear(1);
        let mut i: usize = 2;
        while i < SQRT_MAXBITS
            invariant
                2 <= i <= SQRT_MAXBITS,
                p.words_ok(),
                forall|k: int| 0 <= k < MAXBITS ==> #[trigger] p.bit(k) == (k >= 2 && no_divisor(k, i as int)),
            decreases SQRT_MAXBITS - i,
        {
            if p.is_set(i) {
                let mut j = i * 2;
                proof {
                    vstd::arithmetic::div_mod::lemma_mod_multiples_basic(2, i as int);
                    assert(2 * i == i * 2);
                }
                while j < MAXBITS
                    invariant
                        2 <= i < SQRT_MAXBITS,
                        p.words_ok(),
                        2 * i <= j <= MAXBITS + i,
                        j % i == 0,
                        forall|k: int|
                            0 <= k < MAXBITS ==> #[trigger] p.bit(k) == (k >= 2 && no_divisor(k, i as int)
                                && !(k % i as int == 0 && 2 * i <= k < j)),
                    decreases MAXBITS + i - j,
                {
                    p.clear(j);
                    proof {
                        vstd::arithmetic::div_mod::lemma_mod_add_multiples_vanish(j as int, i as int);
                    }
                    j += i;
                    proof {
                        assert forall|k: int| 0 <= k < MAXBITS implies #[trigger] p.bit(k) == (k >= 2
                            && no_divisor(k, i as int) && !(k % i as int == 0 && 2 * i <= k < j)) by {
                            let ii = i as int;
                            let jj = j as int - ii;
                            if k % ii == 0 && jj < k < jj + ii {
                                vstd::arithmetic::div_mod::lemma_fundamental_div_mod(k, ii);
                                vstd::arithmetic::div_mod::lemma_fundamental_div_mod(jj, ii);
                                let q1 = k / ii;
                                let q2 = jj / ii;
                                assert(false) by (nonlinear_arith)
                                    requires
                                        k == ii * q1,
                                        jj == ii * q2,
                                        jj < k < jj + ii,
                                        ii > 0,
                                ;
                            }
                        }
                    }
                }
                proof {
                    assert forall|k: int| 0 <= k < MAXBITS implies #[trigger] p.bit(k) == (k >= 2
                        && no_divisor(k, i + 1)) by {
                        if k % i as int == 0 && i < k {
                            lemma_next_multiple(k, i as int);
                        }
                        assert(no_divisor(k, i + 1) == (no_divisor(k, i as int) && !(i < k && k % i as int
                            == 0)));
                    }
                }
            } else {
                proof {
                    assert(!no_divisor(i as int, i as int));
                    let d = choose|d: int| 2 <= d < i && d < i && #[trigger] ((i as int) % d) != 0 == false;
                    assert forall|k: int| 0 <= k < MAXBITS implies #[trigger] p.bit(k) == (k >= 2
                        && no_divisor(k, i + 1)) by {
                        if k >= 2 && no_divisor(k, i as int) && i < k && k % i as int == 0 {
                            lemma_divides_trans(k, i as int, d);
                            assert(k % d != 0);
                        }
                        assert(no_divisor(k, i + 1) == (no_divisor(k, i as int) && !(i < k && k % i as int
                            == 0)));
                    }
                }
            }
            i += 1;
        }
        proof {
            assert forall|k: int| 0 <= k < MAXBITS implies #[trigger] p.bit(k) == is_prime_number(k) by {
                if k >= 2 && no_divisor(k, 256) {
                    lemma_small_divisor(k);
                }
                if is_prime_number(k) {
                    assert(no_divisor(k, 256));
                }
            }
        }
        p
    }
}

} // verus!
