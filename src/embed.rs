use vstd::prelude::*;
use vstd::string::*;

verus! {

/// Algorithm used to hide payload bits in carrier bytes.
#[derive(Debug, Clone, Copy, PartialEq, Eq, Structural)]
pub enum EmbedAlgorithm {
    /// Use the given number of low bits of every carrier byte.
    Lo(u8),
}

/// Errors reported when an algorithm name cannot be understood.
#[derive(Debug, Clone, Copy, PartialEq, Eq, Structural)]
pub enum AlgorithmError {
    /// No digit, or a name other than `lo` before the first digit.
    Unknown,
    /// The text after the name is not a number that fits a byte.
    BadNumber,
    /// The number of bits is outside `[1, 7]`.
    BitsOutOfRange(u8),
}

impl EmbedAlgorithm {
    /// Number of payload bits carried by one carrier byte.
    pub open spec fn bits(self) -> nat {
        match self {
            EmbedAlgorithm::Lo(b) => b as nat,
        }
    }

    /// The algorithm carries between one and seven bits per byte.
    pub open spec fn wf(self) -> bool {
        1 <= self.bits() <= 7
    }

    /// Carrier bytes needed to hold `size` payload bytes.
    pub open spec fn embedded_size_spec(self, size: nat) -> nat
        recommends
            self.wf(),
    {
        ceil_div(size * 8, self.bits())
    }

    /// Largest payload, in bytes, that whole blocks of `block_len` bytes of a
    /// carrier of `carrier_len` bytes can hold.
    pub open spec fn max_size_spec(self, block_len: nat, carrier_len: nat) -> nat
        recommends
            block_len > 0,
    {
        (block_len * (carrier_len / block_len) * self.bits()) / 8
    }

    pub fn bits_per_byte(&self) -> (r: u8)
        ensures
            r as nat == self.bits(),
    {
        match self {
            EmbedAlgorithm::Lo(b) => *b,
        }
    }

    /// Get the size of the data (in bytes) once embedded by the algorithm.
    pub fn embedded_size(&self, size: usize) -> (r: usize)
        requires
            self.wf(),
            size * 8 <= usize::MAX,
        ensures
            r as nat == self.embedded_size_spec(size as nat),
    {
        let b = self.bits_per_byte() as usize;
        let total = size * 8;
        let q = total / b;
        proof {
            lemma_ceil_div(total as nat, b as nat);
        }
        if total % b == 0 {
            q
        } else {
            q + 1
        }
    }

    /// Largest payload size, in bytes, for a carrier of `carrier_len` bytes cut in
    /// blocks of `block_len` bytes.
    pub fn max_size(&self, block_len: usize, carrier_len: usize) -> (r: usize)
        requires
            self.wf(),
            block_len > 0,
        ensures
            r as nat == self.max_size_spec(block_len as nat, carrier_len as nat),
    {
        let blocks = carrier_len / block_len;
        proof {
            lemma_whole_blocks_fit(block_len as nat, carrier_len as nat);
        }
        let usable = block_len * blocks;
        let bits = self.bits_per_byte() as u128;
        assert((usable as u128) * bits <= 7 * (usize::MAX as u128)) by (nonlinear_arith)
            requires
                bits <= 7,
        ;
        let total = (usable as u128) * bits / 8;
        assert(total <= usable) by (nonlinear_arith)
            requires
                total == (usable as int) * (bits as int) / 8,
                bits <= 7,
        ;
        total as usize
    }
}

/// `c` is an ASCII decimal digit.
pub open spec fn is_digit(c: char) -> bool {
    '0' <= c && c <= '9'
}

/// Index of the first decimal digit of `s`, if any.
pub open spec fn first_digit(s: Seq<char>) -> Option<int>
    decreases s.len(),
{
    if s.len() == 0 {
        None
    } else if is_digit(s[0]) {
        Some(0)
    } else {
        match first_digit(s.drop_first()) {
            Some(i) => Some(i + 1),
            None => None,
        }
    }
}

/// The number that a sequence of decimal digits spells.
pub open spec fn decimal_value(s: Seq<char>) -> nat
    decreases s.len(),
{
    if s.len() == 0 {
        0
    } else {
        decimal_value(s.drop_last()) * 10 + (s.last() as nat - '0' as nat) as nat
    }
}

/// What the name of an algorithm stands for: `lo` followed by the number of
/// bits, between one and seven.
pub open spec fn parse_algorithm_spec(s: Seq<char>) -> Result<EmbedAlgorithm, AlgorithmError> {
    match first_digit(s) {
        None => Err(AlgorithmError::Unknown),
        Some(d) => if s.take(d) != seq!['l', 'o'] {
            Err(AlgorithmError::Unknown)
        } else {
            let digits = s.skip(d);
            if !(forall|i: int| 0 <= i < digits.len() ==> is_digit(#[trigger] digits[i]))
                || decimal_value(digits) > 255 {
                Err(AlgorithmError::BadNumber)
            } else if decimal_value(digits) == 0 || decimal_value(digits) > 7 {
                Err(AlgorithmError::BitsOutOfRange(decimal_value(digits) as u8))
            } else {
                Ok(EmbedAlgorithm::Lo(decimal_value(digits) as u8))
            }
        },
    }
}

pub proof fn lemma_first_digit(s: Seq<char>, d: int)
    requires
        0 <= d <= s.len(),
        forall|i: int| 0 <= i < d ==> !is_digit(#[trigger] s[i]),
    ensures
        d < s.len() && is_digit(s[d]) ==> first_digit(s) == Some(d),
        d == s.len() ==> first_digit(s) is None,
    decreases d,
{
    if s.len() > 0 && d > 0 {
        lemma_first_digit(s.drop_first(), d - 1);
    } else if s.len() > 0 && d == 0 {
    }
}

pub proof fn lemma_decimal_monotone(s: Seq<char>, j: int)
    requires
        0 <= j <= s.len(),
        forall|i: int| 0 <= i < s.len() ==> is_digit(#[trigger] s[i]),
    ensures
        decimal_value(s.take(j)) <= decimal_value(s),
    decreases s.len() - j,
{
    if j < s.len() {
        lemma_decimal_monotone(s, j + 1);
        assert(s.take(j + 1).drop_last() =~= s.take(j));
    } else {
        assert(s.take(j) =~= s);
    }
}

/// Reads the name of an algorithm, such as `lo3`.
pub fn parse_algorithm(s: &str) -> (r: Result<EmbedAlgorithm, AlgorithmError>)
    ensures
        r == parse_algorithm_spec(s@),
        r matches Ok(a) ==> a.wf(),
{
    let len = s.unicode_len();
    let mut d: usize = 0;
    while d < len && !(s.get_char(d) >= '0' && s.get_char(d) <= '9')
        invariant
            d <= len,
            len == s@.len(),
            forall|i: int| 0 <= i < d ==> !is_digit(#[trigger] s@[i]),
        decreases len - d,
    {
        d = d + 1;
    }
    proof {
        lemma_first_digit(s@, d as int);
    }
    if d == len {
        return Err(AlgorithmError::Unknown);
    }
    if !(d == 2 && s.get_char(0) == 'l' && s.get_char(1) == 'o') {
        proof {
            if s@.take(d as int) == seq!['l', 'o'] {
                assert(s@.take(d as int).len() == 2);
                assert(d == 2);
                assert(s@.take(d as int)[0] == 'l');
                assert(s@.take(d as int)[1] == 'o');
                assert(s@[0] == 'l' && s@[1] == 'o');
            }
        }
        return Err(AlgorithmError::Unknown);
    }
    assert(s@.take(d as int) =~= seq!['l', 'o']);
    let ghost digits = s@.skip(d as int);
    let mut value: u32 = 0;
    let mut i: usize = d;
    while i < len
        invariant
            d <= i <= len,
            len == s@.len(),
            digits == s@.skip(d as int),
            first_digit(s@) == Some(d as int),
            s@.take(d as int) == seq!['l', 'o'],
            forall|j: int| 0 <= j < i - d ==> is_digit(#[trigger] digits[j]),
            value == decimal_value(digits.take(i - d)),
            value <= 255,
        decreases len - i,
    {
        let c = s.get_char(i);
        if !(c >= '0' && c <= '9') {
            assert(c == digits[i - d]);
            assert(!is_digit(digits[i - d]));
            assert(!(forall|j: int| 0 <= j < digits.len() ==> is_digit(#[trigger] digits[j])));
            return Err(AlgorithmError::BadNumber);
        }
        let next = value * 10 + (c as u32 - '0' as u32);
        proof {
            assert(c == digits[i - d]);
            assert(digits.take(i - d + 1).drop_last() =~= digits.take(i - d));
            assert(digits.take(i - d + 1).last() == c);
            assert(next == decimal_value(digits.take(i - d + 1)));
        }
        if next > 255 {
            proof {
                if forall|j: int| 0 <= j < digits.len() ==> is_digit(#[trigger] digits[j]) {
                    lemma_decimal_monotone(digits, i - d + 1);
                }
            }
            return Err(AlgorithmError::BadNumber);
        }
        value = next;
        i = i + 1;
    }
    assert(digits.take(i - d) =~= digits);
    if value == 0 || value > 7 {
        return Err(AlgorithmError::BitsOutOfRange(value as u8));
    }
    Ok(EmbedAlgorithm::Lo(value as u8))
}

impl std::str::FromStr for EmbedAlgorithm {
    type Err = AlgorithmError;

    fn from_str(s: &str) -> Result<EmbedAlgorithm, AlgorithmError> {
        parse_algorithm(s)
    }
}

/// Ceiling of `a / b`.
pub open spec fn ceil_div(a: nat, b: nat) -> nat
    recommends
        b > 0,
{
    ((a + b - 1) as nat) / b
}

/// Ceiling division rounds up exactly when the division leaves a remainder.
pub proof fn lemma_ceil_div(a: nat, b: nat)
    requires
        b > 0,
    ensures
        ceil_div(a, b) == a / b + (if a % b == 0 { 0nat } else { 1nat }),
{
    vstd::arithmetic::div_mod::lemma_fundamental_div_mod(a as int, b as int);
    vstd::arithmetic::div_mod::lemma_mod_pos_bound(a as int, b as int);
    let q = a / b;
    let r = a % b;
    if r == 0 {
        assert(a + b - 1 == b * q + (b - 1));
        vstd::arithmetic::div_mod::lemma_div_multiples_vanish_fancy(q as int, (b - 1) as int, b as int);
    } else {
        assert(a + b - 1 == b * (q + 1) + (r - 1)) by (nonlinear_arith)
            requires
                a == b * q + r,
        ;
        vstd::arithmetic::div_mod::lemma_div_multiples_vanish_fancy((q + 1) as int, (r - 1) as int, b as int);
    }
}

/// A ceiling quotient is at most `c` exactly when the dividend is at most `b * c`.
pub proof fn lemma_ceil_div_le(a: nat, b: nat, c: nat)
    requires
        b > 0,
    ensures
        ceil_div(a, b) <= c <==> a <= b * c,
{
    lemma_ceil_div(a, b);
    vstd::arithmetic::div_mod::lemma_fundamental_div_mod(a as int, b as int);
    vstd::arithmetic::div_mod::lemma_mod_pos_bound(a as int, b as int);
    let q = a / b;
    let r = a % b;
    if r == 0 {
        assert(q <= c <==> b * q <= b * c) by (nonlinear_arith)
            requires
                b > 0,
        ;
    } else {
        assert(q + 1 <= c <==> b * q + r <= b * c) by (nonlinear_arith)
            requires
                b > 0,
                0 < r < b,
        ;
    }
}

/// A floor quotient by eight is at least `s` exactly when the dividend is at
/// least `8 * s`.
pub proof fn lemma_le_div8(s: nat, x: nat)
    ensures
        s <= x / 8 <==> 8 * s <= x,
{
    vstd::arithmetic::div_mod::lemma_fundamental_div_mod(x as int, 8);
    vstd::arithmetic::div_mod::lemma_mod_pos_bound(x as int, 8);
}

/// Blocks of `block_len` bytes that a payload of `size` bytes needs.
pub open spec fn blocks_needed(alg: EmbedAlgorithm, size: nat, block_len: nat) -> nat {
    ceil_div(alg.embedded_size_spec(size), block_len)
}

/// A payload fits in the whole blocks of a carrier exactly when it is no
/// larger than the algorithm's maximum size for that carrier: at the maximum
/// it fits, one byte more does not.
pub proof fn lemma_capacity_boundary(alg: EmbedAlgorithm, size: nat, block_len: nat, carrier_len: nat)
    requires
        alg.wf(),
        block_len > 0,
    ensures
        blocks_needed(alg, size, block_len) <= carrier_len / block_len <==> size
            <= alg.max_size_spec(block_len, carrier_len),
        blocks_needed(alg, alg.max_size_spec(block_len, carrier_len), block_len) <= carrier_len
            / block_len,
        blocks_needed(alg, alg.max_size_spec(block_len, carrier_len) + 1, block_len) > carrier_len
            / block_len,
{
    let n = alg.bits();
    let m = carrier_len / block_len;
    let total = block_len * m * n;
    assert forall|s: nat|
        blocks_needed(alg, s, block_len) <= m <==> s <= alg.max_size_spec(block_len, carrier_len) by {
        let c = alg.embedded_size_spec(s);
        lemma_ceil_div_le(c, block_len, m);
        lemma_ceil_div_le(s * 8, n, block_len * m);
        lemma_le_div8(s, total);
        assert(n * (block_len * m) == total) by (nonlinear_arith)
            requires
                total == block_len * m * n,
        ;
    }
}

/// Whole blocks never reach past the carrier's end.
pub proof fn lemma_whole_blocks_fit(block_len: nat, carrier_len: nat)
    requires
        block_len > 0,
    ensures
        block_len * (carrier_len / block_len) <= carrier_len,
{
    vstd::arithmetic::div_mod::lemma_fundamental_div_mod(carrier_len as int, block_len as int);
    vstd::arithmetic::div_mod::lemma_mod_pos_bound(carrier_len as int, block_len as int);
}

} // verus!
