//! Sizes and alignments, and rounding up to an alignment.
use vstd::arithmetic::power2::is_pow2;
use vstd::prelude::*;

verus! {

/// Whether `n` is a power of two.
pub open spec fn is_power_of_two(n: usize) -> bool {
    is_pow2(n as int)
}

/// Whether `n` has exactly one bit set.
pub open spec fn has_single_bit(n: usize) -> bool {
    n > 0 && n & ((n - 1) as usize) == 0
}

/// The powers of two are the numbers with exactly one bit set.
pub proof fn lemma_power_of_two_bits(n: usize)
    ensures
        is_power_of_two(n) <==> has_single_bit(n),
    decreases n,
{
    reveal(is_pow2);
    if n == 0 {
    } else if n == 1 {
        assert(1usize & ((1usize - 1) as usize) == 0) by (bit_vector);
    } else {
        let h: usize = n / 2;
        lemma_power_of_two_bits(h);
        assert(has_single_bit(n) <==> (n % 2 == 0 && has_single_bit(h))) by (bit_vector)
            requires
                n > 1,
                h == n / 2,
        ;
    }
}

/// The least multiple of `a` that is not below `x`, for `x >= 0` and `a > 0`.
pub open spec fn round_up(x: int, a: int) -> int {
    ((x + a - 1) / a) * a
}

/// `round_up(x, a)` is a multiple of `a` and lies in `x .. x + a`.
pub proof fn lemma_round_up(x: int, a: int)
    requires
        0 <= x,
        0 < a,
    ensures
        round_up(x, a) % a == 0,
        x <= round_up(x, a) < x + a,
{
    let y = x + a - 1;
    vstd::arithmetic::div_mod::lemma_fundamental_div_mod(y, a);
    vstd::arithmetic::div_mod::lemma_mod_multiples_basic(y / a, a);
    assert(a * (y / a) == (y / a) * a) by (nonlinear_arith);
    assert(0 <= y % a < a) by (nonlinear_arith)
        requires
            0 < a,
    ;
}

/// No multiple of `a` lies in `x .. round_up(x, a)`.
pub proof fn lemma_round_up_least(x: int, a: int, m: int)
    requires
        0 <= x,
        0 < a,
        x <= m,
        m % a == 0,
    ensures
        round_up(x, a) <= m,
{
    lemma_round_up(x, a);
    let r = round_up(x, a);
    if m < r {
        vstd::arithmetic::div_mod::lemma_fundamental_div_mod(m, a);
        vstd::arithmetic::div_mod::lemma_fundamental_div_mod(r, a);
        let p = m / a;
        let q = r / a;
        assert(p < q) by (nonlinear_arith)
            requires
                a * p < a * q,
                0 < a,
        ;
        assert(a * q - a * p >= a) by (nonlinear_arith)
            requires
                p < q,
                0 < a,
        ;
    }
}

/// A value that is already a multiple of `a` is its own rounding.
pub proof fn lemma_round_up_of_multiple(x: int, a: int)
    requires
        0 <= x,
        0 < a,
        x % a == 0,
    ensures
        round_up(x, a) == x,
{
    lemma_round_up(x, a);
    lemma_round_up_least(x, a, x);
}

/// A positive multiple of `a` is at least `a`.
pub proof fn lemma_multiple_at_least(m: int, a: int)
    requires
        0 < a,
        0 < m,
        m % a == 0,
    ensures
        a <= m,
{
    if m < a {
        vstd::arithmetic::div_mod::lemma_small_mod(m as nat, a as nat);
    }
}

/// Masking with a power of two less one takes the remainder.
pub proof fn lemma_mask_is_remainder(y: usize, a: usize)
    requires
        is_power_of_two(a),
    ensures
        y & ((a - 1) as usize) == y % a,
    decreases a,
{
    reveal(is_pow2);
    if a == 1 {
        assert(y & ((1usize - 1) as usize) == 0) by (bit_vector);
    } else {
        let h: usize = a / 2;
        let z: usize = y / 2;
        lemma_mask_is_remainder(z, h);
        assert(y & ((a - 1) as usize) == 2 * (z & ((h - 1) as usize)) + y % 2) by (bit_vector)
            requires
                a > 1,
                a % 2 == 0,
                h == a / 2,
                z == y / 2,
        ;
        vstd::arithmetic::div_mod::lemma_mod_breakdown(y as int, 2, h as int);
    }
}

/// Rounds `x` up to the next multiple of `alignment`, a power of two.
pub fn align(x: usize, alignment: usize) -> (r: usize)
    requires
        is_power_of_two(alignment),
        x + alignment - 1 <= usize::MAX,
    ensures
        r == round_up(x as int, alignment as int),
        r % alignment == 0,
        x <= r < x + alignment,
{
    proof {
        reveal(is_pow2);
        lemma_round_up(x as int, alignment as int);
    }
    let low: usize = alignment - 1;
    let y: usize = x + low;
    assert(y & !low == y - (y & low)) by (bit_vector);
    proof {
        lemma_mask_is_remainder(y, alignment);
        vstd::arithmetic::div_mod::lemma_fundamental_div_mod(y as int, alignment as int);
        assert(alignment * (y / alignment) == (y / alignment) * alignment) by (nonlinear_arith);
    }
    y & !low
}

/// The size and alignment of one component type, in bytes.
///
/// A layout is well formed when its alignment is a power of two and its size
/// is a multiple of its alignment, so that values of the type can be packed
/// back to back.
#[derive(Clone, Copy, Debug, PartialEq, Eq, Structural)]
pub struct Layout {
    size: usize,
    align: usize,
}

impl Layout {
    /// The size in bytes.
    pub closed spec fn spec_size(&self) -> usize {
        self.size
    }

    /// The alignment in bytes.
    pub closed spec fn spec_align(&self) -> usize {
        self.align
    }

    /// Whether a size and an alignment go together.
    pub open spec fn valid(size: usize, align: usize) -> bool {
        is_power_of_two(align) && size % align == 0
    }

    /// Well-formedness: see [`Layout::valid`].
    pub open spec fn wf(&self) -> bool {
        Self::valid(self.spec_size(), self.spec_align())
    }

    /// The layout of the given size and alignment, if they go together.
    pub fn from_size_align(size: usize, align: usize) -> (r: Option<Layout>)
        ensures
            r.is_some() <==> Self::valid(size, align),
            r matches Some(l) ==> l.size() == size && l.align() == align && l.wf(),
    {
        proof {
            lemma_power_of_two_bits(align);
        }
        if align == 0 {
            return None;
        }
        if align & (align - 1) != 0 {
            return None;
        }
        if size % align != 0 {
            return None;
        }
        Some(Layout { size, align })
    }

    /// The layout of values of type `T`.
    pub fn of<T>() -> (r: Layout)
        ensures
            r.wf(),
            r.size() == vstd::layout::size_of::<T>(),
            r.align() == vstd::layout::align_of::<T>(),
    {
        vstd::layout::layout_for_type_is_valid::<T>();
        let size: usize = core::mem::size_of::<T>();
        let align: usize = core::mem::align_of::<T>();
        Layout { size, align }
    }

    /// The size in bytes.
    #[verifier::when_used_as_spec(spec_size)]
    pub fn size(&self) -> (r: usize)
        ensures
            r == self.spec_size(),
    {
        self.size
    }

    /// The alignment in bytes.
    #[verifier::when_used_as_spec(spec_align)]
    pub fn align(&self) -> (r: usize)
        ensures
            r == self.spec_align(),
    {
        self.align
    }
}

} // verus!
