//! Allocation requests and address alignment.
use vstd::prelude::*;

verus! {

/// `n` is a power of two.
pub open spec fn is_pow2(n: int) -> bool
    decreases n,
{
    if n <= 0 {
        false
    } else if n == 1 {
        true
    } else {
        n % 2 == 0 && is_pow2(n / 2)
    }
}

/// The largest value of `isize`, the bound on the size of any allocation.
pub const ISIZE_MAX: usize = usize::MAX / 2;

/// Two byte ranges `[a, a + s)` and `[b, b + t)` share no byte.
pub open spec fn disjoint(a: int, s: int, b: int, t: int) -> bool {
    a + s <= b || b + t <= a
}

/// `addr` rounded up to the next multiple of `align`.
pub open spec fn align_up_spec(addr: int, align: int) -> int {
    if addr % align == 0 {
        addr
    } else {
        addr - addr % align + align
    }
}

/// Every power of two at least `a` is a multiple of the power of two `a`.
pub proof fn lemma_pow2_divides(a: int, b: int)
    requires
        is_pow2(a),
        is_pow2(b),
        a <= b,
    ensures
        b % a == 0,
    decreases b,
{
    if b == a {
    } else {
        assert(b != 1) by {
            if b == 1 {
                assert(a <= 1);
                assert(a >= 1) by { lemma_pow2_positive(a); }
            }
        }
        lemma_pow2_positive(a);
        assert(a <= b / 2) by {
            // a is a power of two below b, so it is at most half of b
            lemma_pow2_le_half(a, b);
        }
        lemma_pow2_divides(a, b / 2);
        let q = b / 2;
        assert(b == 2 * q);
        assert(q % a == 0);
        let k = q / a;
        assert(q == k * a) by (nonlinear_arith) requires q % a == 0, a > 0, k == q / a;
        assert(b == (2 * k) * a) by (nonlinear_arith) requires q == k * a, b == 2 * q;
        vstd::arithmetic::div_mod::lemma_mod_multiples_basic(2 * k, a);
    }
}

/// Eight is a power of two.
pub proof fn lemma_pow2_8()
    ensures
        is_pow2(8),
{
    reveal_with_fuel(is_pow2, 4);
}

proof fn lemma_pow2_positive(a: int)
    requires
        is_pow2(a),
    ensures
        a >= 1,
{
}

proof fn lemma_pow2_le_half(a: int, b: int)
    requires
        is_pow2(a),
        is_pow2(b),
        a < b,
    ensures
        a <= b / 2,
    decreases b,
{
    if a == 1 {
        assert(b >= 2);
    } else {
        assert(b != 1);
        lemma_pow2_le_half(a / 2, b / 2);
    }
}

/// A multiple of `b` is a multiple of every divisor `a` of `b`.
pub proof fn lemma_mod_of_multiple(x: int, a: int, b: int)
    requires
        a > 0,
        b > 0,
        b % a == 0,
        x % b == 0,
    ensures
        x % a == 0,
{
    let k = x / b;
    let m = b / a;
    assert(x == k * b) by (nonlinear_arith) requires x % b == 0, b > 0, k == x / b;
    assert(b == m * a) by (nonlinear_arith) requires b % a == 0, a > 0, m == b / a;
    assert(x == (k * m) * a) by (nonlinear_arith) requires x == k * b, b == m * a;
    assert(((k * m) * a) % a == 0) by (nonlinear_arith) requires a > 0;
}

/// Facts about rounding up to a positive alignment.
pub proof fn lemma_align_up(addr: int, align: int)
    requires
        addr >= 0,
        align > 0,
    ensures
        align_up_spec(addr, align) % align == 0,
        addr <= align_up_spec(addr, align) < addr + align,
{
    let r = addr % align;
    let q = addr / align;
    assert(addr == q * align + r && 0 <= r < align) by (nonlinear_arith)
        requires align > 0, r == addr % align, q == addr / align;
    if r != 0 {
        assert((addr - r + align) == (q + 1) * align) by (nonlinear_arith)
            requires addr == q * align + r;
        assert(((q + 1) * align) % align == 0) by (nonlinear_arith) requires align > 0;
    }
}

/// Returns whether `n` is a power of two.
pub fn is_power_of_two(n: usize) -> (r: bool)
    ensures
        r == is_pow2(n as int),
{
    if n == 0 {
        return false;
    }
    let mut m: usize = n;
    while m > 1 && m % 2 == 0
        invariant
            m >= 1,
            is_pow2(n as int) == is_pow2(m as int),
        decreases m,
    {
        m = m / 2;
    }
    m == 1
}

/// Rounds `addr` up to the next multiple of `align`, or `None` where that
/// multiple does not fit in a `usize`.
pub fn align_up(addr: usize, align: usize) -> (r: Option<usize>)
    requires
        align > 0,
    ensures
        r.is_some() <==> align_up_spec(addr as int, align as int) <= usize::MAX,
        r.is_some() ==> r.unwrap() == align_up_spec(addr as int, align as int),
{
    proof {
        lemma_align_up(addr as int, align as int);
    }
    let rem = addr % align;
    if rem == 0 {
        Some(addr)
    } else {
        assert(0 < rem < align);
        assert(rem <= addr) by {
            vstd::arithmetic::div_mod::lemma_mod_decreases(addr as nat, align as nat);
        }
        if addr - rem > usize::MAX - align {
            None
        } else {
            Some(addr - rem + align)
        }
    }
}

/// The size and alignment of an allocation request.
#[derive(Clone, Copy, Debug, PartialEq, Eq, Structural)]
pub struct Layout {
    pub size: usize,
    pub align: usize,
}

impl Layout {
    /// A layout is valid when its alignment is a power of two and its size,
    /// rounded up to the alignment, still fits in an `isize`.
    pub open spec fn wf(&self) -> bool {
        &&& is_pow2(self.align as int)
        &&& self.size + self.align - 1 <= ISIZE_MAX
    }

    /// Builds a layout, or `None` where `align` is not a power of two or the
    /// size rounded up to it overflows an `isize`.
    pub fn from_size_align(size: usize, align: usize) -> (r: Option<Layout>)
        ensures
            r.is_some() <==> (is_pow2(align as int) && size + align - 1 <= ISIZE_MAX),
            r.is_some() ==> r.unwrap() == (Layout { size, align }),
    {
        if !is_power_of_two(align) {
            return None;
        }
        if align - 1 > ISIZE_MAX || size > ISIZE_MAX - (align - 1) {
            return None;
        }
        Some(Layout { size, align })
    }

    /// This layout with its alignment raised to at least `align`, or `None`
    /// where `align` is not a power of two or the size, rounded up to the new
    /// alignment, would no longer fit in an `isize`.
    pub fn align_to(&self, align: usize) -> (r: Option<Layout>)
        requires
            self.wf(),
        ensures
            ({
                let a = if align > self.align { align } else { self.align };
                &&& r.is_some() <==> (is_pow2(align as int) && self.size + a - 1 <= ISIZE_MAX)
                &&& r.is_some() ==> r.unwrap() == (Layout { size: self.size, align: a })
            }),
    {
        if !is_power_of_two(align) {
            return None;
        }
        let a = if align > self.align {
            align
        } else {
            self.align
        };
        Layout::from_size_align(self.size, a)
    }

    pub fn size(&self) -> (r: usize)
        ensures
            r == self.size,
    {
        self.size
    }

    pub fn align(&self) -> (r: usize)
        ensures
            r == self.align,
    {
        self.align
    }
}

/// An allocator that serves every request with an alignment of at least `N`.
pub struct AlignedAlloc<const N: usize>;

impl<const N: usize> AlignedAlloc<N> {
    /// The layout that is asked of the underlying allocator for `layout`.
    pub fn layout_for(layout: Layout) -> (r: Option<Layout>)
        requires
            layout.wf(),
        ensures
            ({
                let a = if N > layout.align { N } else { layout.align };
                &&& r.is_some() <==> (is_pow2(N as int) && layout.size + a - 1 <= ISIZE_MAX)
                &&& r.is_some() ==> r.unwrap() == (Layout { size: layout.size, align: a })
            }),
    {
        layout.align_to(N)
    }
}

/// An allocator that refuses every request.
pub struct Dummy;

impl Dummy {
    pub fn allocate(&self, layout: Layout) -> (r: Option<usize>)
        ensures
            r.is_none(),
    {
        None
    }
}

} // verus!
