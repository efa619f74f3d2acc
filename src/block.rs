use vstd::prelude::*;

verus! {

/// A region of the arena, `size` bytes starting at offset `addr` from the
/// arena's base.
#[derive(Clone, Copy, Debug, PartialEq, Eq, Structural)]
pub struct Block {
    pub addr: usize,
    pub size: usize,
}

impl Block {
    /// One past the last byte of the region.
    pub open spec fn end(self) -> nat {
        self.addr as nat + self.size as nat
    }

    /// The region lies inside `[lo, hi)`.
    pub open spec fn within(self, lo: nat, hi: nat) -> bool {
        lo <= self.addr && self.end() <= hi
    }

    /// The two regions share no byte. An empty region shares no byte with
    /// anything.
    pub open spec fn disjoint(self, other: Block) -> bool {
        self.size == 0 || other.size == 0 || self.end() <= other.addr || other.end() <= self.addr
    }
}

/// `a` is a power of two.
pub open spec fn is_pow2(a: nat) -> bool
    decreases a,
{
    if a == 0 {
        false
    } else if a == 1 {
        true
    } else {
        a % 2 == 0 && is_pow2(a / 2)
    }
}

/// The largest multiple of `align` that is at most `x`.
pub open spec fn round_down(x: nat, align: nat) -> nat
    recommends
        align > 0,
{
    (x - x % align) as nat
}

/// The regions of `s` are pairwise disjoint.
pub open spec fn pairwise_disjoint(s: Seq<Block>) -> bool {
    forall|i: int, j: int|
        0 <= i < s.len() && 0 <= j < s.len() && i != j ==> #[trigger] s[i].disjoint(
            #[trigger] s[j],
        )
}

/// Every region of `s` lies inside `[lo, hi)`.
pub open spec fn all_within(s: Seq<Block>, lo: nat, hi: nat) -> bool {
    forall|i: int| 0 <= i < s.len() ==> #[trigger] s[i].within(lo, hi)
}

/// `b` shares no byte with any region of `s`.
pub open spec fn disjoint_from_all(b: Block, s: Seq<Block>) -> bool {
    forall|i: int| 0 <= i < s.len() ==> b.disjoint(#[trigger] s[i])
}

/// Rounding down gives a multiple of `align` no larger than `x`, and leaves
/// a multiple of `align` as it is.
pub proof fn lemma_round_down(x: nat, align: nat)
    requires
        align > 0,
    ensures
        x % align <= x,
        round_down(x, align) <= x,
        round_down(x, align) % align == 0,
        x % align == 0 ==> round_down(x, align) == x,
{
    let (xi, ai) = (x as int, align as int);
    assert(0 <= xi % ai <= xi && (xi - xi % ai) % ai == 0) by (nonlinear_arith)
        requires
            ai > 0,
            xi >= 0,
    ;
}

/// A power of two is positive.
pub proof fn lemma_pow2_positive(a: nat)
    requires
        is_pow2(a),
    ensures
        a > 0,
{
}

/// Rounds `x` down to a multiple of `align`.
pub fn align_down(x: usize, align: usize) -> (r: usize)
    requires
        align > 0,
    ensures
        r as nat == round_down(x as nat, align as nat),
        r <= x,
        r % align == 0,
{
    proof {
        lemma_round_down(x as nat, align as nat);
    }
    x - x % align
}

} // verus!
