use vstd::prelude::*;
use crate::block::{Block, is_pow2, pairwise_disjoint, lemma_round_down, lemma_pow2_positive};
use vstd::arithmetic::div_mod::{lemma_mod_adds, lemma_sub_mod_noop, lemma_small_mod};
use crate::allocator::{
    AllocatorModel, is_first_fit, lemma_first_fit_is, lemma_first_fit_none, lemma_acquire,
};

verus! {

/// The sum of the sizes of a run of `(size, align)` requests.
pub open spec fn total_size(reqs: Seq<(usize, usize)>) -> nat
    decreases reqs.len(),
{
    if reqs.len() == 0 {
        0
    } else {
        total_size(reqs.drop_last()) + reqs.last().0 as nat
    }
}

/// The state after serving a run of `(size, align)` requests in order.
pub open spec fn after_acquires(m: AllocatorModel, reqs: Seq<(usize, usize)>) -> AllocatorModel
    decreases reqs.len(),
{
    if reqs.len() == 0 {
        m
    } else {
        after_acquires(m, reqs.drop_last()).after_acquire(reqs.last().0, reqs.last().1)
    }
}

/// What each request of a run of `(size, align)` requests gets, in order.
pub open spec fn acquire_results(m: AllocatorModel, reqs: Seq<(usize, usize)>) -> Seq<Option<usize>>
    decreases reqs.len(),
{
    if reqs.len() == 0 {
        seq![]
    } else {
        acquire_results(m, reqs.drop_last()).push(
            after_acquires(m, reqs.drop_last()).acquire_result(reqs.last().0, reqs.last().1),
        )
    }
}

proof fn lemma_total_multiple(reqs: Seq<(usize, usize)>, a: nat)
    requires
        a > 0,
        forall|k: int| 0 <= k < reqs.len() ==> (#[trigger] reqs[k]).0 as nat % a == 0,
    ensures
        total_size(reqs) % a == 0,
    decreases reqs.len(),
{
    if reqs.len() > 0 {
        let p = reqs.drop_last();
        assert forall|k: int| 0 <= k < p.len() implies (#[trigger] p[k]).0 as nat % a == 0 by {
            assert(p[k] == reqs[k]);
        }
        lemma_total_multiple(p, a);
        let (x, y, ai) = (total_size(p) as int, reqs.last().0 as int, a as int);
        assert(reqs[reqs.len() - 1].0 as nat % a == 0);
        lemma_mod_adds(x, y, ai);
    } else {
        lemma_small_mod(0, a);
    }
}

/// On a fresh allocator, a run of requests whose sizes add up to no more
/// than the capacity is served in full, by fresh space, with blocks that lie
/// in the arena and overlap pairwise in no byte.
///
/// Alignment padding is lost to the bump path, so this is stated for runs in
/// which every alignment divides the capacity and every size requested: the
/// padding is then zero.
pub proof fn lemma_fitting_requests_succeed(f: AllocatorModel, reqs: Seq<(usize, usize)>)
    requires
        f == AllocatorModel::fresh(f.capacity, f.max_align),
        total_size(reqs) <= f.capacity,
        forall|k: int|
            0 <= k < reqs.len() ==> is_pow2((#[trigger] reqs[k]).1 as nat) && reqs[k].1 <= f.max_align
                && f.capacity % reqs[k].1 == 0,
        forall|j: int, k: int|
            0 <= j < reqs.len() && 0 <= k < reqs.len() ==> (#[trigger] reqs[j]).0 % (#[trigger] reqs[k]).1
                == 0,
    ensures
        after_acquires(f, reqs).wf(),
        after_acquires(f, reqs).free_list.len() == 0,
        after_acquires(f, reqs).remaining == f.capacity - total_size(reqs),
        after_acquires(f, reqs).capacity == f.capacity,
        after_acquires(f, reqs).max_align == f.max_align,
        acquire_results(f, reqs).len() == reqs.len(),
        after_acquires(f, reqs).live.len() == reqs.len(),
        forall|k: int|
            0 <= k < reqs.len() ==> #[trigger] acquire_results(f, reqs)[k] == Some(
                after_acquires(f, reqs).live[k].addr,
            ),
        forall|k: int| 0 <= k < reqs.len() ==> #[trigger] after_acquires(f, reqs).live[k].size == reqs[k].0,
        pairwise_disjoint(after_acquires(f, reqs).live),
    decreases reqs.len(),
{
    if reqs.len() > 0 {
        let p = reqs.drop_last();
        let (s, a) = reqs.last();
        assert(reqs[reqs.len() - 1] == (s, a));
        assert forall|k: int| 0 <= k < p.len() implies #[trigger] p[k] == reqs[k] by {}
        lemma_fitting_requests_succeed(f, p);
        let prev = after_acquires(f, p);
        let prs = acquire_results(f, p);
        lemma_pow2_positive(a as nat);
        lemma_first_fit_none(prev.free_list, s);
        assert forall|k: int| 0 <= k < reqs.len() implies (#[trigger] reqs[k]).0 as nat % (a as nat) == 0 by {
            assert(reqs[k].0 % reqs[reqs.len() - 1].1 == 0);
        }
        lemma_total_multiple(reqs, a as nat);
        let (c, t, ai) = (f.capacity as int, total_size(reqs) as int, a as int);
        lemma_sub_mod_noop(c, t, ai);
        lemma_small_mod(0, ai as nat);
        assert((prev.remaining - s) as nat == f.capacity - total_size(reqs));
        lemma_round_down((prev.remaining - s) as nat, a as nat);
        lemma_acquire(prev, s, a);
        let m = after_acquires(f, reqs);
        let rs = acquire_results(f, reqs);
        assert forall|k: int| 0 <= k < reqs.len() implies #[trigger] rs[k] == Some(m.live[k].addr) by {
            if k < p.len() {
                assert(rs[k] == prs[k]);
                assert(m.live[k] == prev.live[k]);
            }
        }
        assert forall|k: int| 0 <= k < reqs.len() implies #[trigger] m.live[k].size == reqs[k].0 by {
            if k < p.len() {
                assert(m.live[k] == prev.live[k]);
            }
        }
    } else {
        assert(acquire_results(f, reqs) =~= seq![]);
    }
}

/// A request for an alignment above the maximum fails and changes nothing,
/// whatever the state and the size.
pub proof fn lemma_overaligned_fails(m: AllocatorModel, size: usize, align: usize)
    requires
        align > m.max_align,
    ensures
        m.acquire_result(size, align) is None,
        m.after_acquire(size, align) == m,
{
}

/// A request for more bytes than the whole arena fails and changes nothing.
pub proof fn lemma_oversized_fails(m: AllocatorModel, size: usize, align: usize)
    requires
        m.wf(),
        size > m.capacity,
    ensures
        m.acquire_result(size, align) is None,
        m.after_acquire(size, align) == m,
{
    assert forall|j: int| 0 <= j < m.free_list.len() implies (#[trigger] m.free_list[j]).size < size by {
        assert(m.free_list[j].within(m.remaining as nat, m.capacity as nat));
    }
    lemma_first_fit_none(m.free_list, size);
}

/// Right after a live block is released, a request for no more bytes than
/// it had, at a served alignment, gets the same address back, and leaves the
/// free list as it was before the release.
pub proof fn lemma_release_then_reuse(m: AllocatorModel, p: usize, n: usize, size: usize, align: usize)
    requires
        m.wf(),
        m.live.contains(Block { addr: p, size: n }),
        size <= n,
        align <= m.max_align,
    ensures
        m.after_release(Some(p), n).acquire_result(size, align) == Some(p),
        m.after_release(Some(p), n).after_acquire(size, align).free_list == m.free_list,
        m.after_release(Some(p), n).after_acquire(size, align).remaining == m.remaining,
{
    let r = m.after_release(Some(p), n);
    assert(r.free_list[0] == Block { addr: p, size: n });
    assert(is_first_fit(r.free_list, size, 0));
    lemma_first_fit_is(r.free_list, size, 0);
    assert(r.free_list.remove(0) =~= m.free_list);
}

/// Where neither the free list nor the untouched arena can hold a request,
/// it fails and changes nothing; once a live block at least as large is
/// released, the same request succeeds at that block's address.
pub proof fn lemma_exhausted_until_release(m: AllocatorModel, p: usize, n: usize, size: usize, align: usize)
    requires
        m.wf(),
        align <= m.max_align,
        size > m.remaining,
        forall|j: int| 0 <= j < m.free_list.len() ==> (#[trigger] m.free_list[j]).size < size,
        m.live.contains(Block { addr: p, size: n }),
        size <= n,
    ensures
        m.acquire_result(size, align) is None,
        m.after_acquire(size, align) == m,
        m.after_release(Some(p), n).acquire_result(size, align) == Some(p),
{
    lemma_first_fit_none(m.free_list, size);
    lemma_release_then_reuse(m, p, n, size, align);
}

/// Releasing nothing leaves the free list and the bump counter as they were.
pub proof fn lemma_release_none_unchanged(m: AllocatorModel, size: usize)
    ensures
        m.after_release(None, size) == m,
        m.after_release(None, size).free_list == m.free_list,
        m.after_release(None, size).remaining == m.remaining,
{
}

} // verus!
