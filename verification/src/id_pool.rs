use vstd::prelude::*;
use vstd::seq_lib::seq_to_set_is_finite;
use vstd::set_lib::{lemma_int_range, lemma_len_subset, lemma_len_union, set_int_range};
use crate::errors::TodoError;

verus! {

/// Mathematical model of an identifier pool: the next never-issued
/// identifier, the stack of recycled identifiers, and the identifiers
/// currently in use, in insertion order.
#[verifier::ext_equal]
pub ghost struct PoolView {
    pub next: nat,
    pub recycled: Seq<usize>,
    pub used: Seq<usize>,
}

impl PoolView {
    /// The pool invariant: every identifier below `next` is in exactly one of
    /// `used` and `recycled`, and every identifier at or above `next` is in
    /// neither.
    pub open spec fn wf(self) -> bool {
        &&& self.used.no_duplicates()
        &&& self.recycled.no_duplicates()
        &&& forall|i: int| 0 <= i < self.used.len() ==> (#[trigger] self.used[i]) < self.next
        &&& forall|i: int|
            0 <= i < self.recycled.len() ==> (#[trigger] self.recycled[i]) < self.next
        &&& forall|i: int|
            0 <= i < self.recycled.len() ==> !self.used.contains(#[trigger] self.recycled[i])
        &&& forall|id: usize|
            id < self.next ==> (#[trigger] self.used.contains(id)) || self.recycled.contains(id)
    }

    pub open spec fn empty() -> PoolView {
        PoolView { next: 0, recycled: Seq::empty(), used: Seq::empty() }
    }

    /// The counter and list lengths are representable on this machine; the
    /// model of every in-memory pool satisfies this.
    pub open spec fn fits(self) -> bool {
        &&& self.next <= usize::MAX
        &&& self.recycled.len() <= usize::MAX
        &&& self.used.len() <= usize::MAX
    }
}

/// What acquiring does to a pool: pop the recycle stack if it is non-empty,
/// else issue the counter value; either way mark the result used.
/// Returns the new pool and the issued identifier.
pub open spec fn spec_acquire(p: PoolView) -> (PoolView, usize) {
    if p.recycled.len() > 0 {
        (
            PoolView { recycled: p.recycled.drop_last(), used: p.used.push(p.recycled.last()), ..p },
            p.recycled.last(),
        )
    } else {
        (
            PoolView { next: p.next + 1, used: p.used.push(p.next as usize), ..p },
            p.next as usize,
        )
    }
}

/// What releasing does to a pool: `None` when `id` is not in use, else the
/// pool with `id` moved from the used set to the top of the recycle stack.
pub open spec fn spec_release(p: PoolView, id: usize) -> Option<PoolView> {
    if p.used.contains(id) {
        Some(
            PoolView {
                recycled: p.recycled.push(id),
                used: p.used.remove(p.used.index_of(id)),
                ..p
            },
        )
    } else {
        None
    }
}

/// Allocator of small integer identifiers within one list scope.
/// Identifiers of removed items are recycled in LIFO order before the
/// monotonically increasing counter is consulted.
#[derive(Debug, PartialEq)]
pub struct IdPool {
    pub next_id: usize,
    pub recycled_ids: Vec<usize>,
    pub used_ids: Vec<usize>,
}

impl View for IdPool {
    type V = PoolView;

    open spec fn view(&self) -> PoolView {
        PoolView { next: self.next_id as nat, recycled: self.recycled_ids@, used: self.used_ids@ }
    }
}

impl IdPool {
    pub open spec fn wf(self) -> bool {
        self@.wf()
    }

    pub fn new() -> (r: IdPool)
        ensures
            r@ == PoolView::empty(),
            r.wf(),
    {
        let r = IdPool { next_id: 0, recycled_ids: Vec::new(), used_ids: Vec::new() };
        proof {
            assert(r@ =~= PoolView::empty());
        }
        r
    }

    /// Issue an identifier: a recycled one if available (LIFO), else the next
    /// never-used integer. The result is marked used and was not in use
    /// before the call.
    pub fn acquire_id(&mut self) -> (id: usize)
        requires
            old(self).wf(),
            old(self)@.next < usize::MAX,
        ensures
            final(self).wf(),
            (final(self)@, id) == spec_acquire(old(self)@),
            final(self)@.used == old(self)@.used.push(id),
            !old(self)@.used.contains(id),
    {
        proof {
            lemma_acquire_preserves_wf(old(self)@);
        }
        if let Some(id) = self.recycled_ids.pop() {
            self.used_ids.push(id);
            id
        } else {
            let id = self.next_id;
            self.next_id = self.next_id + 1;
            self.used_ids.push(id);
            id
        }
    }

    /// Return an identifier to the pool. Fails with `IdNotInUse`, leaving the
    /// pool unchanged, exactly when `id` is not currently in use; otherwise
    /// moves `id` from the used set to the recycle stack.
    pub fn release_id(&mut self, id: usize) -> (r: Result<(), TodoError>)
        requires
            old(self).wf(),
        ensures
            final(self).wf(),
            match r {
                Ok(()) => {
                    &&& old(self)@.used.contains(id)
                    &&& Some(final(self)@) == spec_release(old(self)@, id)
                },
                Err(e) => {
                    &&& !old(self)@.used.contains(id)
                    &&& e == (TodoError::IdNotInUse { id })
                    &&& final(self)@ == old(self)@
                },
            },
    {
        let n = self.used_ids.len();
        let mut j: usize = 0;
        while j < n
            invariant
                self == old(self),
                old(self).wf(),
                n == self.used_ids.len(),
                j <= n,
                forall|k: int| 0 <= k < j ==> self.used_ids@[k] != id,
            decreases n - j,
        {
            if self.used_ids[j] == id {
                proof {
                    lemma_release_preserves_wf(self@, id);
                    assert(self@.used[j as int] == id);
                    lemma_unique_index(self@.used, id, j as int);
                }
                self.used_ids.remove(j);
                self.recycled_ids.push(id);
                return Ok(());
            }
            j = j + 1;
        }
        proof {
            assert forall|k: int| 0 <= k < self.used_ids@.len() implies self.used_ids@[k] != id by {
            }
            assert(!self@.used.contains(id));
        }
        Err(TodoError::IdNotInUse { id })
    }
}

/// For a pool within machine range, the invariant forces the counter to be
/// at most the number of identifiers out in the used and recycled lists:
/// every identifier below the counter sits in one of the two duplicate-free
/// lists.
pub proof fn lemma_pool_counter_bound(p: PoolView)
    requires
        p.wf(),
        p.next <= usize::MAX,
    ensures
        p.next <= p.used.len() + p.recycled.len(),
{
    let um = p.used.map_values(|u: usize| u as int);
    let rm = p.recycled.map_values(|u: usize| u as int);
    assert(um.no_duplicates()) by {
        assert forall|a: int, b: int|
            0 <= a < um.len() && 0 <= b < um.len() && a != b implies um[a] != um[b] by {
            assert(um[a] == p.used[a] as int);
            assert(um[b] == p.used[b] as int);
        }
    }
    assert(rm.no_duplicates()) by {
        assert forall|a: int, b: int|
            0 <= a < rm.len() && 0 <= b < rm.len() && a != b implies rm[a] != rm[b] by {
            assert(rm[a] == p.recycled[a] as int);
            assert(rm[b] == p.recycled[b] as int);
        }
    }
    um.unique_seq_to_set();
    rm.unique_seq_to_set();
    seq_to_set_is_finite(um);
    seq_to_set_is_finite(rm);
    let uni = um.to_set().union(rm.to_set());
    lemma_len_union(um.to_set(), rm.to_set());
    lemma_int_range(0, p.next as int);
    assert(set_int_range(0, p.next as int).subset_of(uni)) by {
        assert forall|x: int|
            set_int_range(0, p.next as int).contains(x) implies uni.contains(x) by {
            let xu = x as usize;
            assert(xu < p.next);
            assert(p.used.contains(xu) || p.recycled.contains(xu));
            if p.used.contains(xu) {
                let i = choose|i: int| 0 <= i < p.used.len() && p.used[i] == xu;
                assert(um[i] == x);
                assert(um.contains(x));
                assert(um.to_set().contains(x));
            } else {
                let i = choose|i: int| 0 <= i < p.recycled.len() && p.recycled[i] == xu;
                assert(rm[i] == x);
                assert(rm.contains(x));
                assert(rm.to_set().contains(x));
            }
        }
    }
    lemma_len_subset(set_int_range(0, p.next as int), uni);
}

/// In a sequence without duplicates, an index holding `id` is the unique one,
/// and it is the `index_of` that `spec_release` removes.
pub(crate) proof fn lemma_unique_index(s: Seq<usize>, id: usize, j: int)
    requires
        s.no_duplicates(),
        0 <= j < s.len(),
        s[j] == id,
    ensures
        s.index_of(id) == j,
        s.contains(id),
{
    assert(s.contains(id));
    let i = s.index_of(id);
    assert(0 <= i < s.len() && s[i] == id);
    if i != j {
        assert(s[i] == s[j]);
        assert(false);
    }
}

/// Acquiring preserves the pool invariant, in both branches.
pub proof fn lemma_acquire_preserves_wf(p: PoolView)
    requires
        p.wf(),
        p.next < usize::MAX,
    ensures
        spec_acquire(p).0.wf(),
        !p.used.contains(spec_acquire(p).1),
{
    let (q, id) = spec_acquire(p);
    if p.recycled.len() > 0 {
        assert(p.recycled.contains(id)) by {
            assert(p.recycled[p.recycled.len() - 1] == id);
        }
        assert(!p.used.contains(id));
        lemma_push_no_duplicates(p.used, id);
        assert forall|i: int|
            0 <= i < q.recycled.len() implies !q.used.contains(#[trigger] q.recycled[i]) by {
            assert(q.recycled[i] == p.recycled[i]);
            assert(p.recycled.contains(p.recycled[i]));
            assert(!p.used.contains(p.recycled[i]));
            if q.used.contains(p.recycled[i]) {
                let k = choose|k: int| 0 <= k < q.used.len() && q.used[k] == p.recycled[i];
                if k < p.used.len() {
                    assert(p.used.contains(p.used[k]));
                } else {
                    assert(q.used[k] == id);
                    assert(p.recycled[i] == p.recycled[p.recycled.len() - 1]);
                }
            }
        }
        assert forall|x: usize| x < q.next implies (#[trigger] q.used.contains(x))
            || q.recycled.contains(x) by {
            assert(p.used.contains(x) || p.recycled.contains(x));
            if p.used.contains(x) {
                let k = choose|k: int| 0 <= k < p.used.len() && p.used[k] == x;
                assert(q.used[k] == x);
            } else {
                let k = choose|k: int| 0 <= k < p.recycled.len() && p.recycled[k] == x;
                if k == p.recycled.len() - 1 {
                    assert(q.used[q.used.len() - 1] == x);
                } else {
                    assert(q.recycled[k] == x);
                }
            }
        }
    } else {
        assert(!p.used.contains(id));
        lemma_push_no_duplicates(p.used, id);
        assert forall|x: usize| x < q.next implies (#[trigger] q.used.contains(x))
            || q.recycled.contains(x) by {
            if x < p.next {
                assert(p.used.contains(x) || p.recycled.contains(x));
                if p.used.contains(x) {
                    let k = choose|k: int| 0 <= k < p.used.len() && p.used[k] == x;
                    assert(q.used[k] == x);
                }
            } else {
                assert(x == id);
                assert(q.used[q.used.len() - 1] == x);
            }
        }
    }
}

/// Releasing an in-use identifier preserves the pool invariant.
pub proof fn lemma_release_preserves_wf(p: PoolView, id: usize)
    requires
        p.wf(),
        p.used.contains(id),
    ensures
        spec_release(p, id) matches Some(q) && q.wf(),
{
    let j = p.used.index_of(id);
    assert(0 <= j < p.used.len() && p.used[j] == id);
    let q = spec_release(p, id)->Some_0;
    assert(q.used == p.used.remove(j));
    p.used.remove_ensures(j);
    assert(!p.recycled.contains(id)) by {
        if p.recycled.contains(id) {
            let k = choose|k: int| 0 <= k < p.recycled.len() && p.recycled[k] == id;
            assert(!p.used.contains(p.recycled[k]));
        }
    }
    lemma_push_no_duplicates(p.recycled, id);
    assert forall|i: int| 0 <= i < q.used.len() implies (#[trigger] q.used[i]) < q.next by {
        if i < j {
            assert(q.used[i] == p.used[i]);
        } else {
            assert(q.used[i] == p.used[i + 1]);
        }
    }
    assert(q.used.no_duplicates()) by {
        assert forall|a: int, b: int|
            0 <= a < q.used.len() && 0 <= b < q.used.len() && a != b implies q.used[a]
            != q.used[b] by {
            let a0 = if a < j { a } else { a + 1 };
            let b0 = if b < j { b } else { b + 1 };
            assert(q.used[a] == p.used[a0]);
            assert(q.used[b] == p.used[b0]);
        }
    }
    assert(!q.used.contains(id)) by {
        if q.used.contains(id) {
            let k = choose|k: int| 0 <= k < q.used.len() && q.used[k] == id;
            let k0 = if k < j { k } else { k + 1 };
            assert(q.used[k] == p.used[k0]);
            assert(p.used[k0] == p.used[j] && k0 != j);
        }
    }
    assert forall|i: int|
        0 <= i < q.recycled.len() implies !q.used.contains(#[trigger] q.recycled[i]) by {
        if i < p.recycled.len() {
            assert(q.recycled[i] == p.recycled[i]);
            assert(!p.used.contains(p.recycled[i]));
            if q.used.contains(p.recycled[i]) {
                let k = choose|k: int| 0 <= k < q.used.len() && q.used[k] == p.recycled[i];
                let k0 = if k < j { k } else { k + 1 };
                assert(p.used[k0] == p.used.remove(j)[k]);
                assert(p.used.contains(p.used[k0]));
            }
        } else {
            assert(q.recycled[i] == id);
        }
    }
    assert forall|i: int| 0 <= i < q.recycled.len() implies (#[trigger] q.recycled[i]) < q.next by {
        if i < p.recycled.len() {
            assert(q.recycled[i] == p.recycled[i]);
        } else {
            assert(q.recycled[i] == id && id == p.used[j]);
        }
    }
    assert forall|x: usize| x < q.next implies (#[trigger] q.used.contains(x))
        || q.recycled.contains(x) by {
        assert(p.used.contains(x) || p.recycled.contains(x));
        if x == id {
            assert(q.recycled[q.recycled.len() - 1] == x);
        } else if p.used.contains(x) {
            let k = choose|k: int| 0 <= k < p.used.len() && p.used[k] == x;
            assert(k != j);
            if k < j {
                assert(q.used[k] == x);
            } else {
                assert(q.used[k - 1] == x);
            }
        } else {
            let k = choose|k: int| 0 <= k < p.recycled.len() && p.recycled[k] == x;
            assert(q.recycled[k] == x);
        }
    }
}

/// Pushing a fresh element keeps a sequence duplicate-free.
pub(crate) proof fn lemma_push_no_duplicates(s: Seq<usize>, v: usize)
    requires
        s.no_duplicates(),
        !s.contains(v),
    ensures
        s.push(v).no_duplicates(),
{
    let t = s.push(v);
    assert forall|a: int, b: int|
        0 <= a < t.len() && 0 <= b < t.len() && a != b implies t[a] != t[b] by {
        if a < s.len() && b < s.len() {
        } else if a < s.len() {
            assert(s.contains(s[a]) && t[b] == v);
        } else {
            assert(s.contains(s[b]) && t[a] == v);
        }
    }
}

/// Recycling law: after an identifier is acquired and then released on the
/// same pool, the very next acquire returns that same identifier.
pub proof fn lemma_acquire_release_acquire(p: PoolView)
    requires
        p.wf(),
    ensures
        ({
            let (p1, id) = spec_acquire(p);
            &&& spec_release(p1, id) is Some
            &&& spec_acquire(spec_release(p1, id)->Some_0).1 == id
        }),
{
    let (p1, id) = spec_acquire(p);
    assert(p1.used.contains(id)) by {
        assert(p1.used[p1.used.len() - 1] == id);
    }
    let p2 = spec_release(p1, id)->Some_0;
    assert(p2.recycled.last() == id);
}

/// Double-release law: releasing an identifier that was just acquired
/// succeeds once, and releasing it again fails (there is no pool state it
/// could produce), which `release_id` surfaces as `IdNotInUse`.
pub proof fn lemma_double_release(p: PoolView)
    requires
        p.wf(),
        p.next < usize::MAX,
    ensures
        ({
            let (p1, id) = spec_acquire(p);
            &&& spec_release(p1, id) is Some
            &&& spec_release(spec_release(p1, id)->Some_0, id) is None
        }),
{
    let (p1, id) = spec_acquire(p);
    lemma_acquire_preserves_wf(p);
    assert(p1.used.contains(id)) by {
        assert(p1.used[p1.used.len() - 1] == id);
    }
    lemma_release_preserves_wf(p1, id);
    let p2 = spec_release(p1, id)->Some_0;
    assert(!p2.used.contains(id));
}

} // verus!
