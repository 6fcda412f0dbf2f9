//! The exclusive-access wrapper around the free-list engine: a busy-wait
//! (spin) lock that serializes every entry into the engine, and the two
//! dynamic-allocation entry points, `allocate` and `release`, that run the
//! engine under that lock.

use super::{
    add_region_spec, align_up_spec, first_fit, fit_of, region_free_of, split_remainder,
    wf_free_list, FitResult, LinkedListAllocator, ListNode, WORD_64,
};
use super::{lemma_align_up, lemma_first_fit_some};
use vstd::prelude::*;

verus! {

/// spin's mutex, declared so that verified code can hold one; its contents
/// are opaque to the verifier.
#[verifier::external_type_specification]
#[verifier::external_body]
#[verifier::reject_recursive_types(T)]
#[verifier::reject_recursive_types(R)]
pub struct ExSpinMutex<T: ?Sized, R>(spin::mutex::Mutex<T, R>);

/// The guard spin's mutex hands out while the lock is held.
#[verifier::external_type_specification]
#[verifier::external_body]
#[verifier::reject_recursive_types(T)]
#[verifier::reject_recursive_types(R)]
pub struct ExSpinMutexGuard<'a, T: 'a + ?Sized, R>(spin::mutex::MutexGuard<'a, T, R>);

/// spin's busy-wait relax strategy, the default lock flavour.
#[verifier::external_type_specification]
#[verifier::external_body]
pub struct ExSpin(spin::relax::Spin);

/// A generic wrapper that provides interior mutability and thread-safety:
/// a spinlock (spin::Mutex) around a value, granting one execution context
/// at a time mutable access to it.
#[verifier::reject_recursive_types(A)]
pub struct Locked<A> {
    inner: spin::Mutex<A>,
}

impl<A> Locked<A> {
    /// Wraps a given value in a spinlock.
    /// Relies on spin::Mutex::new, which creates an unlocked mutex holding
    /// the value.
    #[verifier::external_body]
    pub fn new(inner: A) -> (r: Self) {
        Locked { inner: spin::Mutex::new(inner) }
    }

    /// Acquires the lock to gain mutable access to the underlying value.
    /// This busy-waits while another context holds the lock; access is
    /// released when the guard is dropped.
    /// Relies on spin::Mutex::lock, which returns only once this caller is
    /// the sole holder of the lock.
    #[verifier::external_body]
    pub fn lock(&self) -> spin::MutexGuard<'_, A> {
        self.inner.lock()
    }
}

/// `r` is a result the closure `f` can produce: for some input value, `f`'s
/// contract admits an output pair that passes `r` through as its second
/// component.
pub open spec fn closure_can_return<A, R, F: FnOnce(A) -> (A, R)>(f: F, r: R) -> bool {
    exists|a: A, out: (A, R)| #[trigger] call_ensures(f, (a,), out) && out.1 == r
}

impl<A: Default> Locked<A> {
    /// The one trusted passage into the wrapped value: acquires the lock,
    /// hands the value to `f`, stores the value `f` returns in its place and
    /// passes `f`'s second result through. What comes back is an
    /// input/output pair of `f` itself, so whatever `f` promises of its
    /// result carries out to the caller; which input `f` saw depends on the
    /// shared state, which only the lock holder sees.
    /// Relies on spin::Mutex::lock, which returns only once this caller is
    /// the sole holder of the lock, serializing every use of the value.
    #[verifier::external_body]
    fn with_lock<R, F: FnOnce(A) -> (A, R)>(&self, f: F) -> (r: R)
        requires
            forall|a: A| #[trigger] call_requires(f, (a,)),
        ensures
            closure_can_return(f, r),
    {
        let mut guard = self.inner.lock();
        let value = core::mem::replace(&mut *guard, A::default());
        let (value, result) = f(value);
        *guard = value;
        result
    }
}

/// What one allocation request does to a free list, and the address the
/// binding hands back for it: the serviced address for a fit, or 0 — the
/// null failure sentinel — when no block fits.
pub open spec fn allocate_step(s: Seq<ListNode>, size: int, align: int) -> (Seq<ListNode>, usize) {
    match first_fit(s, size, align) {
        Option::None => (s, 0),
        Option::Some(i) => match fit_of(s[i], size, align) {
            Option::Some(FitResult::Perfect(a)) => (s.remove(i), a),
            Option::Some(FitResult::Split(a)) => (
                s.update(i, split_remainder(s[i], size, align)),
                a,
            ),
            Option::None => (s, 0),
        },
    }
}

/// Every address the binding hands back is a multiple of the requested
/// alignment; the failure sentinel 0 trivially is.
pub proof fn lemma_allocate_step_aligned(s: Seq<ListNode>, size: int, align: int)
    requires
        wf_free_list(s),
        size >= 0,
        align >= 1,
    ensures
        allocate_step(s, size, align).1 as int % align == 0,
{
    if first_fit(s, size, align) is Some {
        let i = first_fit(s, size, align)->0;
        lemma_first_fit_some(s, size, align);
        lemma_align_up(s[i].addr as int, align);
        let a = align_up_spec(s[i].addr as int, align);
        lemma_align_up(a + size, WORD_64 as int);
        assert(s[i].addr + s[i].size <= usize::MAX);
        match fit_of(s[i], size, align) {
            Option::Some(FitResult::Perfect(addr)) => {
                assert(a + size == s[i].addr + s[i].size);
                assert(0 <= a <= usize::MAX);
                assert(addr as int == a);
                assert(allocate_step(s, size, align).1 == addr);
                assert(a % align == 0);
            },
            Option::Some(FitResult::Split(addr)) => {
                assert(a <= align_up_spec(a + size, WORD_64 as int));
                assert(0 <= a <= usize::MAX);
                assert(addr as int == a);
                assert(allocate_step(s, size, align).1 == addr);
                assert(a % align == 0);
            },
            Option::None => {},
        }
    } else {
        assert(allocate_step(s, size, align).1 == 0);
        assert(0int % align == 0);
    }
}

impl Locked<LinkedListAllocator> {
    /// The entry point for heap allocations: acquires exclusive access and
    /// serves the request from the free list the lock guards at that moment.
    /// Returns `allocate_step` of that list: the allocation's start address,
    /// or 0 — the null failure sentinel — exactly when no free block fits.
    /// (A region starting at address 0 would coincide with the sentinel,
    /// just as a null return would.) Every address handed back is a
    /// multiple of `align`.
    pub fn allocate(&self, size: usize, align: usize) -> (r: usize)
        requires
            align >= 1,
        ensures
            exists|s: Seq<ListNode>|
                #[trigger] wf_free_list(s) && r == allocate_step(
                    s,
                    size as int,
                    align as int,
                ).1,
            r as int % align as int == 0,
    {
        let f = |engine: LinkedListAllocator| -> (out: (LinkedListAllocator, usize))
            ensures
                wf_free_list(engine@),
                out.0@ == allocate_step(engine@, size as int, align as int).0,
                out.1 == allocate_step(engine@, size as int, align as int).1,
            {
                proof {
                    use_type_invariant(&engine);
                }
                let mut e = engine;
                match e.find_region(size, align) {
                    Option::Some(address) => (e, address),
                    Option::None => (e, 0),
                }
            };
        let r = self.with_lock(f);
        proof {
            let (a, out) = choose|a: LinkedListAllocator, out: (LinkedListAllocator, usize)|
                #[trigger] call_ensures(f, (a,), out) && out.1 == r;
            assert(wf_free_list(a@) && r == allocate_step(a@, size as int, align as int).1);
            lemma_allocate_step_aligned(a@, size as int, align as int);
        }
        r
    }

    /// The entry point for returning memory to the heap: acquires exclusive
    /// access and puts the region back into the free list, exactly as one
    /// `add_free_region(addr, size)` run under the lock (the closure's
    /// contract states that effect; which list it acted on, only the lock
    /// holder sees). The caller must pass the address and size of a region
    /// the allocator handed out, and must no longer use it; the engine
    /// cannot check this, but refuses a region it can see intersecting the
    /// free list.
    pub fn release(&self, addr: usize, size: usize)
        requires
            addr + size <= usize::MAX,
    {
        let f = |engine: LinkedListAllocator| -> (out: (LinkedListAllocator, ()))
            ensures
                (out.0@ == if region_free_of(
                    engine@,
                    align_up_spec(addr as int, WORD_64 as int),
                    addr + size,
                ) {
                    add_region_spec(engine@, addr as int, size as int)
                } else {
                    engine@
                }),
            {
                let mut e = engine;
                e.add_free_region(addr, size);
                (e, ())
            };
        self.with_lock(f);
    }
}

} // verus!
