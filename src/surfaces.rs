use vstd::prelude::*;

verus! {

/// Number of surfaces a pool is built with.
pub const POOL_SIZE: usize = 32;

/// A pooled render-target handle and whether a caller marked it in use.
pub struct SurfaceRef<S> {
    pub in_use: bool,
    pub surface: S,
}

impl<S> SurfaceRef<S> {
    /// Marks the surface as in use.
    pub fn allocated(&mut self)
        ensures
            final(self).in_use,
            final(self).surface == old(self).surface,
    {
        self.in_use = true;
    }

    /// Marks the surface as free.
    pub fn deallocated(&mut self)
        ensures
            !final(self).in_use,
            final(self).surface == old(self).surface,
    {
        self.in_use = false;
    }
}

/// The cursor of a pool of `len` slots after `k` allocations from `start`.
pub open spec fn cursor_after(start: nat, k: nat, len: nat) -> nat
    decreases k,
{
    if k == 0 {
        start
    } else {
        (cursor_after(start, (k - 1) as nat, len) + 1) % len
    }
}

/// The pool has no surface to hand out.
#[derive(Debug, Clone, Copy, PartialEq, Eq, Structural)]
pub struct PoolExhausted;

/// A fixed set of reusable surfaces, handed out in round-robin order.
pub struct SurfacePool<S> {
    surfaces: Vec<SurfaceRef<S>>,
    index: usize,
}

impl<S> SurfacePool<S> {
    /// The slots, in order.
    pub closed spec fn slots(&self) -> Seq<SurfaceRef<S>> {
        self.surfaces@
    }

    /// The slot that the next allocation hands out.
    pub closed spec fn cursor(&self) -> nat {
        self.index as nat
    }

    /// The cursor points at a slot, unless there is none.
    pub closed spec fn wf(&self) -> bool {
        self.surfaces@.len() == 0 || self.index < self.surfaces@.len()
    }

    /// A pool over the given surfaces, none of them in use.
    pub fn new(surfaces: Vec<S>) -> (r: Self)
        ensures
            r.wf(),
            r.cursor() == 0,
            r.slots().len() == surfaces@.len(),
            forall|i: int|
                0 <= i < surfaces@.len() ==> !(#[trigger] r.slots()[i]).in_use && r.slots()[i].surface
                    == surfaces@[i],
    {
        let mut surfaces = surfaces;
        let ghost given = surfaces@;
        let mut slots: Vec<SurfaceRef<S>> = Vec::new();
        while surfaces.len() > 0
            invariant
                slots@.len() + surfaces@.len() == given.len(),
                surfaces@ == given.subrange(slots@.len() as int, given.len() as int),
                forall|i: int|
                    0 <= i < slots@.len() ==> !(#[trigger] slots@[i]).in_use && slots@[i].surface
                        == given[i],
            decreases surfaces@.len(),
        {
            let surface = surfaces.remove(0);
            slots.push(SurfaceRef { in_use: false, surface });
        }
        SurfacePool { surfaces: slots, index: 0 }
    }

    /// The number of slots.
    pub fn len(&self) -> (r: usize)
        ensures
            r == self.slots().len(),
    {
        self.surfaces.len()
    }

    /// The slot at the given position.
    pub fn get(&self, slot: usize) -> (r: &SurfaceRef<S>)
        requires
            slot < self.slots().len(),
        ensures
            *r == self.slots()[slot as int],
    {
        &self.surfaces[slot]
    }

    /// Hands out the slot at the cursor and moves the cursor to the next slot,
    /// wrapping after the last. The in-use marks are not consulted: only an
    /// empty pool is exhausted.
    pub fn allocate(&mut self) -> (r: Result<usize, PoolExhausted>)
        requires
            old(self).wf(),
        ensures
            final(self).wf(),
            final(self).slots() == old(self).slots(),
            old(self).slots().len() == 0 ==> r == Err::<usize, PoolExhausted>(PoolExhausted)
                && final(self).cursor() == old(self).cursor(),
            old(self).slots().len() > 0 ==> r == Ok::<usize, PoolExhausted>(old(self).cursor() as usize)
                && final(self).cursor() == (old(self).cursor() + 1) % old(self).slots().len(),
    {
        let len = self.surfaces.len();
        if len == 0 {
            return Err(PoolExhausted);
        }
        let slot = self.index;
        self.index = (self.index + 1) % len;
        Ok(slot)
    }

    /// Sets the in-use mark of one slot and keeps the others.
    fn set_in_use(&mut self, slot: usize, in_use: bool)
        requires
            old(self).wf(),
            slot < old(self).slots().len(),
        ensures
            final(self).wf(),
            final(self).cursor() == old(self).cursor(),
            final(self).slots().len() == old(self).slots().len(),
            forall|i: int|
                0 <= i < old(self).slots().len() && i != slot ==> #[trigger] final(self).slots()[i]
                    == old(self).slots()[i],
            final(self).slots()[slot as int].in_use == in_use,
            final(self).slots()[slot as int].surface == old(self).slots()[slot as int].surface,
    {
        let mut entry = self.surfaces.remove(slot);
        if in_use {
            entry.allocated();
        } else {
            entry.deallocated();
        }
        self.surfaces.insert(slot, entry);
    }

    /// Marks a slot as in use.
    pub fn mark_allocated(&mut self, slot: usize)
        requires
            old(self).wf(),
            slot < old(self).slots().len(),
        ensures
            final(self).wf(),
            final(self).cursor() == old(self).cursor(),
            final(self).slots() == old(self).slots().update(
                slot as int,
                SurfaceRef { in_use: true, surface: old(self).slots()[slot as int].surface },
            ),
    {
        self.set_in_use(slot, true);
        proof {
            assert(self.slots() =~= old(self).slots().update(
                slot as int,
                SurfaceRef { in_use: true, surface: old(self).slots()[slot as int].surface },
            ));
        }
    }

    /// Marks a slot as free.
    pub fn mark_deallocated(&mut self, slot: usize)
        requires
            old(self).wf(),
            slot < old(self).slots().len(),
        ensures
            final(self).wf(),
            final(self).cursor() == old(self).cursor(),
            final(self).slots() == old(self).slots().update(
                slot as int,
                SurfaceRef { in_use: false, surface: old(self).slots()[slot as int].surface },
            ),
    {
        self.set_in_use(slot, false);
        proof {
            assert(self.slots() =~= old(self).slots().update(
                slot as int,
                SurfaceRef { in_use: false, surface: old(self).slots()[slot as int].surface },
            ));
        }
    }
}

/// Round-robin order: on a fresh pool of `len` slots, allocation number `k`
/// (counting from 0) hands out slot `k` for each `k < len`, so the first `len`
/// allocations hand out `len` distinct slots, and allocation number `len`
/// hands out slot 0 again.
pub proof fn lemma_round_robin(len: nat)
    requires
        len > 0,
    ensures
        forall|k: nat| k < len ==> #[trigger] cursor_after(0, k, len) == k,
        cursor_after(0, len, len) == 0,
{
    assert forall|k: nat| k < len implies #[trigger] cursor_after(0, k, len) == k by {
        lemma_cursor_counts(len, k);
    }
    lemma_cursor_counts(len, (len - 1) as nat);
    vstd::arithmetic::div_mod::lemma_mod_self_0(len as int);
    assert(cursor_after(0, len, len) == (cursor_after(0, (len - 1) as nat, len) + 1) % len);
}

/// Before it wraps, the cursor of a fresh pool counts the allocations.
proof fn lemma_cursor_counts(len: nat, k: nat)
    requires
        k < len,
    ensures
        cursor_after(0, k, len) == k,
    decreases k,
{
    if k > 0 {
        lemma_cursor_counts(len, (k - 1) as nat);
        vstd::arithmetic::div_mod::lemma_small_mod(k, len);
    }
}

} // verus!
