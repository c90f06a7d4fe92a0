//! The pool: a ring of buckets behind a rotating cursor.
use crate::barrier::VisitorBarrier;
use crate::bucket::{is_default, occupied, Bucket, BucketReport, SLOT_CAP};
use crate::model::{
    hook_ready, lemma_ring_backward, lemma_ring_forward, lemma_ring_offset_backward,
    lemma_ring_offset_forward, total_len, PoolView,
};
use vstd::arithmetic::div_mod::lemma_small_mod;
use vstd::prelude::*;

verus! {

/// Number of buckets of a pool made by [`SyncPool::new`].
pub const POOL_SIZE: usize = 8;

/// A pool with more buckets than this does not grow any further.
pub const EXPANSION_CAP: usize = 512;

/// Configuration bit: the pool may grow.
pub const CONFIG_ALLOW_EXPANSION: usize = 1;

/// Whether every value of `bucket` is a default value and no slot is free.
pub open spec fn is_fresh_bucket<T: Default>(bucket: Seq<T>) -> bool {
    &&& bucket.len() == SLOT_CAP
    &&& forall|i: int| 0 <= i < bucket.len() ==> is_default(#[trigger] bucket[i])
}

/// A bounded pool of values of type `T`, with an optional reset hook of type
/// `H` that is run on every value that comes back.
pub struct SyncPool<T, H> {
    /// The buckets, in the order of the ring.
    slots: Vec<Bucket<T>>,
    /// The bucket to examine first.
    curr: usize,
    /// Registered users, and the barrier that holds new ones back.
    visitor_counter: VisitorBarrier,
    /// Number of `get` calls that found no pooled value.
    fault_count: usize,
    /// Configuration bits.
    configure: usize,
    /// Run on every value before it is put back.
    reset_handle: Option<H>,
}

impl<T, H> View for SyncPool<T, H> {
    type V = PoolView<T, H>;

    closed spec fn view(&self) -> PoolView<T, H> {
        PoolView {
            buckets: Seq::new(self.slots@.len(), |i: int| self.slots@[i]@),
            cursor: self.curr as nat,
            faults: self.fault_count as nat,
            expansion: self.configure & CONFIG_ALLOW_EXPANSION > 0,
            hook: self.reset_handle,
        }
    }
}

impl<T, H> SyncPool<T, H> {
    /// The pool at rest: every bucket keeps its values in its lowest slots
    /// and has its lock released, nobody is registered at the barrier and the
    /// barrier is down, and the cursor names a bucket.
    pub closed spec fn wf(&self) -> bool {
        &&& self.slots@.len() >= 1
        &&& self.curr < self.slots@.len()
        &&& self.visitor_counter.idle()
        &&& forall|i: int|
            0 <= i < self.slots@.len() ==> (#[trigger] self.slots@[i]).wf()
                && !self.slots@[i].locked()
    }

    /// The `i`-th bucket of the ring.
    pub closed spec fn bucket(&self, i: int) -> Bucket<T> {
        self.slots@[i]
    }

    /// Number of occupied slots in the first `n` buckets.
    pub open spec fn occupied_slots(&self, n: nat) -> nat
        decreases n,
    {
        if n == 0 {
            0
        } else {
            self.occupied_slots((n - 1) as nat) + occupied(self.bucket(n - 1).slots())
        }
    }

    /// Conservation in every bucket: in a pool at rest each bucket is well
    /// formed, has its lock released and holds what the view says.
    pub proof fn lemma_buckets_at_rest(&self, i: int)
        requires
            self.wf(),
            0 <= i < self@.buckets.len(),
        ensures
            self.bucket(i).wf(),
            !self.bucket(i).locked(),
            self.bucket(i)@ == self@.buckets[i],
            occupied(self.bucket(i).slots()) == self@.buckets[i].len(),
    {
        self.bucket(i).lemma_conservation();
    }

    /// No leak: in a pool at rest the occupied slots of all buckets are as
    /// many as the fill levels add up to, and as many as values are held.
    pub proof fn lemma_no_leak(&self)
        requires
            self.wf(),
        ensures
            self.occupied_slots(self@.buckets.len()) == self@.total(),
            self@.held().len() == self@.total(),
    {
        self.lemma_occupied_prefix_total(self@.buckets.len());
        assert(self@.buckets.take(self@.buckets.len() as int) =~= self@.buckets);
        self@.lemma_held_is_total();
    }

    proof fn lemma_occupied_prefix_total(&self, n: nat)
        requires
            self.wf(),
            n <= self@.buckets.len(),
        ensures
            self.occupied_slots(n) == total_len(self@.buckets.take(n as int)),
        decreases n,
    {
        if n > 0 {
            self.lemma_occupied_prefix_total((n - 1) as nat);
            self.lemma_buckets_at_rest(n - 1);
            let prefix = self@.buckets.take(n as int);
            assert(prefix.drop_last() =~= self@.buckets.take(n - 1));
            assert(prefix.last() == self@.buckets[n - 1]);
        }
    }

    /// What `wf` says of the view.
    pub proof fn lemma_wf_view(&self)
        requires
            self.wf(),
        ensures
            self@.wf(),
    {
        assert forall|i: int| 0 <= i < self@.buckets.len() implies (#[trigger] self@.buckets[i]).len()
            <= SLOT_CAP by {
            assert(self.slots@[i].wf());
        }
    }

    /// The fill level and the lock of every bucket, in the order of the ring.
    pub fn debug(&self) -> (report: Vec<BucketReport>)
        requires
            self.wf(),
        ensures
            report@.len() == self@.buckets.len(),
            forall|i: int|
                0 <= i < report@.len() ==> (#[trigger] report@[i]).len == self@.buckets[i].len()
                    && !report@[i].locked,
    {
        let mut report: Vec<BucketReport> = Vec::with_capacity(self.slots.len());
        let mut i: usize = 0;
        while i < self.slots.len()
            invariant
                self.wf(),
                i <= self.slots@.len(),
                report@.len() == i,
                forall|j: int|
                    0 <= j < i ==> (#[trigger] report@[j]).len == self@.buckets[j].len()
                        && !report@[j].locked,
            decreases self.slots@.len() - i,
        {
            report.push(self.slots[i].debug());
            i += 1;
        }
        report
    }
}

impl<T, H: Fn(&mut T)> SyncPool<T, H> {
    /// Takes `val` back into the pool, or drops it if no room is found.
    ///
    /// The buckets are examined backward from the cursor, `budget()` of them
    /// at most. The first one with a free slot becomes the cursor and gets
    /// `val` on top, after the reset hook has run on it if one is installed.
    /// If none has a free slot the pool stays as it is, cursor included, and
    /// `val` is dropped. The installed hook has to accept every value.
    pub fn put(&mut self, val: T)
        requires
            old(self).wf(),
            hook_ready(old(self)@.hook),
        ensures
            final(self).wf(),
            match old(self)@.put_target() {
                Some(p) => {
                    &&& final(self)@.buckets[p].len() == old(self)@.buckets[p].len() + 1
                    &&& final(self)@ == old(self)@.stored(p, final(self)@.buckets[p].last())
                    &&& match old(self)@.hook {
                        Some(h) => exists|x: &mut T|
                            *x == val && *final(x) == final(self)@.buckets[p].last()
                                && #[trigger] call_ensures(h, (x,), ()),
                        None => final(self)@.buckets[p].last() == val,
                    }
                },
                None => final(self)@ == old(self)@,
            },
    {
        self.visitor_counter.register();
        let cap: usize = self.slots.len();
        let origin: usize = self.curr % cap;
        let mut pos: usize = origin;
        let mut trials: usize = cap / 2;
        let ghost before = self@;
        let ghost mut k: int = 0;
        proof {
            lemma_small_mod(before.cursor, cap as nat);
        }
        loop
            invariant_except_break
                0 <= k < before.budget(),
                trials == cap / 2 - k,
                pos == before.put_probe(k),
                0 <= pos < cap,
                before.put_target_from(k) == before.put_target(),
            invariant
                cap == self.slots@.len(),
                cap >= 1,
                origin == old(self).curr,
                origin < cap,
                before.cursor == origin,
                before == old(self)@,
                self@ == before,
                self.curr == old(self).curr,
                self.fault_count == old(self).fault_count,
                self.configure == old(self).configure,
                self.reset_handle == old(self).reset_handle,
                hook_ready(self.reset_handle),
                self.visitor_counter.visitors() == 1,
                !self.visitor_counter.raised(),
                forall|i: int|
                    0 <= i < cap ==> (#[trigger] self.slots@[i]).wf() && !self.slots@[i].locked(),
            ensures
                before.put_target() is None,
            decreases before.budget() - k,
        {
            let slot = &mut self.slots[pos];
            if slot.try_acquire(false) {
                self.curr = pos;
                slot.release(val, self.reset_handle.as_ref());
                slot.unlock();
                self.visitor_counter.deregister();
                proof {
                    let top = self.slots@[pos as int]@.last();
                    assert(self.slots@[pos as int]@ =~= before.buckets[pos as int].push(top));
                    assert(self@.buckets =~= before.stored(pos as int, top).buckets);
                    assert(self@ =~= before.stored(pos as int, top));
                }
                return ;
            }
            proof {
                assert(self@.buckets =~= before.buckets);
                lemma_ring_backward(before.cursor - k, cap as int);
                k = k + 1;
            }
            pos = if pos == 0 {
                cap - 1
            } else {
                pos - 1
            };
            trials = trials.saturating_sub(1);
            if trials == 0 || pos == origin {
                proof {
                    if k < cap {
                        lemma_ring_offset_backward(before.cursor as int, k, cap as int);
                    }
                }
                break ;
            }
        }
        self.visitor_counter.deregister();
    }
}

impl<T: Default, H> SyncPool<T, H> {
    /// A pool of `POOL_SIZE` buckets, each filled with default values.
    pub fn new() -> (pool: Self)
        ensures
            pool.wf(),
            pool@.buckets.len() == POOL_SIZE,
            forall|i: int| 0 <= i < pool@.buckets.len() ==> is_fresh_bucket(#[trigger] pool@.buckets[i]),
            pool@.cursor == 0,
            pool@.faults == 0,
            !pool@.expansion,
            pool@.hook is None,
    {
        Self::make_pool(POOL_SIZE)
    }

    /// A pool for about `size` values: one bucket for each full `SLOT_CAP`
    /// of them, and at least one bucket. Each bucket is filled with default
    /// values.
    pub fn with_size(size: usize) -> (pool: Self)
        ensures
            pool.wf(),
            pool@.buckets.len() == (if size / SLOT_CAP < 1 {
                1
            } else {
                size / SLOT_CAP
            }),
            forall|i: int| 0 <= i < pool@.buckets.len() ==> is_fresh_bucket(#[trigger] pool@.buckets[i]),
            pool@.cursor == 0,
            pool@.faults == 0,
            !pool@.expansion,
            pool@.hook is None,
    {
        let mut pool_size: usize = size / SLOT_CAP;
        if pool_size < 1 {
            pool_size = 1;
        }
        Self::make_pool(pool_size)
    }

    /// Hands out a pooled value, or a fresh default value if none is found.
    ///
    /// The buckets are examined forward from the cursor, `budget()` of them
    /// at most. The first one that holds a value gives up its top value and
    /// becomes the cursor. If none holds a value the pool stays as it is,
    /// cursor included, but for its fault counter, which goes up by one and
    /// stays where it is once it has reached `usize::MAX`.
    pub fn get(&mut self) -> (value: T)
        requires
            old(self).wf(),
        ensures
            final(self).wf(),
            match old(self)@.get_target() {
                Some(p) => value == old(self)@.buckets[p].last() && final(self)@ == old(
                    self,
                )@.taken(p),
                None => is_default(value) && final(self)@ == old(self)@.faulted(),
            },
    {
        self.visitor_counter.register();
        let cap: usize = self.slots.len();
        let origin: usize = self.curr % cap;
        let mut pos: usize = origin;
        let mut trials: usize = cap / 2;
        let ghost before = self@;
        let ghost mut k: int = 0;
        proof {
            lemma_small_mod(before.cursor, cap as nat);
        }
        loop
            invariant_except_break
                0 <= k < before.budget(),
                trials == cap / 2 - k,
                pos == before.get_probe(k),
                0 <= pos < cap,
                before.get_target_from(k) == before.get_target(),
            invariant
                cap == self.slots@.len(),
                cap >= 1,
                origin == old(self).curr,
                origin < cap,
                before.cursor == origin,
                before == old(self)@,
                self@ == before,
                self.curr == old(self).curr,
                self.fault_count == old(self).fault_count,
                self.configure == old(self).configure,
                self.reset_handle == old(self).reset_handle,
                self.visitor_counter.visitors() == 1,
                !self.visitor_counter.raised(),
                forall|i: int|
                    0 <= i < cap ==> (#[trigger] self.slots@[i]).wf() && !self.slots@[i].locked(),
            ensures
                before.get_target() is None,
            decreases before.budget() - k,
        {
            let slot = &mut self.slots[pos];
            if slot.try_acquire(true) {
                let checkout = slot.checkout();
                slot.unlock();
                if let Some(val) = checkout {
                    self.curr = pos;
                    self.visitor_counter.deregister();
                    proof {
                        assert(self@.buckets =~= before.taken(pos as int).buckets);
                        assert(self@ =~= before.taken(pos as int));
                    }
                    return val;
                }
            }
            proof {
                assert(self@.buckets =~= before.buckets);
                lemma_ring_forward(before.cursor + k, cap as int);
                k = k + 1;
            }
            pos = if pos + 1 == cap {
                0
            } else {
                pos + 1
            };
            trials = trials.saturating_sub(1);
            if trials == 0 || pos == origin {
                proof {
                    if k < cap {
                        lemma_ring_offset_forward(before.cursor as int, k, cap as int);
                    }
                }
                break ;
            }
        }
        self.fault_count = self.fault_count.saturating_add(1);
        self.visitor_counter.deregister();
        T::default()
    }

    /// Appends `additional` buckets filled with default values. Only the
    /// writer that owns the bucket array may do so: the visitor counter is at
    /// `EXCLUSIVE` under a raised barrier.
    fn grow(&mut self, additional: usize)
        requires
            old(self).visitor_counter.exclusive(),
            old(self).visitor_counter.raised(),
            old(self).slots@.len() + additional <= usize::MAX,
            forall|i: int|
                0 <= i < old(self).slots@.len() ==> (#[trigger] old(self).slots@[i]).wf() && !old(
                    self,
                ).slots@[i].locked(),
        ensures
            final(self).slots@.len() == old(self).slots@.len() + additional,
            forall|i: int|
                0 <= i < old(self).slots@.len() ==> #[trigger] final(self).slots@[i] == old(
                    self,
                ).slots@[i],
            forall|i: int|
                0 <= i < final(self).slots@.len() ==> (#[trigger] final(self).slots@[i]).wf()
                    && !final(self).slots@[i].locked(),
            forall|i: int|
                old(self).slots@.len() <= i < final(self).slots@.len() ==> is_fresh_bucket(
                    (#[trigger] final(self).slots@[i])@,
                ),
            final(self).curr == old(self).curr,
            final(self).visitor_counter == old(self).visitor_counter,
            final(self).fault_count == old(self).fault_count,
            final(self).configure == old(self).configure,
            final(self).reset_handle == old(self).reset_handle,
    {
        let mut added: usize = 0;
        while added < additional
            invariant
                added <= additional,
                old(self).slots@.len() + additional <= usize::MAX,
                self.slots@.len() == old(self).slots@.len() + added,
                forall|i: int|
                    0 <= i < old(self).slots@.len() ==> #[trigger] self.slots@[i] == old(
                        self,
                    ).slots@[i],
                forall|i: int|
                    0 <= i < self.slots@.len() ==> (#[trigger] self.slots@[i]).wf()
                        && !self.slots@[i].locked(),
                forall|i: int|
                    old(self).slots@.len() <= i < self.slots@.len() ==> is_fresh_bucket(
                        (#[trigger] self.slots@[i])@,
                    ),
                self.curr == old(self).curr,
                self.visitor_counter == old(self).visitor_counter,
                self.fault_count == old(self).fault_count,
                self.configure == old(self).configure,
                self.reset_handle == old(self).reset_handle,
            decreases additional - added,
        {
            self.slots.push(Bucket::new(true));
            added += 1;
        }
    }

    /// Brings the bits of `mask` to `target`: if some bit of `mask` is set
    /// and `target` is not, or the other way round, the bits of `mask` are
    /// flipped; a configuration that matches already is left alone.
    fn update_config(&mut self, mask: usize, target: bool)
        ensures
            final(self).configure == (if (old(self).configure & mask > 0) == target {
                old(self).configure
            } else {
                old(self).configure ^ mask
            }),
            final(self).slots == old(self).slots,
            final(self).curr == old(self).curr,
            final(self).visitor_counter == old(self).visitor_counter,
            final(self).fault_count == old(self).fault_count,
            final(self).reset_handle == old(self).reset_handle,
    {
        let curr: usize = self.configure;
        if (curr & mask > 0) != target {
            self.configure = curr ^ mask;
        }
    }

    /// A pool of `size` buckets, each filled with default values.
    fn make_pool(size: usize) -> (pool: Self)
        requires
            size >= 1,
        ensures
            pool.wf(),
            pool@.buckets.len() == size,
            forall|i: int| 0 <= i < pool@.buckets.len() ==> is_fresh_bucket(#[trigger] pool@.buckets[i]),
            pool@.cursor == 0,
            pool@.faults == 0,
            !pool@.expansion,
            pool@.hook is None,
    {
        let mut s: Vec<Bucket<T>> = Vec::with_capacity(size);
        let mut made: usize = 0;
        while made < size
            invariant
                made <= size,
                s@.len() == made,
                forall|i: int|
                    0 <= i < made ==> (#[trigger] s@[i]).wf() && !s@[i].locked() && is_fresh_bucket(
                        s@[i]@,
                    ),
            decreases size - made,
        {
            s.push(Bucket::new(true));
            made += 1;
        }
        assert(0usize & CONFIG_ALLOW_EXPANSION == 0) by (bit_vector);
        SyncPool {
            slots: s,
            curr: 0,
            visitor_counter: VisitorBarrier::new(),
            fault_count: 0,
            configure: 0,
            reset_handle: None,
        }
    }
}

impl<T: Default, H> Default for SyncPool<T, H> {
    /// A pool of `POOL_SIZE` buckets, each filled with default values.
    fn default() -> (pool: Self)
        ensures
            pool.wf(),
            pool@.buckets.len() == POOL_SIZE,
            forall|i: int|
                0 <= i < pool@.buckets.len() ==> is_fresh_bucket(#[trigger] pool@.buckets[i]),
            pool@.cursor == 0,
            pool@.faults == 0,
            !pool@.expansion,
            pool@.hook is None,
    {
        SyncPool::make_pool(POOL_SIZE)
    }
}

/// What can be read off a pool.
pub trait PoolState {
    /// Whether the configuration allows the pool to grow.
    spec fn expansion_allowed(&self) -> bool;

    /// Number of `get` calls that found no pooled value since the pool was
    /// made or last grew.
    spec fn faults(&self) -> nat;

    /// Whether the configuration allows the pool to grow.
    fn expansion_enabled(&self) -> (enabled: bool)
        ensures
            enabled == self.expansion_allowed(),
    ;

    /// Number of `get` calls that found no pooled value since the pool was
    /// made or last grew.
    fn fault_count(&self) -> (count: usize)
        ensures
            count == self.faults(),
    ;
}

impl<T, H> PoolState for SyncPool<T, H> {
    open spec fn expansion_allowed(&self) -> bool {
        self@.expansion
    }

    open spec fn faults(&self) -> nat {
        self@.faults
    }

    fn expansion_enabled(&self) -> (enabled: bool) {
        let configure: usize = self.configure;
        configure & CONFIG_ALLOW_EXPANSION > 0
    }

    fn fault_count(&self) -> (count: usize) {
        self.fault_count
    }
}

/// How a pool is configured and grown.
pub trait PoolManager<T, H> {
    /// The pool is at rest: no operation on it is under way.
    spec fn at_rest(&self) -> bool;

    /// Number of buckets.
    spec fn width(&self) -> nat;

    /// Allows or forbids expansion. A call that asks for what is configured
    /// already changes nothing.
    fn allow_expansion(&mut self, allow: bool)
        requires
            old(self).at_rest(),
        ensures
            final(self).at_rest(),
    ;

    /// Appends `additional` buckets filled with default values, and says
    /// whether it did. The number of buckets has to stay within `usize`.
    fn expand(&mut self, additional: usize, block: bool) -> (grown: bool)
        requires
            old(self).at_rest(),
            old(self).width() + additional <= usize::MAX,
        ensures
            final(self).at_rest(),
    ;

    /// Installs `handle` as the reset hook, in place of the one installed
    /// before if there was one.
    fn reset_handle(&mut self, handle: H)
        requires
            old(self).at_rest(),
        ensures
            final(self).at_rest(),
    ;
}

impl<T: Default, H> PoolManager<T, H> for SyncPool<T, H> {
    open spec fn at_rest(&self) -> bool {
        self.wf()
    }

    open spec fn width(&self) -> nat {
        self@.buckets.len()
    }

    fn allow_expansion(&mut self, allow: bool)
        ensures
            final(self)@ == old(self)@.with_expansion(allow),
    {
        if self.expansion_enabled() == allow {
            assert(self@ =~= old(self)@.with_expansion(allow));
            return ;
        }
        self.update_config(CONFIG_ALLOW_EXPANSION, allow);
        proof {
            let c = old(self).configure;
            assert(((c ^ 1usize) & 1usize > 0) == !(c & 1usize > 0)) by (bit_vector);
            assert(self@.buckets =~= old(self)@.buckets);
            assert(self@ =~= old(self)@.with_expansion(allow));
        }
    }

    /// The pool grows if expansion is allowed and it has no more than
    /// `EXPANSION_CAP` buckets. It then has `additional` more buckets, each
    /// filled with default values, behind those it had, and its fault
    /// counter is back at 0. Otherwise nothing changes.
    ///
    /// The new buckets are appended while the barrier is raised and the
    /// visitor counter is at `EXCLUSIVE`; both are back at rest when the
    /// call returns, whatever it returns. A pool at rest has no visitors, so
    /// the writer never has to wait and `block` makes no difference.
    fn expand(&mut self, additional: usize, block: bool) -> (grown: bool)
        ensures
            grown == (old(self)@.expansion && old(self)@.buckets.len() <= EXPANSION_CAP),
            grown ==> {
                &&& final(self)@.buckets.len() == old(self)@.buckets.len() + additional
                &&& final(self)@ == old(self)@.grown(
                    final(self)@.buckets.subrange(
                        old(self)@.buckets.len() as int,
                        final(self)@.buckets.len() as int,
                    ),
                )
                &&& forall|i: int|
                    old(self)@.buckets.len() <= i < final(self)@.buckets.len() ==> is_fresh_bucket(
                        #[trigger] final(self)@.buckets[i],
                    )
            },
            !grown ==> final(self)@ == old(self)@,
    {
        if !self.expansion_enabled() {
            return false;
        }
        if self.slots.len() > EXPANSION_CAP {
            return false;
        }
        if !self.visitor_counter.raise() {
            return false;
        }
        let safe = self.visitor_counter.drain(block);
        if safe {
            self.grow(additional);
            self.fault_count = 0;
        }
        self.visitor_counter.lower();
        proof {
            if safe {
                let fresh = self@.buckets.subrange(
                    old(self)@.buckets.len() as int,
                    self@.buckets.len() as int,
                );
                assert(self@.buckets =~= old(self)@.buckets + fresh);
                assert(self@ =~= old(self)@.grown(fresh));
            } else {
                assert(self@.buckets =~= old(self)@.buckets);
                assert(self@ =~= old(self)@);
            }
        }
        safe
    }

    fn reset_handle(&mut self, handle: H)
        ensures
            final(self)@ == old(self)@.with_hook(handle),
    {
        self.reset_handle = Some(handle);
        proof {
            assert(self@.buckets =~= old(self)@.buckets);
            assert(self@ =~= old(self)@.with_hook(handle));
        }
    }
}

} // verus!
