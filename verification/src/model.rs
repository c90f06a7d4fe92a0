//! The pool as a mathematical value, and the probing order over its buckets.
use crate::bucket::SLOT_CAP;
use vstd::arithmetic::div_mod::{
    lemma_fundamental_div_mod,
    lemma_fundamental_div_mod_converse,
    lemma_mod_bound,
};
use vstd::multiset::Multiset;
use vstd::prelude::*;
use vstd::seq_lib::{to_multiset_build, to_multiset_len};

verus! {

/// Number of buckets that one `get` or `put` examines at most: half of the
/// ring, and at least one.
pub open spec fn probe_budget(cap: nat) -> nat {
    if cap < 2 {
        1
    } else {
        cap / 2
    }
}

/// Whether the reset hook, if one is installed, may be run on every value.
pub open spec fn hook_ready<T, H: Fn(&mut T)>(hook: Option<H>) -> bool {
    hook matches Some(h) ==> forall|x: &mut T| call_requires(h, (x,))
}

/// What a pool holds.
#[verifier::ext_equal]
pub struct PoolView<T, H> {
    /// The values of each bucket, bottom to top, in the order of the ring.
    pub buckets: Seq<Seq<T>>,
    /// Index of the bucket that the next operation examines first.
    pub cursor: nat,
    /// Number of `get` calls that found no pooled value.
    pub faults: nat,
    /// Whether the configuration allows the pool to grow.
    pub expansion: bool,
    /// The reset hook, if one is installed.
    pub hook: Option<H>,
}

impl<T, H> PoolView<T, H> {
    /// There is at least one bucket, the cursor names one, no bucket holds
    /// more than `SLOT_CAP` values and the fault counter fits its word.
    pub open spec fn wf(self) -> bool {
        &&& 1 <= self.buckets.len()
        &&& self.cursor < self.buckets.len()
        &&& self.faults <= usize::MAX
        &&& forall|i: int|
            0 <= i < self.buckets.len() ==> (#[trigger] self.buckets[i]).len() <= SLOT_CAP
    }

    /// Number of buckets that one operation examines at most.
    pub open spec fn budget(self) -> nat {
        probe_budget(self.buckets.len())
    }

    /// The bucket that `get` examines after `k` misses: `get` walks the ring
    /// forward from the cursor.
    pub open spec fn get_probe(self, k: int) -> int {
        (self.cursor + k) % (self.buckets.len() as int)
    }

    /// The bucket that `put` examines after `k` misses: `put` walks the ring
    /// backward from the cursor.
    pub open spec fn put_probe(self, k: int) -> int {
        (self.cursor - k) % (self.buckets.len() as int)
    }

    /// The first bucket with a value in it among those that `get` examines
    /// after `k` misses.
    pub open spec fn get_target_from(self, k: int) -> Option<int>
        decreases self.budget() - k,
    {
        if k < 0 || k >= self.budget() {
            None
        } else if self.buckets[self.get_probe(k)].len() > 0 {
            Some(self.get_probe(k))
        } else {
            self.get_target_from(k + 1)
        }
    }

    /// The bucket that `get` takes from, if any.
    pub open spec fn get_target(self) -> Option<int> {
        self.get_target_from(0)
    }

    /// The first bucket with a free slot among those that `put` examines
    /// after `k` misses.
    pub open spec fn put_target_from(self, k: int) -> Option<int>
        decreases self.budget() - k,
    {
        if k < 0 || k >= self.budget() {
            None
        } else if self.buckets[self.put_probe(k)].len() < SLOT_CAP {
            Some(self.put_probe(k))
        } else {
            self.put_target_from(k + 1)
        }
    }

    /// The bucket that `put` stores into, if any.
    pub open spec fn put_target(self) -> Option<int> {
        self.put_target_from(0)
    }

    /// The pool after the top value of bucket `p` was handed out.
    pub open spec fn taken(self, p: int) -> Self {
        PoolView {
            buckets: self.buckets.update(p, self.buckets[p].drop_last()),
            cursor: p as nat,
            ..self
        }
    }

    /// The pool after `value` was put on top of bucket `p`.
    pub open spec fn stored(self, p: int, value: T) -> Self {
        PoolView {
            buckets: self.buckets.update(p, self.buckets[p].push(value)),
            cursor: p as nat,
            ..self
        }
    }

    /// The pool after a `get` that found nothing: one more fault, unless the
    /// counter is at its largest value already.
    pub open spec fn faulted(self) -> Self {
        PoolView {
            faults: if self.faults < usize::MAX {
                self.faults + 1
            } else {
                self.faults
            },
            ..self
        }
    }

    /// The pool after `fresh` buckets were appended: the fault counter starts
    /// again at 0.
    pub open spec fn grown(self, fresh: Seq<Seq<T>>) -> Self {
        PoolView { buckets: self.buckets + fresh, faults: 0, ..self }
    }

    /// The pool with expansion allowed or forbidden.
    pub open spec fn with_expansion(self, allow: bool) -> Self {
        PoolView { expansion: allow, ..self }
    }

    /// The pool with `hook` installed.
    pub open spec fn with_hook(self, hook: H) -> Self {
        PoolView { hook: Some(hook), ..self }
    }

    /// Number of values held in all buckets together.
    pub open spec fn total(self) -> nat {
        total_len(self.buckets)
    }

    /// The values held in all buckets together, each as often as it is held.
    pub open spec fn held(self) -> Multiset<T> {
        pooled(self.buckets)
    }
}

/// Sum of the lengths of `buckets`.
pub open spec fn total_len<T>(buckets: Seq<Seq<T>>) -> nat
    decreases buckets.len(),
{
    if buckets.len() == 0 {
        0
    } else {
        total_len(buckets.drop_last()) + buckets.last().len()
    }
}

/// The values of `buckets`, each as often as it occurs.
pub open spec fn pooled<T>(buckets: Seq<Seq<T>>) -> Multiset<T>
    decreases buckets.len(),
{
    if buckets.len() == 0 {
        Multiset::empty()
    } else {
        pooled(buckets.drop_last()).add(buckets.last().to_multiset())
    }
}

/// Replacing one bucket changes the sum of the lengths by the difference of
/// the two lengths.
pub proof fn lemma_total_update<T>(buckets: Seq<Seq<T>>, p: int, bucket: Seq<T>)
    requires
        0 <= p < buckets.len(),
    ensures
        total_len(buckets.update(p, bucket)) + buckets[p].len() == total_len(buckets)
            + bucket.len(),
    decreases buckets.len(),
{
    let after = buckets.update(p, bucket);
    if p == buckets.len() - 1 {
        assert(after.drop_last() =~= buckets.drop_last());
    } else {
        assert(after.drop_last() =~= buckets.drop_last().update(p, bucket));
        lemma_total_update(buckets.drop_last(), p, bucket);
    }
}

/// Replacing one bucket takes its values out of what is held and puts those
/// of the new bucket in.
pub proof fn lemma_pooled_update<T>(buckets: Seq<Seq<T>>, p: int, bucket: Seq<T>)
    requires
        0 <= p < buckets.len(),
    ensures
        pooled(buckets.update(p, bucket)).add(buckets[p].to_multiset()) == pooled(buckets).add(
            bucket.to_multiset(),
        ),
    decreases buckets.len(),
{
    broadcast use vstd::multiset::group_multiset_axioms;

    let after = buckets.update(p, bucket);
    let rest = buckets.drop_last();
    let lhs = pooled(after).add(buckets[p].to_multiset());
    let rhs = pooled(buckets).add(bucket.to_multiset());
    if p == buckets.len() - 1 {
        assert(after.drop_last() =~= rest);
        assert(lhs =~= rhs);
    } else {
        assert(after.drop_last() =~= rest.update(p, bucket));
        lemma_pooled_update(rest, p, bucket);
        let lhs_rest = pooled(rest.update(p, bucket)).add(rest[p].to_multiset());
        let rhs_rest = pooled(rest).add(bucket.to_multiset());
        assert forall|v: T| lhs.count(v) == rhs.count(v) by {
            assert(lhs_rest.count(v) == rhs_rest.count(v));
        }
        assert(lhs =~= rhs);
    }
}

/// As many values are held as the lengths add up to.
pub proof fn lemma_pooled_len<T>(buckets: Seq<Seq<T>>)
    ensures
        pooled(buckets).len() == total_len(buckets),
    decreases buckets.len(),
{
    broadcast use vstd::multiset::group_multiset_axioms;

    if buckets.len() > 0 {
        lemma_pooled_len(buckets.drop_last());
        to_multiset_len(buckets.last());
    }
}

/// One step forward on a ring of `cap` places.
pub proof fn lemma_ring_forward(a: int, cap: int)
    requires
        cap > 0,
    ensures
        0 <= a % cap < cap,
        (a + 1) % cap == (if a % cap + 1 == cap {
            0
        } else {
            a % cap + 1
        }),
{
    lemma_mod_bound(a, cap);
    lemma_fundamental_div_mod(a, cap);
    let q = a / cap;
    let r = a % cap;
    if r + 1 == cap {
        assert(a + 1 == (q + 1) * cap + 0) by (nonlinear_arith)
            requires
                a == cap * q + r,
                r + 1 == cap,
        ;
        lemma_fundamental_div_mod_converse(a + 1, cap, q + 1, 0);
    } else {
        assert(a + 1 == q * cap + (r + 1)) by (nonlinear_arith)
            requires
                a == cap * q + r,
        ;
        lemma_fundamental_div_mod_converse(a + 1, cap, q, r + 1);
    }
}

/// One step backward on a ring of `cap` places.
pub proof fn lemma_ring_backward(a: int, cap: int)
    requires
        cap > 0,
    ensures
        0 <= a % cap < cap,
        (a - 1) % cap == (if a % cap == 0 {
            cap - 1
        } else {
            a % cap - 1
        }),
{
    lemma_ring_forward(a - 1, cap);
}

/// Where `k` steps forward from place `c` lead on a ring of `cap` places.
pub proof fn lemma_ring_offset_forward(c: int, k: int, cap: int)
    requires
        0 <= c < cap,
        0 <= k < cap,
    ensures
        (c + k) % cap == (if c + k < cap {
            c + k
        } else {
            c + k - cap
        }),
{
    if c + k < cap {
        lemma_fundamental_div_mod_converse(c + k, cap, 0, c + k);
    } else {
        lemma_fundamental_div_mod_converse(c + k, cap, 1, c + k - cap);
    }
}

/// Where `k` steps backward from place `c` lead on a ring of `cap` places.
pub proof fn lemma_ring_offset_backward(c: int, k: int, cap: int)
    requires
        0 <= c < cap,
        0 <= k < cap,
    ensures
        (c - k) % cap == (if k <= c {
            c - k
        } else {
            c - k + cap
        }),
{
    if k <= c {
        lemma_fundamental_div_mod_converse(c - k, cap, 0, c - k);
    } else {
        lemma_fundamental_div_mod_converse(c - k, cap, -1, c - k + cap);
    }
}

impl<T, H> PoolView<T, H> {
    /// Every probe names a bucket.
    pub proof fn lemma_probe_in_range(self, k: int)
        requires
            self.buckets.len() > 0,
        ensures
            0 <= self.get_probe(k) < self.buckets.len(),
            0 <= self.put_probe(k) < self.buckets.len(),
    {
        lemma_mod_bound(self.cursor + k, self.buckets.len() as int);
        lemma_mod_bound(self.cursor - k, self.buckets.len() as int);
    }

    /// The first probe is the cursor.
    pub proof fn lemma_first_probe(self)
        requires
            self.wf(),
        ensures
            self.get_probe(0) == self.cursor,
            self.put_probe(0) == self.cursor,
            self.budget() >= 1,
    {
        lemma_ring_offset_forward(self.cursor as int, 0, self.buckets.len() as int);
    }

    /// `get` takes from the first bucket, in its probing order, that holds a
    /// value; it finds none only if all the buckets it examines are empty.
    pub proof fn lemma_get_target_is_first(self, k: int)
        requires
            self.wf(),
            0 <= k,
        ensures
            match self.get_target_from(k) {
                Some(p) => exists|j: int|
                    {
                        &&& k <= j < self.budget()
                        &&& p == #[trigger] self.get_probe(j)
                        &&& 0 <= p < self.buckets.len()
                        &&& self.buckets[p].len() > 0
                        &&& forall|i: int|
                            k <= i < j ==> self.buckets[#[trigger] self.get_probe(i)].len() == 0
                    },
                None => forall|i: int|
                    k <= i < self.budget() ==> self.buckets[#[trigger] self.get_probe(i)].len()
                        == 0,
            },
        decreases self.budget() - k,
    {
        if k < self.budget() {
            self.lemma_probe_in_range(k);
            if self.buckets[self.get_probe(k)].len() > 0 {
                assert(self.get_target_from(k) == Some(self.get_probe(k)));
            } else {
                self.lemma_get_target_is_first(k + 1);
                match self.get_target_from(k + 1) {
                    Some(p) => {
                        let j = choose|j: int|
                            {
                                &&& k + 1 <= j < self.budget()
                                &&& p == #[trigger] self.get_probe(j)
                                &&& 0 <= p < self.buckets.len()
                                &&& self.buckets[p].len() > 0
                                &&& forall|i: int|
                                    k + 1 <= i < j ==> self.buckets[#[trigger] self.get_probe(
                                        i,
                                    )].len() == 0
                            };
                        assert(p == self.get_probe(j));
                    },
                    None => {},
                }
            }
        }
    }

    /// `put` stores into the first bucket, in its probing order, that has a
    /// free slot; it finds none only if all the buckets it examines are full.
    pub proof fn lemma_put_target_is_first(self, k: int)
        requires
            self.wf(),
            0 <= k,
        ensures
            match self.put_target_from(k) {
                Some(p) => exists|j: int|
                    {
                        &&& k <= j < self.budget()
                        &&& p == #[trigger] self.put_probe(j)
                        &&& 0 <= p < self.buckets.len()
                        &&& self.buckets[p].len() < SLOT_CAP
                        &&& forall|i: int|
                            k <= i < j ==> self.buckets[#[trigger] self.put_probe(i)].len()
                                == SLOT_CAP
                    },
                None => forall|i: int|
                    k <= i < self.budget() ==> self.buckets[#[trigger] self.put_probe(i)].len()
                        == SLOT_CAP,
            },
        decreases self.budget() - k,
    {
        if k < self.budget() {
            self.lemma_probe_in_range(k);
            if self.buckets[self.put_probe(k)].len() < SLOT_CAP {
                assert(self.put_target_from(k) == Some(self.put_probe(k)));
            } else {
                self.lemma_put_target_is_first(k + 1);
                match self.put_target_from(k + 1) {
                    Some(p) => {
                        let j = choose|j: int|
                            {
                                &&& k + 1 <= j < self.budget()
                                &&& p == #[trigger] self.put_probe(j)
                                &&& 0 <= p < self.buckets.len()
                                &&& self.buckets[p].len() < SLOT_CAP
                                &&& forall|i: int|
                                    k + 1 <= i < j ==> self.buckets[#[trigger] self.put_probe(
                                        i,
                                    )].len() == SLOT_CAP
                            };
                        assert(p == self.put_probe(j));
                    },
                    None => {},
                }
            }
        }
    }

    /// Handing a value out, taking one back and counting a fault keep the
    /// pool well formed.
    pub proof fn lemma_steps_keep_wf(self, p: int, value: T)
        requires
            self.wf(),
            0 <= p < self.buckets.len(),
        ensures
            self.buckets[p].len() > 0 ==> self.taken(p).wf(),
            self.buckets[p].len() < SLOT_CAP ==> self.stored(p, value).wf(),
            self.faulted().wf(),
    {
        if self.buckets[p].len() > 0 {
            let next = self.taken(p);
            assert forall|i: int| 0 <= i < next.buckets.len() implies (#[trigger] next.buckets[i]).len()
                <= SLOT_CAP by {
                assert(self.buckets[i].len() <= SLOT_CAP);
            }
        }
        if self.buckets[p].len() < SLOT_CAP {
            let next = self.stored(p, value);
            assert forall|i: int| 0 <= i < next.buckets.len() implies (#[trigger] next.buckets[i]).len()
                <= SLOT_CAP by {
                assert(self.buckets[i].len() <= SLOT_CAP);
            }
        }
    }

    /// A `get` on a pool whose every bucket is empty finds nothing: it
    /// leaves the buckets alone and counts one fault.
    pub proof fn lemma_get_from_empty_pool(self)
        requires
            self.wf(),
            forall|i: int| 0 <= i < self.buckets.len() ==> (#[trigger] self.buckets[i]).len() == 0,
        ensures
            self.get_target() is None,
            self.faulted().buckets == self.buckets,
            self.faults < usize::MAX ==> self.faulted().faults == self.faults + 1,
    {
        self.lemma_get_target_is_first(0);
    }

    /// A `put` on a pool whose every bucket is full finds no room: the value
    /// is dropped.
    pub proof fn lemma_put_into_full_pool(self)
        requires
            self.wf(),
            forall|i: int|
                0 <= i < self.buckets.len() ==> (#[trigger] self.buckets[i]).len() == SLOT_CAP,
        ensures
            self.put_target() is None,
    {
        self.lemma_put_target_is_first(0);
    }

    /// Round trip: a value that `get` took from a bucket goes back, by the
    /// next `put`, on top of the same bucket, and the buckets are as they
    /// were.
    pub proof fn lemma_round_trip(self, p: int)
        requires
            self.wf(),
            self.get_target() == Some(p),
        ensures
            self.taken(p).wf(),
            self.taken(p).put_target() == Some(p),
            self.taken(p).stored(p, self.buckets[p].last()).buckets == self.buckets,
            self.taken(p).stored(p, self.buckets[p].last()).held() == self.held(),
    {
        self.lemma_get_target_is_first(0);
        let mid = self.taken(p);
        self.lemma_steps_keep_wf(p, self.buckets[p].last());
        mid.lemma_first_probe();
        assert(self.buckets[p].len() <= SLOT_CAP);
        assert(mid.buckets[p].len() < SLOT_CAP);
        let v = self.buckets[p].last();
        assert(self.buckets[p].drop_last().push(v) =~= self.buckets[p]);
        assert(mid.stored(p, v).buckets =~= self.buckets);
    }

    /// No duplication: a value that `get` hands out leaves the pool. What
    /// the pool held before is what it holds afterwards and that value.
    pub proof fn lemma_taken_leaves(self, p: int)
        requires
            0 <= p < self.buckets.len(),
            self.buckets[p].len() > 0,
        ensures
            self.held() == self.taken(p).held().insert(self.buckets[p].last()),
            self.total() == self.taken(p).total() + 1,
    {
        broadcast use vstd::multiset::group_multiset_axioms;

        let bucket = self.buckets[p];
        lemma_pooled_update(self.buckets, p, bucket.drop_last());
        lemma_total_update(self.buckets, p, bucket.drop_last());
        assert(bucket.drop_last().push(bucket.last()) =~= bucket);
        to_multiset_build(bucket.drop_last(), bucket.last());
        let lhs = self.taken(p).held().add(bucket.to_multiset());
        let rhs = self.held().add(bucket.drop_last().to_multiset());
        assert forall|v: T|
            self.held().count(v) == self.taken(p).held().insert(bucket.last()).count(v) by {
            assert(lhs.count(v) == rhs.count(v));
        }
        assert(self.held() =~= self.taken(p).held().insert(bucket.last()));
    }

    /// A value that `put` stores is held afterwards, beside all that was
    /// held before.
    pub proof fn lemma_stored_stays(self, p: int, value: T)
        requires
            0 <= p < self.buckets.len(),
        ensures
            self.stored(p, value).held() == self.held().insert(value),
            self.stored(p, value).total() == self.total() + 1,
    {
        broadcast use vstd::multiset::group_multiset_axioms;

        let bucket = self.buckets[p];
        lemma_pooled_update(self.buckets, p, bucket.push(value));
        lemma_total_update(self.buckets, p, bucket.push(value));
        to_multiset_build(bucket, value);
        let lhs = self.stored(p, value).held().add(bucket.to_multiset());
        let rhs = self.held().add(bucket.push(value).to_multiset());
        assert forall|v: T|
            self.stored(p, value).held().count(v) == self.held().insert(value).count(v) by {
            assert(lhs.count(v) == rhs.count(v));
        }
        assert(self.stored(p, value).held() =~= self.held().insert(value));
    }

    /// As many values are held as the fill levels of the buckets add up to.
    pub proof fn lemma_held_is_total(self)
        ensures
            self.held().len() == self.total(),
    {
        lemma_pooled_len(self.buckets);
    }

    /// Asking twice for the same configuration is asking once.
    pub proof fn lemma_allow_expansion_idempotent(self, allow: bool)
        ensures
            self.with_expansion(allow).with_expansion(allow) == self.with_expansion(allow),
            self.expansion == allow ==> self.with_expansion(allow) == self,
    {
    }

    /// The fault counter never goes down in a `get` or a `put`, and starts
    /// again at 0 when the pool grows.
    pub proof fn lemma_faults_monotone(self, p: int, value: T, fresh: Seq<Seq<T>>)
        ensures
            self.taken(p).faults == self.faults,
            self.stored(p, value).faults == self.faults,
            self.faulted().faults >= self.faults,
            self.grown(fresh).faults == 0,
    {
    }
}

} // verus!
