//! A lockable container of up to [`SLOT_CAP`] ready-to-reuse values.
use crate::utils::cpu_relax;
use vstd::prelude::*;

verus! {

/// Number of slots in one bucket.
pub const SLOT_CAP: usize = 32;

/// Rounds a getter waits for a held lock; the pause doubles every round.
pub const GET_PATIENCE: u32 = 4;

/// Rounds a putter waits for a held lock. A putter waits longer than a
/// getter: a getter that misses can construct a value, a putter that misses
/// loses one.
pub const PUT_PATIENCE: u32 = 6;

/// Whether `value` is a value that `T::default()` may return.
pub open spec fn is_default<T: Default>(value: T) -> bool {
    call_ensures(T::default, (), value)
}

/// Whether the reset hook, if there is one, may be run on every value.
pub open spec fn hook_accepts_all<T, H: Fn(&mut T)>(hook: Option<&H>) -> bool {
    hook matches Some(h) ==> forall|x: &mut T| call_requires(*h, (x,))
}

/// Number of occupied slots among `slots`.
pub open spec fn occupied<T>(slots: Seq<Option<T>>) -> nat
    decreases slots.len(),
{
    if slots.len() == 0 {
        0
    } else {
        occupied(slots.drop_last()) + (if slots.last().is_some() {
            1nat
        } else {
            0nat
        })
    }
}

/// Slots that are occupied exactly below `level` hold `level` values.
pub proof fn lemma_occupied_prefix<T>(slots: Seq<Option<T>>, level: nat)
    requires
        level <= slots.len(),
        forall|i: int| 0 <= i < slots.len() ==> ((#[trigger] slots[i]).is_some() <==> i < level),
    ensures
        occupied(slots) == level,
    decreases slots.len(),
{
    if slots.len() > 0 {
        let rest = slots.drop_last();
        let below: nat = if level == slots.len() {
            (level - 1) as nat
        } else {
            level
        };
        assert forall|i: int| 0 <= i < rest.len() implies ((#[trigger] rest[i]).is_some() <==> i
            < below) by {
            assert(rest[i] == slots[i]);
        }
        lemma_occupied_prefix(rest, below);
    }
}

/// What one bucket looks like from outside: its fill level and its lock.
pub struct BucketReport {
    pub len: usize,
    pub locked: bool,
}

/// A fixed array of [`SLOT_CAP`] slots filled from index 0 upwards, with a
/// lock flag.
pub struct Bucket<T> {
    storage: Vec<Option<T>>,
    len: usize,
    lock: bool,
}

impl<T> View for Bucket<T> {
    type V = Seq<T>;

    /// The values held, from the bottom slot to the top one.
    open spec fn view(&self) -> Seq<T> {
        Seq::new(self.level(), |i: int| self.slots()[i].unwrap())
    }
}

impl<T> Bucket<T> {
    /// The slots, occupied or empty.
    pub closed spec fn slots(&self) -> Seq<Option<T>> {
        self.storage@
    }

    /// The recorded fill level: one past the highest occupied slot.
    pub closed spec fn level(&self) -> nat {
        self.len as nat
    }

    /// Whether the lock is held.
    pub closed spec fn locked(&self) -> bool {
        self.lock
    }

    /// Conservation: exactly the first `level()` of the `SLOT_CAP` slots are
    /// occupied, and the rest are empty.
    pub open spec fn wf(&self) -> bool {
        &&& self.slots().len() == SLOT_CAP
        &&& self.level() <= SLOT_CAP
        &&& forall|i: int|
            0 <= i < SLOT_CAP ==> ((#[trigger] self.slots()[i]).is_some() <==> i < self.level())
    }

    /// Per-bucket conservation: a well-formed bucket has exactly `level()`
    /// of its `SLOT_CAP` slots occupied and the other `SLOT_CAP - level()`
    /// empty, and its view holds one value for each occupied slot.
    pub proof fn lemma_conservation(&self)
        requires
            self.wf(),
        ensures
            occupied(self.slots()) == self.level(),
            self.slots().len() - occupied(self.slots()) == SLOT_CAP - self.level(),
            self@.len() == self.level(),
            forall|i: int| 0 <= i < self.level() ==> self.slots()[i] == Some(#[trigger] self@[i]),
    {
        lemma_occupied_prefix(self.slots(), self.level());
    }

    /// A bucket with every slot holding a default value if `fill` is set, and
    /// with every slot empty otherwise. The lock is released.
    pub fn new(fill: bool) -> (bucket: Self) where T: Default
        ensures
            bucket.wf(),
            !bucket.locked(),
            bucket@.len() == (if fill { SLOT_CAP as nat } else { 0 }),
            forall|i: int| 0 <= i < bucket@.len() ==> is_default(#[trigger] bucket@[i]),
    {
        let mut storage: Vec<Option<T>> = Vec::with_capacity(SLOT_CAP);
        let mut i: usize = 0;
        while i < SLOT_CAP
            invariant
                i <= SLOT_CAP,
                storage@.len() == i,
                fill ==> forall|j: int|
                    0 <= j < i ==> (#[trigger] storage@[j]).is_some() && is_default(
                        storage@[j].unwrap(),
                    ),
                !fill ==> forall|j: int| 0 <= j < i ==> (#[trigger] storage@[j]).is_none(),
            decreases SLOT_CAP - i,
        {
            if fill {
                storage.push(Some(T::default()));
            } else {
                storage.push(None);
            }
            i += 1;
        }
        let len: usize = if fill { SLOT_CAP } else { 0 };
        Bucket { storage, len, lock: false }
    }

    /// Number of values held.
    pub fn len(&self) -> (len: usize)
        ensures
            len == self.level(),
    {
        self.len
    }

    /// Whether the lock is held.
    pub fn is_locked(&self) -> (locked: bool)
        ensures
            locked == self.locked(),
    {
        self.lock
    }

    /// Tries to take the lock for a `get` (`for_get`) or for a `put`.
    ///
    /// While the lock is held the call pauses, for `GET_PATIENCE` or
    /// `PUT_PATIENCE` rounds, and then gives up. Once it has the lock it
    /// gives it back at once if the bucket cannot serve the caller: a `get`
    /// from an empty bucket, a `put` into a full one. The bucket's contents
    /// are never touched.
    pub fn try_acquire(&mut self, for_get: bool) -> (acquired: bool)
        requires
            old(self).wf(),
        ensures
            final(self).wf(),
            final(self).slots() == old(self).slots(),
            final(self).level() == old(self).level(),
            acquired == (!old(self).locked() && if for_get {
                old(self).level() > 0
            } else {
                old(self).level() < SLOT_CAP
            }),
            final(self).locked() == (old(self).locked() || acquired),
    {
        let patience: u32 = if for_get { GET_PATIENCE } else { PUT_PATIENCE };
        let mut round: u32 = 0;
        while self.lock && round < patience
            invariant
                round <= patience <= PUT_PATIENCE,
                *self == *old(self),
            decreases patience - round,
        {
            cpu_relax(round);
            round += 1;
        }
        if self.lock {
            return false;
        }
        self.lock = true;
        if (for_get && self.len == 0) || (!for_get && self.len == SLOT_CAP) {
            self.lock = false;
            return false;
        }
        true
    }

    /// Takes the top value out. The caller holds the lock and the bucket is
    /// not empty.
    pub fn checkout(&mut self) -> (item: Option<T>)
        requires
            old(self).wf(),
            old(self).locked(),
            old(self).level() > 0,
        ensures
            final(self).wf(),
            final(self).locked(),
            item == Some(old(self)@.last()),
            final(self)@ == old(self)@.drop_last(),
    {
        let top: usize = self.len - 1;
        let item = self.storage[top].take();
        if item.is_some() {
            self.len = top;
        }
        item
    }

    /// Puts `value` on top, after running the reset hook on it if there is
    /// one. The caller holds the lock and the bucket is not full.
    pub fn release<H: Fn(&mut T)>(&mut self, value: T, hook: Option<&H>)
        requires
            old(self).wf(),
            old(self).locked(),
            old(self).level() < SLOT_CAP,
            hook_accepts_all(hook),
        ensures
            final(self).wf(),
            final(self).locked(),
            final(self)@.len() == old(self)@.len() + 1,
            final(self)@.drop_last() == old(self)@,
            match hook {
                Some(h) => exists|x: &mut T|
                    *x == value && *final(x) == final(self)@.last() && #[trigger] call_ensures(
                        *h,
                        (x,),
                        (),
                    ),
                None => final(self)@.last() == value,
            },
    {
        let at: usize = self.len;
        if self.storage[at].is_none() {
            let mut value = value;
            match hook {
                Some(h) => {
                    h(&mut value);
                },
                None => {},
            }
            self.storage[at] = Some(value);
            self.len = at + 1;
        }
    }

    /// Gives the lock back.
    pub fn unlock(&mut self)
        ensures
            !final(self).locked(),
            final(self).slots() == old(self).slots(),
            final(self).level() == old(self).level(),
    {
        self.lock = false;
    }

    /// The fill level and the lock, for inspection.
    pub fn debug(&self) -> (report: BucketReport)
        ensures
            report.len == self.level(),
            report.locked == self.locked(),
    {
        BucketReport { len: self.len, locked: self.lock }
    }
}

} // verus!
