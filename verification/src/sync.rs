//! The kernel's locking primitives, as seen by the core that holds them:
//! the saved interrupt state of a critical section, a spin lock that owns
//! its data, and a write-once cell. Reading and writing `sstatus` and the
//! atomic instructions are the caller's; these types decide what is saved,
//! what is restored and who may touch the data.
use vstd::prelude::*;

verus! {

/// The supervisor interrupt-enable bit of `sstatus`.
pub const SSTATUS_SIE: u64 = 0b10;

/// The value of `sstatus` once interrupts are disabled: the SIE bit
/// cleared, every other bit kept.
pub fn irqs_disabled(sstatus: u64) -> (r: u64)
    ensures
        r == sstatus & !SSTATUS_SIE,
        r & SSTATUS_SIE == 0,
        r | (sstatus & SSTATUS_SIE) == sstatus,
{
    let r = sstatus & !SSTATUS_SIE;
    proof {
        assert(r & 0b10 == 0 && r | (sstatus & 0b10) == sstatus) by (bit_vector)
            requires r == sstatus & !0b10u64;
    }
    r
}

/// Saved interrupt state of the current core: the value `sstatus` held
/// when the section was entered, which leaving the section writes back.
#[derive(Debug)]
pub struct CriticalSection {
    saved_state: u64,
}

impl CriticalSection {
    /// The saved value of `sstatus`.
    pub closed spec fn saved(&self) -> u64 {
        self.saved_state
    }

    /// A section entered when `sstatus` held `saved_state`; the caller
    /// clears SIE (to `irqs_disabled(saved_state)`) in the same instruction.
    pub fn new(saved_state: u64) -> (r: Self)
        ensures
            r.saved() == saved_state,
    {
        CriticalSection { saved_state }
    }

    /// The value of `sstatus` saved on entry.
    pub fn saved_state(&self) -> (r: u64)
        ensures
            r == self.saved(),
    {
        self.saved_state
    }

    /// Leave the section: the value to write back to `sstatus`.
    pub fn restore(self) -> (r: u64)
        ensures
            r == self.saved(),
    {
        self.saved_state
    }
}

/// Nested critical sections: the inner section saves the disabled state,
/// so leaving it keeps interrupts off, and leaving the outer one brings
/// back exactly the state before both.
pub proof fn lemma_nested_sections(sstatus: u64)
    ensures
        (sstatus & !SSTATUS_SIE) & SSTATUS_SIE == 0,
        (sstatus & !SSTATUS_SIE) & !SSTATUS_SIE == sstatus & !SSTATUS_SIE,
{
    assert((sstatus & !0b10u64) & 0b10 == 0 && (sstatus & !0b10u64) & !0b10u64 == sstatus & !0b10u64)
        by (bit_vector);
}

/// Proof of holding a `Mutex`: what releasing it must restore.
#[derive(Debug)]
pub struct MutexGuard {
    cs: Option<CriticalSection>,
}

impl MutexGuard {
    /// The interrupt state to restore on release, if the lock was taken
    /// with interrupts saved.
    pub closed spec fn saved(&self) -> Option<u64> {
        match self.cs {
            Some(cs) => Some(cs.saved()),
            None => None,
        }
    }
}

/// A spin lock that owns its data.
#[derive(Debug)]
pub struct Mutex<T> {
    locked: bool,
    data: T,
}

impl<T> Mutex<T> {
    /// Whether the lock is held.
    pub closed spec fn held(&self) -> bool {
        self.locked
    }

    /// The protected data.
    pub closed spec fn value(&self) -> T {
        self.data
    }

    /// An unlocked mutex holding `value`.
    pub fn new(value: T) -> (r: Self)
        ensures
            !r.held(),
            r.value() == value,
    {
        Mutex { locked: false, data: value }
    }

    /// The data, the mutex given up.
    pub fn into_inner(self) -> (r: T)
        ensures
            r == self.value(),
    {
        self.data
    }

    /// A mutex holding `value`, already locked.
    pub fn new_locked(value: T) -> (r: Self)
        ensures
            r.held(),
            r.value() == value,
    {
        Mutex { locked: true, data: value }
    }

    /// Release the lock without a guard.
    pub fn force_unlock(&mut self)
        ensures
            !final(self).held(),
            final(self).value() == old(self).value(),
    {
        self.locked = false;
    }

    /// Whether the lock is held.
    pub fn is_locked(&self) -> (r: bool)
        ensures
            r == self.held(),
    {
        self.locked
    }

    /// Take the lock, leaving interrupts as they are. On one core a held
    /// lock would be waited for forever, so the lock must be free.
    pub fn lock(&mut self) -> (g: MutexGuard)
        requires
            !old(self).held(),
        ensures
            final(self).held(),
            final(self).value() == old(self).value(),
            g.saved() is None,
    {
        self.locked = true;
        MutexGuard { cs: None }
    }

    /// Take the lock inside the critical section `cs`, entered before
    /// waiting; releasing the guard leaves the section.
    pub fn lock_irqsave(&mut self, cs: CriticalSection) -> (g: MutexGuard)
        requires
            !old(self).held(),
        ensures
            final(self).held(),
            final(self).value() == old(self).value(),
            g.saved() == Some(cs.saved()),
    {
        self.locked = true;
        MutexGuard { cs: Some(cs) }
    }

    /// Take the lock if it is free; `None`, with the mutex unchanged, if it
    /// is held.
    pub fn try_lock(&mut self) -> (r: Option<MutexGuard>)
        ensures
            r.is_some() == !old(self).held(),
            final(self).held(),
            final(self).value() == old(self).value(),
            r matches Some(g) ==> g.saved() is None,
    {
        if self.locked {
            None
        } else {
            self.locked = true;
            Some(MutexGuard { cs: None })
        }
    }

    /// Take the lock inside the critical section `cs` if it is free; `None`
    /// if it is held, and the section is then left at once (its saved
    /// state is the caller's to restore).
    pub fn try_lock_irqsave(&mut self, cs: CriticalSection) -> (r: Option<MutexGuard>)
        ensures
            r.is_some() == !old(self).held(),
            final(self).held(),
            final(self).value() == old(self).value(),
            r matches Some(g) ==> g.saved() == Some(cs.saved()),
    {
        if self.locked {
            None
        } else {
            self.locked = true;
            Some(MutexGuard { cs: Some(cs) })
        }
    }

    /// Release the lock held through `guard`: first the lock, then the
    /// interrupt state to restore, which is returned.
    pub fn unlock(&mut self, guard: MutexGuard) -> (r: Option<u64>)
        requires
            old(self).held(),
        ensures
            !final(self).held(),
            final(self).value() == old(self).value(),
            r == guard.saved(),
    {
        self.locked = false;
        match guard.cs {
            Some(cs) => Some(cs.restore()),
            None => None,
        }
    }

    /// The data, read while the lock is held.
    pub fn as_ref(&self) -> (r: &T)
        requires
            self.held(),
        ensures
            *r == self.value(),
    {
        &self.data
    }

    /// The data, changed while the lock is held.
    pub fn as_mut(&mut self) -> (r: &mut T)
        requires
            old(self).held(),
        ensures
            *r == old(self).value(),
            final(self).held(),
            final(self).value() == *final(r),
    {
        &mut self.data
    }
}

/// Taking a free lock (its state and data as `lock` leaves them in
/// `locked`) and releasing it (as `unlock` leaves it in `after`) gives back
/// the mutex as it was.
pub proof fn lemma_lock_unlock<T>(before: Mutex<T>, locked: Mutex<T>, after: Mutex<T>)
    requires
        !before.held(),
        locked.held(),
        locked.value() == before.value(),
        !after.held(),
        after.value() == locked.value(),
    ensures
        after == before,
{
}

/// A write-once cell: empty until set, then holding its value until taken.
#[derive(Debug)]
pub struct OnceLock<T> {
    data: Option<T>,
}

/// The cell and the outcome after `set(value)` on a cell holding `cell`:
/// an empty cell takes the value; a full one is unchanged and the value
/// comes back.
pub open spec fn once_set<T>(cell: Option<T>, value: T) -> (Option<T>, Result<(), T>) {
    match cell {
        None => (Some(value), Ok(())),
        Some(v) => (Some(v), Err(value)),
    }
}

impl<T> View for OnceLock<T> {
    type V = Option<T>;

    closed spec fn view(&self) -> Option<T> {
        self.data
    }
}

impl<T> OnceLock<T> {
    /// An empty cell.
    pub fn new() -> (r: Self)
        ensures
            r@ is None,
    {
        OnceLock { data: None }
    }

    /// A cell holding `value`.
    pub fn new_with(value: T) -> (r: Self)
        ensures
            r@ == Some(value),
    {
        OnceLock { data: Some(value) }
    }

    /// Fill an empty cell with `value`; a full cell is left as it is and
    /// `value` is handed back in the error.
    pub fn set(&mut self, value: T) -> (r: Result<(), T>)
        ensures
            (final(self)@, r) == once_set(old(self)@, value),
    {
        if self.data.is_some() {
            Err(value)
        } else {
            self.data = Some(value);
            Ok(())
        }
    }

    /// The value, if the cell is full.
    pub fn get(&self) -> (r: Option<&T>)
        ensures
            r.is_some() == self@.is_some(),
            r.is_some() ==> *r.unwrap() == self@.unwrap(),
    {
        match &self.data {
            Some(v) => Some(v),
            None => None,
        }
    }

    /// The value, to change in place, if the cell is full.
    pub fn get_mut(&mut self) -> (r: Option<&mut T>)
        ensures
            r.is_some() == old(self)@.is_some(),
            final(self)@.is_some() == old(self)@.is_some(),
            r.is_some() ==> *r.unwrap() == old(self)@.unwrap() && *final(r.unwrap()) == final(self)@.unwrap(),
    {
        self.data.as_mut()
    }

    /// The value, filling an empty cell first with what `f` makes.
    pub fn get_or_init<F: FnOnce() -> T>(&mut self, f: F) -> (r: &T)
        requires
            old(self)@ is None ==> f.requires(()),
        ensures
            final(self)@ == Some(*r),
            old(self)@ is Some ==> final(self)@ == old(self)@,
            old(self)@ is None ==> f.ensures((), *r),
    {
        if self.data.is_none() {
            let v = f();
            self.data = Some(v);
        }
        match &self.data {
            Some(v) => v,
            None => vstd::pervasive::unreached(),
        }
    }

    /// Take the value out, leaving the cell empty.
    pub fn take(&mut self) -> (r: Option<T>)
        ensures
            r == old(self)@,
            final(self)@ is None,
    {
        self.data.take()
    }

    /// Whether the cell is full.
    pub fn initialized(&self) -> (r: bool)
        ensures
            r == self@.is_some(),
    {
        self.data.is_some()
    }
}

/// Write-once: after a first `set` on an empty cell, a second `set` fails,
/// hands back its value and leaves the first value in the cell.
pub proof fn lemma_set_once<T>(a: T, b: T)
    ensures
        once_set(None, a) == (Some(a), Ok::<(), T>(())),
        once_set(once_set(None, a).0, b) == (Some(a), Err::<(), T>(b)),
{
}

} // verus!
