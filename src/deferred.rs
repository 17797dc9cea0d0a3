use vstd::prelude::*;

verus! {

/// The state of a one-shot initialization cell.
pub enum DeferredValue<T> {
    Initialized(T),
    WaitingForValue,
}

/// Why an operation on a deferred slot was refused.
#[derive(Debug, Clone, Copy, PartialEq, Eq, Structural)]
pub enum DeferredError {
    /// The slot was read before it received its value.
    Uninitialized,
    /// The slot already holds a value; a slot is initialized at most once.
    AlreadyInitialized,
}

/// A slot that starts empty and is filled exactly once, after the component
/// that holds it has been made visible to others.
pub struct Deferred<T> {
    value: DeferredValue<T>,
}

impl<T> View for Deferred<T> {
    type V = Option<T>;

    closed spec fn view(&self) -> Option<T> {
        match self.value {
            DeferredValue::Initialized(v) => Some(v),
            DeferredValue::WaitingForValue => None,
        }
    }
}

/// What `init(value)` on slot `d0` that returned `r` and left `d1`
/// guarantees: an empty slot takes the value, a filled one refuses it and
/// stays as it was.
pub open spec fn init_post<T>(d0: Deferred<T>, value: T, r: Result<(), DeferredError>, d1: Deferred<T>) -> bool {
    &&& d0@ is None ==> r is Ok && d1@ == Some(value)
    &&& d0@ is Some ==> r == Err::<(), DeferredError>(DeferredError::AlreadyInitialized) && d1 == d0
}

impl<T> Deferred<T> {
    /// An empty slot.
    pub fn new() -> (r: Self)
        ensures
            r@ is None,
    {
        Deferred { value: DeferredValue::WaitingForValue }
    }

    /// Fills an empty slot with `value`. A slot that is already filled keeps
    /// its first value and the call fails.
    pub fn init(&mut self, value: T) -> (r: Result<(), DeferredError>)
        ensures
            init_post(*old(self), value, r, *final(self)),
    {
        match self.value {
            DeferredValue::Initialized(_) => Err(DeferredError::AlreadyInitialized),
            DeferredValue::WaitingForValue => {
                self.value = DeferredValue::Initialized(value);
                Ok(())
            },
        }
    }

    /// Whether the slot holds its value.
    pub fn is_initialized(&self) -> (r: bool)
        ensures
            r == (self@ is Some),
    {
        match self.value {
            DeferredValue::Initialized(_) => true,
            DeferredValue::WaitingForValue => false,
        }
    }

    /// The value of a filled slot.
    pub fn get(&self) -> (r: &T)
        requires
            self@ is Some,
        ensures
            *r == self@->0,
    {
        match &self.value {
            DeferredValue::Initialized(v) => v,
            DeferredValue::WaitingForValue => unreached(),
        }
    }

    /// The value of the slot, or `Uninitialized` when it is still empty.
    pub fn try_get(&self) -> (r: Result<&T, DeferredError>)
        ensures
            self@ is Some ==> r is Ok && *r->Ok_0 == self@->0,
            self@ is None ==> r == Err::<&T, DeferredError>(DeferredError::Uninitialized),
    {
        match &self.value {
            DeferredValue::Initialized(v) => Ok(v),
            DeferredValue::WaitingForValue => Err(DeferredError::Uninitialized),
        }
    }
}

/// A slot initialized with `v` reads back exactly `v`; a second
/// initialization is refused and the slot keeps `v`.
pub proof fn lemma_deferred_round_trip<T>(
    d0: Deferred<T>,
    d1: Deferred<T>,
    d2: Deferred<T>,
    v: T,
    w: T,
    r1: Result<(), DeferredError>,
    r2: Result<(), DeferredError>,
)
    requires
        d0@ is None,
        init_post(d0, v, r1, d1),
        init_post(d1, w, r2, d2),
    ensures
        r1 is Ok,
        d1@ == Some(v),
        r2 == Err::<(), DeferredError>(DeferredError::AlreadyInitialized),
        d2@ == Some(v),
{
}

} // verus!
