use waiter_di::deferred::{Deferred, DeferredError};

#[test]
fn deferred_deref_after_init() {
    let mut deferred = Deferred::<&str>::new();
    let _ = deferred.init("Initialized");
    assert_eq!("Initialized", *deferred.get());
}

#[test]
fn deferred_read_before_init_fails() {
    let deferred = Deferred::<&str>::new();
    assert!(!deferred.is_initialized());
    assert_eq!(deferred.try_get(), Err(DeferredError::Uninitialized));
}

#[test]
fn deferred_init_then_read_returns_value() {
    let mut deferred = Deferred::<u32>::new();
    assert_eq!(deferred.init(7), Ok(()));
    assert!(deferred.is_initialized());
    assert_eq!(deferred.try_get(), Ok(&7));
}

#[test]
fn deferred_second_init_is_refused() {
    let mut deferred = Deferred::<u32>::new();
    assert_eq!(deferred.init(1), Ok(()));
    assert_eq!(deferred.init(2), Err(DeferredError::AlreadyInitialized));
    assert_eq!(*deferred.get(), 1);
}
