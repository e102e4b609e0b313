use domapi::binding::{BrowserAPI, DispatchError};

#[test]
fn a_new_dispatcher_has_nothing_pending() {
    let mut api = BrowserAPI::new();
    assert_eq!(api.pending(), 0);
    assert_eq!(api.take_pending(), 0);
}

#[test]
fn rerender_counts_each_request() {
    let mut api = BrowserAPI::new();
    assert_eq!(api.rerender(), Ok(()));
    assert_eq!(api.pending(), 1);
    assert_eq!(api.rerender(), Ok(()));
    assert_eq!(api.rerender(), Ok(()));
    assert_eq!(api.pending(), 3);
    assert_eq!(api.take_pending(), 3);
    assert_eq!(api.pending(), 0);
}

#[test]
fn rerender_is_refused_when_the_queue_is_full() {
    let mut api = BrowserAPI::with_capacity(2);
    assert_eq!(api.rerender(), Ok(()));
    assert_eq!(api.rerender(), Ok(()));
    assert_eq!(api.rerender(), Err(DispatchError::QueueFull));
    assert_eq!(api.pending(), 2);
    assert_eq!(api.take_pending(), 2);
    assert_eq!(api.rerender(), Ok(()));
    let mut none = BrowserAPI::with_capacity(0);
    assert_eq!(none.rerender(), Err(DispatchError::QueueFull));
    assert_eq!(none.pending(), 0);
}
