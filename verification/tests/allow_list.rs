use std::collections::HashSet;
use std::sync::Arc;

use openab::allow_list::{AllowListSource, StaticAllowList};

#[test]
fn static_round_trips_input() {
    let input: HashSet<String> = ["U1", "U2"].iter().map(|s| s.to_string()).collect();
    let source = StaticAllowList::new(input.clone());
    assert_eq!(*source.allowed_users(), input);
}

#[test]
fn static_snapshots_share_allocation() {
    let input: HashSet<String> = ["U1"].iter().map(|s| s.to_string()).collect();
    let source = StaticAllowList::new(input);
    let a = source.allowed_users();
    let b = source.allowed_users();
    assert!(Arc::ptr_eq(&a, &b));
}

struct SwappableSource {
    inner: std::sync::Mutex<Arc<HashSet<String>>>,
}

impl SwappableSource {
    fn new(initial: HashSet<String>) -> Self {
        Self {
            inner: std::sync::Mutex::new(Arc::new(initial)),
        }
    }

    fn swap(&self, next: HashSet<String>) {
        *self.inner.lock().unwrap() = Arc::new(next);
    }
}

impl AllowListSource for SwappableSource {
    fn allowed_users(&self) -> Arc<HashSet<String>> {
        Arc::clone(&self.inner.lock().unwrap())
    }
}

#[test]
fn custom_source_can_hot_swap_through_trait_object() {
    let initial: HashSet<String> = ["U1"].iter().map(|s| s.to_string()).collect();
    let typed = Arc::new(SwappableSource::new(initial));
    let dyn_source: Arc<dyn AllowListSource> = typed.clone();

    let before = dyn_source.allowed_users();
    assert!(before.contains("U1"));

    let next: HashSet<String> = ["U2"].iter().map(|s| s.to_string()).collect();
    typed.swap(next);

    let after = dyn_source.allowed_users();
    assert!(after.contains("U2"));
    assert!(!after.contains("U1"));
}
