use imbl_hamt::value::{hash_may_eq, may_eq_given, HashValue};

#[derive(Clone, Debug, PartialEq)]
struct Pair(u64, u64);

impl HashValue for Pair {
    type Key = u64;
    fn key(&self) -> u64 {
        self.0
    }
    fn extract_key(&self) -> &u64 {
        &self.0
    }
    fn ptr_eq(&self, other: &Self) -> bool {
        std::ptr::eq(self, other)
    }
    fn clone_value(&self) -> Self {
        self.clone()
    }
}

#[test]
fn equal_hashes_may_be_equal() {
    assert!(hash_may_eq::<Pair>(7, 7));
}

#[test]
fn cheap_keys_skip_the_hash() {
    assert!(hash_may_eq::<Pair>(7, 8));
    assert!(!may_eq_given(true, 8, 7, 8));
    assert!(!may_eq_given(false, 32, 7, 8));
    assert!(may_eq_given(false, 16, 7, 8));
}

#[derive(Clone, Debug, PartialEq)]
struct Named(String, u64);

impl HashValue for Named {
    type Key = String;
    fn key(&self) -> String {
        self.0.clone()
    }
    fn extract_key(&self) -> &String {
        &self.0
    }
    fn ptr_eq(&self, other: &Self) -> bool {
        std::ptr::eq(self, other)
    }
    fn clone_value(&self) -> Self {
        self.clone()
    }
}

#[test]
fn keys_that_need_drop_compare_hashes_first() {
    assert!(hash_may_eq::<Named>(3, 3));
    assert!(!hash_may_eq::<Named>(3, 4));
}
