//! Tests of the contract-administration choice.

use memdb::admin::{Addr, AdminOption};

#[test]
fn decide_resolves_each_choice() {
    let own = Addr::new(vec![1, 2, 3]);

    let explicit = AdminOption::SetToAddr(Addr::new(vec![9, 9]));
    let decided = explicit.decide(&own).unwrap();
    assert_eq!(decided.as_bytes(), &vec![9u8, 9]);

    let to_self = AdminOption::SetToSelf.decide(&own).unwrap();
    assert_eq!(to_self.as_bytes(), &vec![1u8, 2, 3]);

    assert!(AdminOption::SetToNone.decide(&own).is_none());
}
