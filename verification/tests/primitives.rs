use delta_join::change::Change;
use delta_join::half_join::half_join_order_user;
use delta_join::half_join::half_join_user_order;
use delta_join::half_join::user_secondary_index;
use delta_join::records::Oid;
use delta_join::records::Order;
use delta_join::records::Pid;
use delta_join::records::Uid;
use delta_join::records::User;
use delta_join::time::time_predecessor;
use delta_join::visibility::Rel;
use delta_join::visibility::rel_priority;
use delta_join::visibility::visible;

#[test]
fn predecessor_saturates_at_zero() {
    assert_eq!(time_predecessor(0), 0);
    assert_eq!(time_predecessor(1), 0);
    assert_eq!(time_predecessor(5), 4);
    assert_eq!(time_predecessor(u64::MAX), u64::MAX - 1);
}

#[test]
fn priority_order_is_orders_users_provinces() {
    assert!(rel_priority(Rel::Orders) < rel_priority(Rel::Users));
    assert!(rel_priority(Rel::Users) < rel_priority(Rel::Provinces));
}

#[test]
fn visibility_breaks_ties_by_priority() {
    assert!(visible(Rel::Orders, Rel::Users, 4, 5));
    assert!(!visible(Rel::Orders, Rel::Users, 5, 5));
    assert!(!visible(Rel::Orders, Rel::Users, 6, 5));
    assert!(visible(Rel::Users, Rel::Orders, 5, 5));
    assert!(!visible(Rel::Users, Rel::Provinces, 5, 5));
    assert!(visible(Rel::Provinces, Rel::Users, 5, 5));
    assert!(visible(Rel::Provinces, Rel::Orders, 5, 5));
}

#[test]
fn secondary_index_holds_only_key_pairs() {
    let us = vec![
        Change { val: User { uid: Uid(10), pid: Pid(1) }, time: 0, mult: 1 },
        Change { val: User { uid: Uid(11), pid: Pid(2) }, time: 3, mult: -1 },
    ];
    let sec = user_secondary_index(&us);
    assert_eq!(sec.len(), 2);
    assert_eq!(sec[0].val, (Pid(1), Uid(10)));
    assert_eq!(sec[0].time, 0);
    assert_eq!(sec[0].mult, 1);
    assert_eq!(sec[1].val, (Pid(2), Uid(11)));
    assert_eq!(sec[1].time, 3);
    assert_eq!(sec[1].mult, -1);
}

#[test]
fn half_join_respects_strict_visibility() {
    let os = vec![Change { val: Order { oid: Oid(1), price: 5, uid: Uid(10) }, time: 2, mult: 1 }];
    let us = vec![
        Change { val: User { uid: Uid(10), pid: Pid(1) }, time: 1, mult: 1 },
        Change { val: User { uid: Uid(10), pid: Pid(2) }, time: 2, mult: 1 },
        Change { val: User { uid: Uid(99), pid: Pid(1) }, time: 0, mult: 1 },
    ];
    let out = half_join_order_user(&os, &us);
    assert_eq!(out.len(), 1);
    assert_eq!(out[0].val.1, User { uid: Uid(10), pid: Pid(1) });
    assert_eq!(out[0].time, 2);
    assert_eq!(out[0].mult, 1);
}

#[test]
fn half_join_with_ties_sees_simultaneous_updates() {
    let us = vec![Change { val: User { uid: Uid(10), pid: Pid(1) }, time: 2, mult: 1 }];
    let os = vec![
        Change { val: Order { oid: Oid(1), price: 5, uid: Uid(10) }, time: 2, mult: 1 },
        Change { val: Order { oid: Oid(2), price: 6, uid: Uid(10) }, time: 3, mult: 1 },
    ];
    let out = half_join_user_order(&us, &os);
    assert_eq!(out.len(), 1);
    assert_eq!(out[0].val.0, Order { oid: Oid(1), price: 5, uid: Uid(10) });
    assert_eq!(out[0].time, 2);
}
