use delta_join::change::Change;
use delta_join::delta::delta_join;
use delta_join::delta::delta_join_late_materialization;
use delta_join::oracle::regular_join;
use delta_join::oracle::regular_join_core;
use delta_join::records::Oid;
use delta_join::records::Order;
use delta_join::records::Pid;
use delta_join::records::Province;
use delta_join::records::Uid;
use delta_join::records::User;

fn ord(oid: u64, price: u64, uid: u64) -> Order {
    Order { oid: Oid(oid), price, uid: Uid(uid) }
}

fn usr(uid: u64, pid: u64) -> User {
    User { uid: Uid(uid), pid: Pid(pid) }
}

fn prov(pid: u64, name: &str) -> Province {
    Province { pid: Pid(pid), name: name.to_string() }
}

fn chg<V>(val: V, time: u64, mult: i64) -> Change<V> {
    Change { val, time, mult }
}

fn acc(out: &[Change<(Order, User, Province)>], x: &(Order, User, Province), t: u64) -> i64 {
    out.iter()
        .filter(|c| c.time <= t && c.val == *x)
        .map(|c| c.mult)
        .sum()
}

fn base_inputs() -> (Vec<Change<Order>>, Vec<Change<User>>, Vec<Change<Province>>) {
    (
        vec![chg(ord(100, 50, 10), 0, 1)],
        vec![chg(usr(10, 1), 0, 1)],
        vec![chg(prov(1, "Beijing"), 0, 1)],
    )
}

#[test]
fn initial_inserts_produce_one_tuple() {
    let (os, us, ps) = base_inputs();
    let tuple = (ord(100, 50, 10), usr(10, 1), prov(1, "Beijing"));
    for out in [
        delta_join(&os, &us, &ps),
        delta_join_late_materialization(&os, &us, &ps),
        regular_join(&os, &us, &ps),
        regular_join_core(&os, &us, &ps),
    ] {
        assert_eq!(acc(&out, &tuple, 0), 1);
        assert_eq!(acc(&out, &tuple, 7), 1);
    }
}

#[test]
fn second_order_adds_one_tuple_at_its_time() {
    let (mut os, us, ps) = base_inputs();
    os.push(chg(ord(101, 20, 10), 1, 1));
    let old_tuple = (ord(100, 50, 10), usr(10, 1), prov(1, "Beijing"));
    let new_tuple = (ord(101, 20, 10), usr(10, 1), prov(1, "Beijing"));
    for out in [
        delta_join(&os, &us, &ps),
        delta_join_late_materialization(&os, &us, &ps),
        regular_join(&os, &us, &ps),
    ] {
        assert_eq!(acc(&out, &new_tuple, 0), 0);
        assert_eq!(acc(&out, &new_tuple, 1), 1);
        assert_eq!(acc(&out, &old_tuple, 0), 1);
        assert_eq!(acc(&out, &old_tuple, 1), 1);
    }
}

#[test]
fn simultaneous_user_swap_retracts_and_inserts() {
    let (mut os, mut us, mut ps) = base_inputs();
    os.push(chg(ord(101, 20, 10), 1, 1));
    us.push(chg(usr(10, 1), 2, -1));
    us.push(chg(usr(10, 2), 2, 1));
    ps.push(chg(prov(2, "Shanghai"), 2, 1));
    let old1 = (ord(100, 50, 10), usr(10, 1), prov(1, "Beijing"));
    let old2 = (ord(101, 20, 10), usr(10, 1), prov(1, "Beijing"));
    let new1 = (ord(100, 50, 10), usr(10, 2), prov(2, "Shanghai"));
    let new2 = (ord(101, 20, 10), usr(10, 2), prov(2, "Shanghai"));
    for out in [
        delta_join(&os, &us, &ps),
        delta_join_late_materialization(&os, &us, &ps),
        regular_join(&os, &us, &ps),
    ] {
        assert_eq!(acc(&out, &old1, 1), 1);
        assert_eq!(acc(&out, &old2, 1), 1);
        assert_eq!(acc(&out, &old1, 2), 0);
        assert_eq!(acc(&out, &old2, 2), 0);
        assert_eq!(acc(&out, &new1, 1), 0);
        assert_eq!(acc(&out, &new2, 1), 0);
        assert_eq!(acc(&out, &new1, 2), 1);
        assert_eq!(acc(&out, &new2, 2), 1);
    }
}

#[test]
fn simultaneous_matching_inserts_count_once() {
    let os = vec![chg(ord(1, 9, 7), 5, 1)];
    let us = vec![chg(usr(7, 3), 5, 1)];
    let ps = vec![chg(prov(3, "Xinjiang"), 5, 1)];
    let tuple = (ord(1, 9, 7), usr(7, 3), prov(3, "Xinjiang"));
    for out in [
        delta_join(&os, &us, &ps),
        delta_join_late_materialization(&os, &us, &ps),
        regular_join(&os, &us, &ps),
    ] {
        assert_eq!(acc(&out, &tuple, 4), 0);
        assert_eq!(acc(&out, &tuple, 5), 1);
    }
}

#[test]
fn retraction_cancels_insertion() {
    let os = vec![chg(ord(100, 50, 10), 1, 1), chg(ord(100, 50, 10), 3, -1)];
    let us = vec![chg(usr(10, 1), 0, 1)];
    let ps = vec![chg(prov(1, "Beijing"), 0, 1)];
    let tuple = (ord(100, 50, 10), usr(10, 1), prov(1, "Beijing"));
    for out in [
        delta_join(&os, &us, &ps),
        delta_join_late_materialization(&os, &us, &ps),
        regular_join(&os, &us, &ps),
    ] {
        assert_eq!(acc(&out, &tuple, 0), 0);
        assert_eq!(acc(&out, &tuple, 1), 1);
        assert_eq!(acc(&out, &tuple, 2), 1);
        assert_eq!(acc(&out, &tuple, 3), 0);
    }
}

#[test]
fn variants_accumulate_identically_on_interleaving() {
    let os = vec![
        chg(ord(100, 50, 10), 0, 1),
        chg(ord(101, 20, 10), 1, 1),
        chg(ord(102, 30, 11), 2, 1),
        chg(ord(100, 50, 10), 4, -1),
    ];
    let us = vec![
        chg(usr(10, 1), 0, 1),
        chg(usr(11, 2), 1, 1),
        chg(usr(10, 1), 2, -1),
        chg(usr(10, 2), 2, 1),
    ];
    let ps = vec![
        chg(prov(1, "Beijing"), 0, 1),
        chg(prov(2, "Shanghai"), 1, 1),
        chg(prov(1, "Beijing"), 3, -1),
    ];
    let a = delta_join(&os, &us, &ps);
    let b = delta_join_late_materialization(&os, &us, &ps);
    let orders = [ord(100, 50, 10), ord(101, 20, 10), ord(102, 30, 11)];
    let users = [usr(10, 1), usr(10, 2), usr(11, 2)];
    let provs = [prov(1, "Beijing"), prov(2, "Shanghai")];
    for o in &orders {
        for u in &users {
            for p in &provs {
                let x = (o.clone(), u.clone(), p.clone());
                for t in 0..6 {
                    assert_eq!(acc(&a, &x, t), acc(&b, &x, t));
                }
            }
        }
    }
}

#[test]
fn delta_matches_baseline_on_interleaving() {
    let os = vec![
        chg(ord(100, 50, 10), 0, 1),
        chg(ord(101, 20, 10), 1, 1),
        chg(ord(102, 30, 11), 1, 1),
        chg(ord(101, 20, 10), 3, -1),
    ];
    let us = vec![
        chg(usr(10, 1), 0, 1),
        chg(usr(11, 1), 2, 1),
        chg(usr(10, 1), 4, -1),
    ];
    let ps = vec![
        chg(prov(1, "Beijing"), 1, 1),
        chg(prov(1, "Beijing"), 4, -1),
        chg(prov(2, "Shanghai"), 0, 1),
    ];
    let a = delta_join(&os, &us, &ps);
    let b = regular_join(&os, &us, &ps);
    let orders = [ord(100, 50, 10), ord(101, 20, 10), ord(102, 30, 11)];
    let users = [usr(10, 1), usr(11, 1)];
    let provs = [prov(1, "Beijing"), prov(2, "Shanghai")];
    for o in &orders {
        for u in &users {
            for p in &provs {
                let x = (o.clone(), u.clone(), p.clone());
                for t in 0..6 {
                    assert_eq!(acc(&a, &x, t), acc(&b, &x, t));
                }
            }
        }
    }
}

#[test]
fn weighted_changes_multiply() {
    let os = vec![chg(ord(100, 50, 10), 0, 2)];
    let us = vec![chg(usr(10, 1), 0, 1)];
    let ps = vec![chg(prov(1, "Beijing"), 0, 3)];
    let tuple = (ord(100, 50, 10), usr(10, 1), prov(1, "Beijing"));
    for out in [delta_join(&os, &us, &ps), regular_join(&os, &us, &ps)] {
        assert_eq!(acc(&out, &tuple, 0), 6);
    }
}

#[test]
fn regular_join_core_equals_regular_join() {
    let (mut os, mut us, ps) = base_inputs();
    os.push(chg(ord(101, 20, 11), 2, 1));
    us.push(chg(usr(11, 1), 2, 1));
    let a = regular_join(&os, &us, &ps);
    let b = regular_join_core(&os, &us, &ps);
    assert_eq!(a, b);
}

#[test]
fn bound_sized_multiplicities_are_supported() {
    let os = vec![chg(ord(100, 50, 10), 0, 32768)];
    let us = vec![chg(usr(10, 1), 0, 32768)];
    let ps = vec![chg(prov(1, "Beijing"), 0, 32768)];
    let tuple = (ord(100, 50, 10), usr(10, 1), prov(1, "Beijing"));
    let out = delta_join(&os, &us, &ps);
    assert_eq!(acc(&out, &tuple, 0), 32768i64 * 32768 * 32768);
}

#[test]
fn event_order_in_input_vectors_is_irrelevant() {
    let (os, us, ps) = base_inputs();
    let mut os2 = vec![chg(ord(101, 20, 10), 1, 1)];
    os2.extend(os.iter().cloned());
    let mut os1 = os.clone();
    os1.push(chg(ord(101, 20, 10), 1, 1));
    let a = delta_join(&os1, &us, &ps);
    let b = delta_join(&os2, &us, &ps);
    let t1 = (ord(100, 50, 10), usr(10, 1), prov(1, "Beijing"));
    let t2 = (ord(101, 20, 10), usr(10, 1), prov(1, "Beijing"));
    for t in 0..3 {
        assert_eq!(acc(&a, &t1, t), acc(&b, &t1, t));
        assert_eq!(acc(&a, &t2, t), acc(&b, &t2, t));
    }
}
