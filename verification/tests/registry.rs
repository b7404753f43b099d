use aerodesk::registry::{new_registry, DeviceState};

fn dev(name: &str, connected: bool, conn_id: u64) -> DeviceState {
    DeviceState { name: name.to_string(), connected, conn_id }
}

#[test]
fn connect_then_own_disconnect() {
    let mut r = new_registry();
    assert!(r.get_devices().is_empty());
    r.connect("Pixel".to_string(), 1);
    assert_eq!(r.get_devices(), vec![dev("Pixel", true, 1)]);
    assert!(r.disconnect("Pixel", 1));
    assert_eq!(r.get_devices(), vec![dev("Pixel", false, 1)]);
    assert!(!r.disconnect("Pixel", 1));
}

#[test]
fn stale_disconnect_is_ignored() {
    let mut r = new_registry();
    r.connect("Pixel".to_string(), 1);
    r.connect("Pixel".to_string(), 2);
    assert!(!r.disconnect("Pixel", 1));
    assert_eq!(r.get_devices(), vec![dev("Pixel", true, 2)]);
    assert!(!r.disconnect("Unknown", 2));
}

#[test]
fn devices_are_sorted_by_name() {
    let mut r = new_registry();
    r.connect("zeta".to_string(), 3);
    r.connect("Alpha".to_string(), 1);
    r.connect("beta".to_string(), 2);
    r.connect("Alpha".to_string(), 4);
    let names: Vec<String> = r.get_devices().into_iter().map(|d| d.name).collect();
    assert_eq!(names, vec!["Alpha", "beta", "zeta"]);
    assert_eq!(r.get_devices()[0], dev("Alpha", true, 4));
}

#[test]
fn listing_does_not_depend_on_registration_order() {
    let mut a = new_registry();
    let mut b = new_registry();
    for (n, id) in [("c", 1u64), ("a", 2), ("b", 3)] {
        a.connect(n.to_string(), id);
    }
    for (n, id) in [("b", 3u64), ("c", 1), ("a", 2)] {
        b.connect(n.to_string(), id);
    }
    assert_eq!(a.get_devices(), b.get_devices());
}
