use naming_listener::addr::ClientAddr;
use naming_listener::listener::{
    gene_cluster_key, InnerNamingListener, ListenerItem, ListenerValue, NamingListenerCmd,
};
use naming_listener::naming::{Instance, InstanceTable, ServiceKey};

fn key_svc1() -> ServiceKey {
    ServiceKey::new(
        "public".to_string(),
        "DEFAULT".to_string(),
        "svc1".to_string(),
    )
}

fn table_c1() -> InstanceTable {
    let mut table = InstanceTable::new();
    table.add_cluster(
        "c1".to_string(),
        vec![
            Instance::new(
                "healthy-instance-X".to_string(),
                "10.0.0.1".to_string(),
                8080,
                true,
            ),
            Instance::new(
                "unhealthy-instance-Y".to_string(),
                "10.0.0.2".to_string(),
                8081,
                false,
            ),
        ],
    );
    table
}

fn addr_a() -> ClientAddr {
    ClientAddr::new(0x7f00_0001, 5001)
}

#[test]
fn cluster_key_is_sorted_and_joined() {
    let k = gene_cluster_key(vec!["beta".to_string(), "alpha".to_string(), "m".to_string()]);
    assert_eq!(k.as_str(), "alpha,beta,m");
    let empty = gene_cluster_key(Vec::new());
    assert_eq!(empty.as_str(), "");
}

#[test]
fn push_update_filters_unhealthy_instances() {
    // subscribe client A with an empty cluster filter and only_healthy set;
    // the pushed payload must name the healthy instance and not the other
    let mut reg = InnerNamingListener::new(5);
    let item = ListenerItem::new(Vec::new(), true, addr_a());
    reg.add(key_svc1(), item, 0);
    let sends = reg.notify(key_svc1(), "sign-1".to_string(), &table_c1(), 1);
    assert_eq!(sends.len(), 1);
    assert_eq!(sends[0].addr, addr_a());
    let text = String::from_utf8(sends[0].data.clone()).unwrap();
    assert!(text.contains("healthy-instance-X"));
    assert!(!text.contains("unhealthy-instance-Y"));
    assert!(text.contains("\"type\":\"dom\""));
    assert!(text.contains("svc1"));
}

#[test]
fn notify_evicts_stale_and_keeps_fresh() {
    // period 5: the liveness window is max(2 * 5, 5) = 10
    let key = key_svc1();
    let table = table_c1();

    // client last proved liveness at t = 0; a notify at t = 11 evicts it
    let mut value = ListenerValue::new();
    value.add(ListenerItem::new(Vec::new(), false, addr_a()), 0);
    let (removed, sends) = value.notify(&key, &table, 5, 11);
    assert_eq!(removed, vec![addr_a()]);
    assert_eq!(sends.len(), 0);
    assert!(value.is_empty());

    // the same client at t = 9 is retained and receives a datagram
    let mut value = ListenerValue::new();
    value.add(ListenerItem::new(Vec::new(), false, addr_a()), 0);
    let (removed, sends) = value.notify(&key, &table, 5, 9);
    assert_eq!(removed.len(), 0);
    assert_eq!(sends.len(), 1);
    assert!(!value.is_empty());
}

#[test]
fn acknowledge_refreshes_liveness() {
    let mut reg = InnerNamingListener::new(5);
    reg.add(key_svc1(), ListenerItem::new(Vec::new(), false, addr_a()), 0);
    // an acknowledge at t = 8 keeps the client past the t = 11 cutoff
    let r = reg.handle(NamingListenerCmd::Response(addr_a()), 8);
    assert_eq!(r.len(), 0);
    let sends = reg.notify(key_svc1(), String::new(), &table_c1(), 11);
    assert_eq!(sends.len(), 1);
}

#[test]
fn acknowledge_unknown_address_is_noop() {
    let mut reg = InnerNamingListener::new(5);
    let r = reg.handle(NamingListenerCmd::Response(addr_a()), 3);
    assert_eq!(r.len(), 0);
    // a registered client elsewhere is untouched
    reg.add(key_svc1(), ListenerItem::new(Vec::new(), false, addr_a()), 0);
    let other = ClientAddr::new(0x7f00_0001, 9999);
    let r = reg.handle(NamingListenerCmd::Response(other), 3);
    assert_eq!(r.len(), 0);
    let sends = reg.notify(key_svc1(), String::new(), &table_c1(), 2);
    assert_eq!(sends.len(), 1);
}

#[test]
fn resubscribe_replaces_filter() {
    // the second subscription from the same address wins: with
    // only_healthy now set, the unhealthy instance disappears
    let mut reg = InnerNamingListener::new(5);
    reg.add(key_svc1(), ListenerItem::new(Vec::new(), false, addr_a()), 0);
    reg.add(key_svc1(), ListenerItem::new(Vec::new(), true, addr_a()), 1);
    let sends = reg.notify(key_svc1(), String::new(), &table_c1(), 2);
    assert_eq!(sends.len(), 1);
    let text = String::from_utf8(sends[0].data.clone()).unwrap();
    assert!(!text.contains("unhealthy-instance-Y"));
}

#[test]
fn identical_filters_share_payload_bytes() {
    let mut reg = InnerNamingListener::new(5);
    let b = ClientAddr::new(0x7f00_0001, 5002);
    let c = ClientAddr::new(0x7f00_0001, 5003);
    reg.add(
        key_svc1(),
        ListenerItem::new(vec!["c1".to_string()], false, addr_a()),
        0,
    );
    reg.add(
        key_svc1(),
        ListenerItem::new(vec!["c1".to_string()], false, b),
        0,
    );
    reg.add(key_svc1(), ListenerItem::new(vec!["c2".to_string()], false, c), 0);
    let sends = reg.notify(key_svc1(), String::new(), &table_c1(), 1);
    assert_eq!(sends.len(), 3);
    // the two subscriptions with the same filter get byte-identical bodies
    assert_eq!(sends[0].data, sends[1].data);
    // a different filter does not share their cached payload
    assert_ne!(sends[0].data, sends[2].data);
}

#[test]
fn cluster_order_does_not_split_the_cache() {
    // the cache key is canonical: the same clusters in another order
    // share one payload
    let mut table = table_c1();
    table.add_cluster(
        "c2".to_string(),
        vec![Instance::new("z".to_string(), "10.0.0.3".to_string(), 9000, true)],
    );
    let mut reg = InnerNamingListener::new(5);
    let b = ClientAddr::new(0x7f00_0001, 5002);
    reg.add(
        key_svc1(),
        ListenerItem::new(vec!["c1".to_string(), "c2".to_string()], false, addr_a()),
        0,
    );
    reg.add(
        key_svc1(),
        ListenerItem::new(vec!["c2".to_string(), "c1".to_string()], false, b),
        0,
    );
    let sends = reg.notify(key_svc1(), String::new(), &table, 1);
    assert_eq!(sends.len(), 2);
    assert_eq!(sends[0].data, sends[1].data);
}

#[test]
fn empty_group_is_dropped_and_later_notify_is_noop() {
    let mut reg = InnerNamingListener::new(5);
    reg.add(key_svc1(), ListenerItem::new(Vec::new(), false, addr_a()), 0);
    // the only subscriber went silent: the notify at t = 30 evicts it and
    // removes the group
    let sends = reg.notify(key_svc1(), String::new(), &table_c1(), 30);
    assert_eq!(sends.len(), 0);
    // a later heartbeat-driven notify for the same key finds nothing
    let sends = reg.notify(key_svc1(), String::new(), &table_c1(), 31);
    assert_eq!(sends.len(), 0);
    // and the client can subscribe afresh
    reg.add(key_svc1(), ListenerItem::new(Vec::new(), false, addr_a()), 40);
    let sends = reg.notify(key_svc1(), String::new(), &table_c1(), 41);
    assert_eq!(sends.len(), 1);
}

#[test]
fn heartbeat_tick_on_empty_schedule_is_quiet() {
    let mut reg = InnerNamingListener::new(5);
    let due = reg.heartbeat_tick(100);
    assert_eq!(due.len(), 0);
}

#[test]
fn heartbeat_drains_and_rearms() {
    let mut reg = InnerNamingListener::new(5);
    // the first subscription to a key arms its timer at now + period
    reg.add(key_svc1(), ListenerItem::new(Vec::new(), false, addr_a()), 0);
    // before the expiry nothing is due
    let due = reg.heartbeat_tick(4);
    assert_eq!(due.len(), 0);
    // at the expiry the key is drained once and re-armed
    let due = reg.heartbeat_tick(5);
    assert_eq!(due.len(), 1);
    assert_eq!(due[0].service_name.as_str(), "svc1");
    let due = reg.heartbeat_tick(6);
    assert_eq!(due.len(), 0);
    let due = reg.heartbeat_tick(10);
    assert_eq!(due.len(), 1);
}

#[test]
fn handle_add_heartbeat_arms_timer() {
    let mut reg = InnerNamingListener::new(5);
    let r = reg.handle(NamingListenerCmd::AddHeartbeat(key_svc1()), 0);
    assert_eq!(r.len(), 0);
    let due = reg.heartbeat_tick(5);
    assert_eq!(due.len(), 1);
}

#[test]
fn handle_notify_delivers_datagrams() {
    let mut reg = InnerNamingListener::new(5);
    let r = reg.handle(
        NamingListenerCmd::Add(key_svc1(), ListenerItem::new(Vec::new(), false, addr_a())),
        0,
    );
    assert_eq!(r.len(), 0);
    let sends = reg.handle(
        NamingListenerCmd::Notify(key_svc1(), "s1".to_string(), table_c1()),
        1,
    );
    assert_eq!(sends.len(), 1);
    assert_eq!(sends[0].addr, addr_a());
}
