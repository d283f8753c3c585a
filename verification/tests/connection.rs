use rumqttd::protocol::{LastWill, LastWillProperties, QoS};
use rumqttd::{Acl, Connection};

fn will() -> LastWill {
    LastWill { topic: String::from("gone"), message: vec![1, 2, 3], qos: QoS::AtLeastOnce, retain: true }
}

fn will_properties() -> LastWillProperties {
    LastWillProperties {
        delay_interval: Some(5),
        payload_format_indicator: None,
        message_expiry_interval: None,
        content_type: None,
        response_topic: None,
        correlation_data: None,
        user_properties: vec![(String::from("k"), String::from("v"))],
    }
}

#[test]
fn new_connection_of_a_tenant() {
    let acls = [
        Acl::new("device/%c/#", true, false),
        Acl::new("tenants/%t/users/%u/+", false, true),
        Acl::new("$SYS/#", true, false),
    ];
    let connection = Connection::new(
        Some(String::from("t1")),
        Some(String::from("u1")),
        String::from("c1"),
        true,
        false,
        &acls,
    );
    assert_eq!(connection.client_id, "t1.c1");
    assert_eq!(connection.tenant_id, Some(String::from("t1")));
    assert_eq!(connection.username, Some(String::from("u1")));
    assert!(connection.clean);
    assert!(!connection.dynamic_filters);
    assert_eq!(
        connection.acls,
        vec![
            Acl::new("device/t1.c1/#", true, false),
            Acl::new("tenants/t1/users/u1/+", false, true),
            Acl::new("$SYS/#", true, false),
        ]
    );
    assert!(!connection.acls[0].rule.is_borrowed());
    assert!(connection.acls[2].rule.is_borrowed());
    assert_eq!(connection.subscriptions.len(), 0);
    assert!(connection.last_will.is_none());
    assert!(connection.last_will_properties.is_none());
    assert_eq!(connection.protocol_level, 0);
    assert!(connection.topic_aliases.is_empty());
    assert!(connection.broker_topic_aliases.is_none());
    assert_eq!(connection.subscription_ids.len(), 0);
}

#[test]
fn new_connection_without_tenant_or_user() {
    let acls = [Acl::new("%t/%u/%c", true, true)];
    let connection = Connection::new(None, None, String::from("c1"), false, true, &acls);
    assert_eq!(connection.client_id, "c1");
    assert_eq!(connection.tenant_id, None);
    assert_eq!(connection.username, None);
    assert!(!connection.clean);
    assert!(connection.dynamic_filters);
    assert_eq!(connection.acls, vec![Acl::new("%t/%u/c1", true, true)]);
}

#[test]
fn new_connection_passes_over_unfit_values() {
    let acls = [Acl::new("%t/%u/%c", true, false)];
    let connection = Connection::new(
        Some(String::from("a/b")),
        Some(String::from("me")),
        String::from("c1"),
        true,
        false,
        &acls,
    );
    assert_eq!(connection.client_id, "a/b.c1");
    assert_eq!(connection.acls, vec![Acl::new("%t/me/%c", true, false)]);
    let connection =
        Connection::new(None, Some(String::from("a+")), String::from("c#"), true, false, &acls);
    assert_eq!(connection.acls, vec![Acl::new("%t/%u/%c", true, false)]);
    assert!(connection.acls[0].rule.is_borrowed());
}

#[test]
fn new_connection_without_access_entries() {
    let connection = Connection::new(None, None, String::from("c1"), true, false, &[]);
    assert!(connection.acls.is_empty());
}

#[test]
fn access_is_decided_on_the_rules_of_the_connection() {
    let acls = [Acl::new("device/%u/#", true, true)];
    let connection =
        Connection::new(None, Some(String::from("0xff")), String::from("c1"), true, false, &acls);
    assert!(connection.acls[0].rule.matches_topic("device/0xff/version"));
    assert!(!connection.acls[0].rule.matches_topic("device/0xfe/version"));
    assert!(connection.acls[0].rule.matches_filter("device/0xff/+"));
}

#[test]
fn topic_alias_max_of_zero_gives_no_pool() {
    let mut connection = Connection::new(None, None, String::from("c1"), true, false, &[]);
    connection.topic_alias_max(0);
    assert!(connection.broker_topic_aliases.is_none());
}

#[test]
fn topic_alias_max_gives_a_pool() {
    let mut connection = Connection::new(None, None, String::from("c1"), true, false, &[]);
    connection.topic_alias_max(2);
    let pool = connection.broker_topic_aliases.as_mut().unwrap();
    assert_eq!(pool.set_new_alias("a"), Some(1));
    assert_eq!(pool.set_new_alias("b"), Some(2));
    assert_eq!(pool.set_new_alias("c"), None);
    connection.topic_alias_max(0);
    let pool = connection.broker_topic_aliases.as_mut().unwrap();
    assert_eq!(pool.get_alias("a"), Some(1));
    connection.topic_alias_max(1);
    let pool = connection.broker_topic_aliases.as_mut().unwrap();
    assert_eq!(pool.get_alias("a"), None);
    assert_eq!(pool.set_new_alias("a"), Some(1));
    assert_eq!(pool.set_new_alias("b"), None);
}

#[test]
fn last_will_is_set_and_cleared() {
    let mut connection = Connection::new(None, None, String::from("c1"), true, false, &[]);
    connection.topic_alias_max(3).last_will(Some(will()), Some(will_properties()));
    assert!(connection.broker_topic_aliases.is_some());
    let set = connection.last_will.as_ref().unwrap();
    assert_eq!(set.topic, "gone");
    assert_eq!(set.message, vec![1, 2, 3]);
    assert_eq!(set.qos, QoS::AtLeastOnce);
    assert!(set.retain);
    assert_eq!(connection.last_will_properties.as_ref().unwrap().delay_interval, Some(5));
    connection.last_will(Some(will()), None);
    assert!(connection.last_will.is_some());
    assert!(connection.last_will_properties.is_none());
    connection.last_will(None, None);
    assert!(connection.last_will.is_none());
    assert!(connection.last_will_properties.is_none());
    assert_eq!(connection.client_id, "c1");
}
