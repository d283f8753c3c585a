use rumqttd::BrokerAliases;

#[test]
fn fresh_pool_gives_each_alias_once() {
    let max: u16 = 5;
    let mut pool = BrokerAliases::new(max);
    let topics = ["a", "b", "c", "d", "e"];
    for (i, topic) in topics.iter().enumerate() {
        assert_eq!(pool.get_alias(topic), None);
        assert_eq!(pool.set_new_alias(topic), Some(i as u16 + 1));
    }
    assert_eq!(pool.set_new_alias("f"), None);
    assert_eq!(pool.get_alias("f"), None);
    for (i, topic) in topics.iter().enumerate() {
        assert_eq!(pool.get_alias(topic), Some(i as u16 + 1));
    }
}

#[test]
fn full_pool_is_left_as_it_was() {
    let mut pool = BrokerAliases::new(1);
    assert_eq!(pool.set_new_alias("a"), Some(1));
    assert_eq!(pool.set_new_alias("b"), None);
    assert_eq!(pool.set_new_alias("c"), None);
    assert_eq!(pool.get_alias("a"), Some(1));
    assert_eq!(pool.get_alias("b"), None);
    pool.remove_alias("a");
    assert_eq!(pool.get_alias("a"), None);
    assert_eq!(pool.set_new_alias("b"), Some(1));
    assert_eq!(pool.set_new_alias("c"), None);
}

#[test]
fn pool_without_aliases_gives_none() {
    let mut pool = BrokerAliases::new(0);
    assert_eq!(pool.set_new_alias("a"), None);
    assert_eq!(pool.set_new_alias("a"), None);
    assert_eq!(pool.get_alias("a"), None);
    pool.remove_alias("a");
    assert_eq!(pool.set_new_alias("b"), None);
}

#[test]
fn alias_given_up_is_given_out_next() {
    let mut pool = BrokerAliases::new(10);
    assert_eq!(pool.set_new_alias("a"), Some(1));
    assert_eq!(pool.set_new_alias("b"), Some(2));
    assert_eq!(pool.set_new_alias("c"), Some(3));
    pool.remove_alias("b");
    assert_eq!(pool.get_alias("b"), None);
    assert_eq!(pool.set_new_alias("d"), Some(2));
    assert_eq!(pool.set_new_alias("e"), Some(4));
    assert_eq!(pool.get_alias("a"), Some(1));
    assert_eq!(pool.get_alias("c"), Some(3));
    assert_eq!(pool.get_alias("d"), Some(2));
}

#[test]
fn aliases_given_up_come_back_last_first() {
    let mut pool = BrokerAliases::new(4);
    assert_eq!(pool.set_new_alias("a"), Some(1));
    assert_eq!(pool.set_new_alias("b"), Some(2));
    assert_eq!(pool.set_new_alias("c"), Some(3));
    pool.remove_alias("a");
    pool.remove_alias("b");
    assert_eq!(pool.set_new_alias("x"), Some(2));
    assert_eq!(pool.set_new_alias("y"), Some(1));
    assert_eq!(pool.set_new_alias("z"), Some(4));
    assert_eq!(pool.set_new_alias("w"), None);
}

#[test]
fn removing_a_topic_without_alias_changes_nothing() {
    let mut pool = BrokerAliases::new(2);
    assert_eq!(pool.set_new_alias("a"), Some(1));
    pool.remove_alias("b");
    assert_eq!(pool.get_alias("a"), Some(1));
    assert_eq!(pool.set_new_alias("b"), Some(2));
    assert_eq!(pool.set_new_alias("c"), None);
}

#[test]
fn new_alias_for_a_topic_that_has_one_gives_the_old_one_back() {
    let mut pool = BrokerAliases::new(2);
    assert_eq!(pool.set_new_alias("a"), Some(1));
    assert_eq!(pool.set_new_alias("a"), Some(2));
    assert_eq!(pool.get_alias("a"), Some(2));
    assert_eq!(pool.set_new_alias("b"), Some(1));
    assert_eq!(pool.get_alias("b"), Some(1));
    assert_eq!(pool.set_new_alias("c"), None);
    pool.remove_alias("a");
    assert_eq!(pool.set_new_alias("c"), Some(2));
    assert_eq!(pool.set_new_alias("d"), None);
}

#[test]
fn new_alias_time_and_again_uses_up_no_slot() {
    let mut pool = BrokerAliases::new(3);
    assert_eq!(pool.set_new_alias("a"), Some(1));
    assert_eq!(pool.set_new_alias("a"), Some(2));
    assert_eq!(pool.set_new_alias("a"), Some(1));
    assert_eq!(pool.set_new_alias("a"), Some(2));
    assert_eq!(pool.get_alias("a"), Some(2));
    assert_eq!(pool.set_new_alias("b"), Some(1));
    assert_eq!(pool.set_new_alias("c"), Some(3));
    assert_eq!(pool.set_new_alias("d"), None);
}

#[test]
fn full_pool_gives_no_new_alias_to_a_topic_that_has_one() {
    let mut pool = BrokerAliases::new(2);
    assert_eq!(pool.set_new_alias("a"), Some(1));
    assert_eq!(pool.set_new_alias("b"), Some(2));
    assert_eq!(pool.set_new_alias("a"), None);
    assert_eq!(pool.get_alias("a"), Some(1));
    assert_eq!(pool.get_alias("b"), Some(2));
}

#[test]
fn full_pool_gives_out_again_after_a_refusal() {
    let mut pool = BrokerAliases::new(2);
    assert_eq!(pool.set_new_alias("a"), Some(1));
    assert_eq!(pool.set_new_alias("b"), Some(2));
    assert_eq!(pool.set_new_alias("c"), None);
    pool.remove_alias("a");
    pool.remove_alias("b");
    assert_eq!(pool.set_new_alias("c"), Some(2));
    assert_eq!(pool.set_new_alias("d"), Some(1));
    assert_eq!(pool.set_new_alias("e"), None);
    assert_eq!(pool.set_new_alias("f"), None);
}

#[test]
fn largest_pool_gives_the_largest_alias() {
    let max = u16::MAX;
    let mut pool = BrokerAliases::new(max);
    for i in 1..=max {
        assert_eq!(pool.set_new_alias(&format!("t{i}")), Some(i));
    }
    assert_eq!(pool.set_new_alias("one too many"), None);
    assert_eq!(pool.get_alias("t65535"), Some(65535));
}
