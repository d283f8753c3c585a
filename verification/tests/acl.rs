use rumqttd::acl::AclView;
use rumqttd::{Acl, AclError, AclRule};
use std::str::FromStr;

#[test]
fn matches_topic_wildcard() {
    let rule = AclRule::from("test/#");
    assert!(rule.matches_topic("test/abc"));
    assert!(rule.matches_topic("test/abc/def"));
}

#[test]
fn matches_topic_any() {
    let rule = AclRule::from("test/+");
    assert!(rule.matches_topic("test/abc"));
    assert!(!rule.matches_topic("test/abc/def"));
    let rule = AclRule::from("test/+/sub/+");
    assert!(rule.matches_topic("test/abc/sub/def"));
    assert!(!rule.matches_topic("test/abc/bub/def"));
}

#[test]
fn matches_filter_wildcard() {
    let rule = AclRule::from("test/#");
    assert!(rule.matches_filter("test/abc"));
    assert!(rule.matches_filter("test/abc/def"));
    assert!(!rule.matches_filter("#"));
}

#[test]
fn matches_filter_any() {
    let rule = AclRule::from("test/+");
    assert!(rule.matches_filter("test/abc"));
    assert!(!rule.matches_filter("test/abc/def"));
    let rule = AclRule::from("test/+/sub/+");
    assert!(rule.matches_filter("test/+/sub/def"));
    assert!(!rule.matches_filter("test/abc/+/def"));
}

#[test]
fn substitute() {
    let rule = AclRule::from("device/%u/version/+");
    let user = "0xff";
    assert_eq!(
        rule.substitute_variables(&[("%u", user)]).as_ref(),
        *&format!("device/{user}/version/+")
    );
    assert_eq!(
        rule.substitute_variables(&[("%u", "client1/a")]).as_ref(),
        "device/%u/version/+"
    );
}

#[test]
fn substitute_fail_does_not_allocate() {
    let rule = AclRule::from("device/%u/version/+");
    assert!(rule.is_borrowed());
    let id = "8e7798ed-cf5e-472d-93aa-c7e794bd6aaa";
    assert!(rule.substitute_variables(&[("%c", id)]).is_borrowed());
}

#[test]
fn string_parse() {
    let rule: Acl = "test/+:r".parse().unwrap();
    assert_eq!(rule.to_string().parse::<Acl>().unwrap(), rule);
}

#[test]
fn wildcard_needs_a_segment_of_the_name() {
    let rule = AclRule::from("test/#");
    assert!(!rule.matches_topic("test"));
    assert!(rule.matches_topic("test/"));
    assert!(!rule.matches_topic("tes/abc"));
}

#[test]
fn wildcard_alone_admits_every_name() {
    let rule = AclRule::default();
    assert_eq!(rule.as_ref(), "#");
    assert!(rule.is_borrowed());
    assert!(rule.matches_topic(""));
    assert!(rule.matches_topic("a"));
    assert!(rule.matches_topic("a/b/c"));
    assert!(rule.matches_filter("#"));
}

#[test]
fn wildcard_ends_the_walk_wherever_it_stands() {
    let rule = AclRule::from("a/#/c");
    assert!(rule.matches_topic("a/b"));
    assert!(rule.matches_topic("a/b/x/y"));
    assert!(!rule.matches_topic("a"));
}

#[test]
fn any_admits_one_segment_even_an_empty_one() {
    let rule = AclRule::from("a/+");
    assert!(rule.matches_topic("a/"));
    assert!(!rule.matches_topic("a"));
    assert!(rule.matches_filter("a/#"));
    assert!(rule.matches_filter("a/+"));
}

#[test]
fn literal_segments_must_be_equal() {
    let rule = AclRule::from("a/b");
    assert!(rule.matches_topic("a/b"));
    assert!(!rule.matches_topic("a/c"));
    assert!(!rule.matches_topic("a/b/c"));
    assert!(!rule.matches_topic("a"));
    assert!(!rule.matches_topic("a/bb"));
    assert!(!rule.matches_topic("a/"));
    let empty = AclRule::from("");
    assert!(empty.matches_topic(""));
    assert!(!empty.matches_topic("a"));
}

#[test]
fn wildcards_of_a_filter_are_plain_segments() {
    let rule = AclRule::from("test/abc");
    assert!(!rule.matches_filter("test/+"));
    assert!(!rule.matches_filter("test/#"));
    let rule = AclRule::from("test/+/x");
    assert!(rule.matches_filter("test/#/x"));
}

#[test]
fn names_beyond_ascii_are_cut_at_separators_only() {
    let rule = AclRule::from("gerät/+/größe");
    assert!(rule.matches_topic("gerät/ü/größe"));
    assert!(!rule.matches_topic("gerät/ü/grösse"));
}

#[test]
fn substitute_in_order_into_what_came_before() {
    let rule = AclRule::from("%c/%u");
    let out = rule.substitute_variables(&[("%c", "x%u"), ("%u", "y")]);
    assert_eq!(out.as_ref(), "xy/y");
    assert!(!out.is_borrowed());
    let out = rule.substitute_variables(&[("%u", "y"), ("%c", "x%u")]);
    assert_eq!(out.as_ref(), "x%u/y");
}

#[test]
fn substitute_skips_only_the_unfit_value() {
    let rule = AclRule::from("%t/%c/%u");
    let out = rule.substitute_variables(&[("%t", "a+b"), ("%c", "id"), ("%u", "a#")]);
    assert_eq!(out.as_ref(), "%t/id/%u");
    let out = rule.substitute_variables(&[("%t", "a/b")]);
    assert_eq!(out.as_ref(), "%t/%c/%u");
    assert!(out.is_borrowed());
}

#[test]
fn substitute_every_occurrence() {
    let rule = AclRule::from("%u/%u/x%ux");
    let out = rule.substitute_variables(&[("%u", "me")]);
    assert_eq!(out.as_ref(), "me/me/xmex");
    let out = rule.substitute_variables(&[("%u", "")]);
    assert_eq!(out.as_ref(), "//xx");
}

#[test]
fn substitute_without_change_keeps_the_rule_as_it_is_held() {
    let rule = AclRule::from("device/%u");
    let same = rule.substitute_variables(&[("%u", "%u")]);
    assert_eq!(same.as_ref(), "device/%u");
    assert!(same.is_borrowed());
    let back = rule.substitute_variables(&[("device", "x"), ("x", "device")]);
    assert_eq!(back.as_ref(), "device/%u");
    assert!(back.is_borrowed());
    let none = rule.substitute_variables(&[]);
    assert!(none.is_borrowed());
    let owned = AclRule::from(String::from("device/%u"));
    assert!(!owned.is_borrowed());
    let still = owned.substitute_variables(&[("%c", "id")]);
    assert!(!still.is_borrowed());
    assert_eq!(still.as_ref(), "device/%u");
}

#[test]
fn substitute_the_empty_token() {
    let rule = AclRule::from("ab");
    let out = rule.substitute_variables(&[("", "-")]);
    assert_eq!(out.as_ref(), "-a-b-");
}

#[test]
fn rules_are_equal_by_their_text() {
    let a = AclRule::from("test/#");
    let b = AclRule::from(String::from("test/#"));
    assert_eq!(a, b);
    assert_ne!(a, AclRule::from("test/+"));
    assert_eq!(a.clone(), a);
    assert!(a.clone().is_borrowed());
    assert!(!b.clone().is_borrowed());
    assert_eq!(a.as_str(), "test/#");
}

#[test]
fn acl_new_takes_what_becomes_a_rule() {
    let acl = Acl::new("test/#", true, false);
    assert_eq!(acl.rule, AclRule::from("test/#"));
    assert!(acl.rule.is_borrowed());
    assert!(acl.read);
    assert!(!acl.write);
    let acl = Acl::new(String::from("a/b"), false, true);
    assert_eq!(acl.rule.as_ref(), "a/b");
    assert!(!acl.read);
    assert!(acl.write);
    let acl = Acl::new(AclRule::default(), false, false);
    assert_eq!(acl.rule.as_ref(), "#");
}

#[test]
fn acl_parse_cuts_at_the_last_colon() {
    let acl: Acl = "a:b:rw".parse().unwrap();
    assert_eq!(acl, Acl::new("a:b", true, true));
    let acl: Acl = "test/#:rw".parse().unwrap();
    assert_eq!(acl.rule.as_ref(), "test/#");
    assert!(acl.read && acl.write);
    assert!(!acl.rule.is_borrowed());
    let acl: Acl = ":".parse().unwrap();
    assert_eq!(acl, Acl::new("", false, false));
    let acl: Acl = "$SYS/#:r".parse().unwrap();
    assert_eq!(acl, Acl::new("$SYS/#", true, false));
}

#[test]
fn acl_parse_reads_flags_in_any_order() {
    assert_eq!(Acl::from_str("t:wr").unwrap(), Acl::new("t", true, true));
    assert_eq!(Acl::from_str("t:w").unwrap(), Acl::new("t", false, true));
    assert_eq!(Acl::from_str("t:").unwrap(), Acl::new("t", false, false));
    assert_eq!(Acl::from_str("t:xrz").unwrap(), Acl::new("t", true, false));
    assert_eq!(Acl::from_str("t:RW").unwrap(), Acl::new("t", false, false));
    assert_eq!(Acl::from_str("t:rrww").unwrap(), Acl::new("t", true, true));
}

#[test]
fn acl_parse_without_colon_fails() {
    assert_eq!("test/#".parse::<Acl>(), Err(AclError::NoFlags));
    assert_eq!("".parse::<Acl>(), Err(AclError::NoFlags));
    assert_eq!("rw".parse::<Acl>(), Err(AclError::NoFlags));
    assert_eq!(Acl::try_from("test/#"), Err(AclError::NoFlags));
    assert_eq!(Acl::try_from(String::from("test/#")), Err(AclError::NoFlags));
}

#[test]
fn acl_error_in_words() {
    assert_eq!(AclError::NoFlags.to_string(), "acl does not contain an ':'");
}

#[test]
fn acl_to_string_writes_rule_and_flags() {
    assert_eq!(Acl::new("device/%u/#", true, true).to_string(), "device/%u/#:rw");
    assert_eq!(Acl::new("a", true, false).to_string(), "a:r");
    assert_eq!(Acl::new("a", false, true).to_string(), "a:w");
    assert_eq!(Acl::new("a", false, false).to_string(), "a:");
    let text: String = Acl::new("a:b", false, true).into();
    assert_eq!(text, "a:b:w");
}

#[test]
fn acl_text_round_trips() {
    let rules = ["", "#", "a/b", "a:b", "::", "r", "w:r", "gerät/%u"];
    let flags = [(false, false), (true, false), (false, true), (true, true)];
    for rule in rules {
        for (read, write) in flags {
            let acl = Acl::new(rule, read, write);
            assert_eq!(acl.to_string().parse::<Acl>(), Ok(acl.clone()));
            assert_eq!(Acl::try_from(acl.to_string()), Ok(acl.clone()));
            assert_eq!(Acl::try_from(acl.to_string().as_str()), Ok(acl));
        }
    }
}

#[test]
fn acl_substitute_keeps_the_flags() {
    let acl = Acl::new("device/%u/#", true, false);
    let out = acl.substitute_variables(&[("%u", "me")]);
    assert_eq!(out, Acl::new("device/me/#", true, false));
    let acl = Acl::new("device/%u/#", false, true);
    let out = acl.substitute_variables(&[("%u", "a/b")]);
    assert_eq!(out, acl);
    assert!(out.rule.is_borrowed());
}

#[test]
fn acl_view_holds_plain_values() {
    let a = Acl::new("x", true, false);
    let b = a.clone();
    assert_eq!(a, b);
    assert_ne!(a, Acl::new("x", true, true));
    assert_ne!(a, Acl::new("x", false, false));
    assert_ne!(a, Acl::new("y", true, false));
    let _unused: Option<AclView> = None;
}

#[test]
fn substitute_reaches_a_token_that_an_earlier_value_brought() {
    let rule = AclRule::from("%c");
    let out = rule.substitute_variables(&[("%c", "%u"), ("%u", "y")]);
    assert_eq!(out.as_ref(), "y");
}

#[test]
fn substitute_adds_no_segment() {
    let rule = AclRule::from("a/%u/+/%c/#");
    let out = rule.substitute_variables(&[("%u", "x/y"), ("%c", "id"), ("a/", "b")]);
    assert_eq!(out.as_ref(), "b%u/+/id/#");
    assert_eq!(out.as_ref().matches('/').count(), 3);
    assert_eq!(out.as_ref().matches('+').count(), 1);
    assert_eq!(out.as_ref().matches('#').count(), 1);
}
