use bridge_core::properties::{KafkaConsumerProperties, KafkaProducerProperties};

fn pairs(items: &[(&str, &str)]) -> Vec<(String, String)> {
    items.iter().map(|(k, v)| (k.to_string(), v.to_string())).collect()
}

fn value(entries: &[(String, String)], key: &str) -> Option<String> {
    entries.iter().find(|(k, _)| k == key).map(|(_, v)| v.clone())
}

#[test]
fn test_sensitive_property_is_redacted() {
    let props = pairs(&[
        ("bootstrap.servers", "somewhere"),
        ("sasl.username", "The Dude"),
        ("sasl.password", "The rug really tied the room together."),
    ]);

    let props = KafkaConsumerProperties::from_iter(props);

    let debug_str = props.debug_string();
    assert!(debug_str.contains(r#"bootstrap.servers: "somewhere""#));
    assert!(debug_str.contains(r#"sasl.username: "REDACTED""#));
    assert!(debug_str.contains(r#"sasl.password: "REDACTED""#));
    assert!(!debug_str.contains("The Dude"));
    assert!(!debug_str.contains("The rug really tied the room together."));

    let shown = props.redacted_entries();
    assert_eq!(value(&shown, "bootstrap.servers").as_deref(), Some("somewhere"));
    assert_eq!(value(&shown, "sasl.username").as_deref(), Some("REDACTED"));
    assert_eq!(value(&shown, "sasl.password").as_deref(), Some("REDACTED"));
    // the properties themselves keep their values
    assert_eq!(props.get("sasl.username"), Some("The Dude"));
}

#[test]
fn consumer_properties_get_defaults() {
    let props = KafkaConsumerProperties::from_iter(pairs(&[("bootstrap.servers", "b:9092")]));
    assert_eq!(props.get("group.id"), Some("kbridge"));
    assert!(props.get("client.id").unwrap().starts_with("kbridge-"));
    assert_eq!(props.get("client.id").unwrap().len(), "kbridge-".len() + 26);
    assert_eq!(props.get("fetch.queue.backoff.ms"), Some("100"));
    assert_eq!(props.get("queued.min.messages"), Some("1000000"));
    assert_eq!(props.get("queued.max.messages.kbytes"), Some("262144"));
    assert_eq!(props.get("fetch.message.max.bytes"), Some("4194304"));
    assert_eq!(props.get("enable.auto.commit"), Some("false"));
    assert_eq!(props.get("auto.offset.reset"), Some("smallest"));
    assert_eq!(props.get("bootstrap.servers"), Some("b:9092"));
    assert_eq!(props.get("absent"), None);
}

#[test]
fn consumer_properties_keep_given_values_except_offset_reset() {
    let props = KafkaConsumerProperties::from_iter(pairs(&[
        ("group.id", "mine"),
        ("enable.auto.commit", "true"),
        ("auto.offset.reset", "latest"),
        ("client.id", "me"),
    ]));
    assert_eq!(props.get("group.id"), Some("mine"));
    assert_eq!(props.get("enable.auto.commit"), Some("true"));
    assert_eq!(props.get("client.id"), Some("me"));
    assert_eq!(props.get("auto.offset.reset"), Some("smallest"));
}

#[test]
fn later_pairs_replace_earlier_ones() {
    let props = KafkaConsumerProperties::from_iter(pairs(&[("a", "1"), ("a", "2")]));
    assert_eq!(props.get("a"), Some("2"));
    let entries = props.entries();
    assert_eq!(entries.iter().filter(|(k, _)| k == "a").count(), 1);
}

#[test]
fn consumer_insert_replaces_value() {
    let mut props = KafkaConsumerProperties::from_iter(vec![]);
    assert!(props.insert("x", "1"));
    assert!(props.insert("x", "2"));
    assert_eq!(props.get("x"), Some("2"));
}

#[test]
fn producer_properties_have_no_group_id() {
    let mut props = KafkaProducerProperties::from_iter(pairs(&[("group.id", "g"), ("acks", "1")]));
    let entries = props.entries();
    assert_eq!(value(&entries, "group.id"), None);
    assert_eq!(value(&entries, "acks").as_deref(), Some("1"));
    assert_eq!(value(&entries, "allow.auto.create.topics").as_deref(), Some("false"));
    assert_eq!(value(&entries, "queue.buffering.max.kbytes").as_deref(), Some("131072"));
    assert!(!props.insert("group.id", "g"));
    assert!(!props.insert_if_not_set("group.id", "g"));
    assert_eq!(value(&props.entries(), "group.id"), None);
}

#[test]
fn producer_insert_if_not_set_keeps_existing_value() {
    let mut props = KafkaProducerProperties::from_iter(vec![]);
    assert!(!props.insert_if_not_set("acks", "0"));
    assert_eq!(value(&props.entries(), "acks").as_deref(), Some("all"));
    assert!(props.insert_if_not_set("linger.ms", "5"));
    assert_eq!(value(&props.entries(), "linger.ms").as_deref(), Some("5"));
    assert!(props.insert("acks", "1"));
    assert_eq!(value(&props.entries(), "acks").as_deref(), Some("1"));
}

#[test]
fn producer_redaction_hides_ssl_secrets() {
    let props = KafkaProducerProperties::from_iter(pairs(&[
        ("ssl.key.password", "x"),
        ("ssl.ca.pem", "y"),
        ("sasl.oauthbearer.client.secret", "z"),
        ("ssl.endpoint", "kept"),
    ]));
    let shown = props.redacted_entries();
    assert_eq!(value(&shown, "ssl.key.password").as_deref(), Some("REDACTED"));
    assert_eq!(value(&shown, "ssl.ca.pem").as_deref(), Some("REDACTED"));
    assert_eq!(value(&shown, "sasl.oauthbearer.client.secret").as_deref(), Some("REDACTED"));
    assert_eq!(value(&shown, "ssl.endpoint").as_deref(), Some("kept"));
}

#[test]
fn debug_text_lists_properties_by_key() {
    let props = KafkaConsumerProperties::from_iter(pairs(&[
        ("zeta", "say \"hi\""),
        ("bootstrap.servers", "b:9092"),
        ("sasl.password", "secret"),
    ]));
    let text = props.debug_string();
    assert!(text.starts_with("KafkaProperties { "));
    assert!(text.ends_with(" }"));
    let at = |needle: &str| text.find(needle).unwrap();
    assert!(at("auto.offset.reset: ") < at("bootstrap.servers: "));
    assert!(at("bootstrap.servers: ") < at("client.id: "));
    assert!(at("sasl.password: ") < at("zeta: "));
    assert!(text.contains(r#"zeta: "say \"hi\"" }"#));
    assert!(text.contains(r#"bootstrap.servers: "b:9092", "#));
    assert!(!text.contains("secret"));
}
