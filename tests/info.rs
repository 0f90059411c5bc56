use q3huff::info::Info;

#[test]
fn test_info_serialize() {
    let mut info = Info::new();

    info.set_value_for_key("key1", "value1");
    info.set_value_for_key("key2", "value2");

    assert_eq!(info.serialize(), "\\key1\\value1\\key2\\value2");
}

#[test]
fn info_keys_come_out_sorted() {
    let mut info = Info::new();
    info.set_value_for_key("qport", "31415");
    info.set_value_for_key("challenge", "1234567");
    info.set_value_for_key("protocol", "84");
    assert_eq!(
        info.serialize(),
        "\\challenge\\1234567\\protocol\\84\\qport\\31415"
    );
}

#[test]
fn info_same_key_replaces_value() {
    let mut info = Info::new();
    info.set_value_for_key("name", "first");
    info.set_value_for_key("rate", "25000");
    info.set_value_for_key("name", "second");
    assert_eq!(info.serialize(), "\\name\\second\\rate\\25000");
}

#[test]
fn info_empty_serializes_to_nothing() {
    let info = Info::new();
    assert_eq!(info.serialize(), "");
}

#[test]
fn info_prefix_key_sorts_first() {
    let mut info = Info::new();
    info.set_value_for_key("ab", "2");
    info.set_value_for_key("a", "1");
    info.set_value_for_key("B", "0");
    assert_eq!(info.serialize(), "\\B\\0\\a\\1\\ab\\2");
}
