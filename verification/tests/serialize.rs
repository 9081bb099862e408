use ssh_config::{serialize, SingleConfig};

#[test]
fn serialize_of_no_block_is_empty() {
    assert_eq!(serialize(&Vec::new()), "");
}

#[test]
fn serialize_of_one_block_is_the_block() {
    let doc = vec![SingleConfig::new("config2", &vec![("Hostname", "0.4.2.0")])];
    assert_eq!(serialize(&doc), "Host config2\n    Hostname 0.4.2.0\n");
    assert_eq!(serialize(&doc), doc[0].to_string());
}

#[test]
fn serialize_parts_blocks_by_one_empty_line() {
    let doc = vec![
        SingleConfig::new(
            "config1",
            &vec![("Hostname", "1.3.3.7"), ("IdentityFile", "~/.ssh/id_rsa")],
        ),
        SingleConfig::new("config2", &vec![("Hostname", "0.4.2.0")]),
        SingleConfig::new("config3", &Vec::new()),
    ];
    assert_eq!(
        serialize(&doc),
        "Host config1\n    Hostname 1.3.3.7\n    IdentityFile ~/.ssh/id_rsa\n\nHost config2\n    Hostname 0.4.2.0\n\nHost config3\n"
    );
}

#[test]
fn serialize_keeps_each_block_to_its_own_order() {
    let doc = vec![
        SingleConfig::new("a", &vec![("Port", "22"), ("Hostname", "1.1.1.1")]),
        SingleConfig::new("b", &vec![("Hostname", "2.2.2.2"), ("Port", "23")]),
    ];
    assert_eq!(
        serialize(&doc),
        "Host a\n    Port 22\n    Hostname 1.1.1.1\n\nHost b\n    Hostname 2.2.2.2\n    Port 23\n"
    );
}
