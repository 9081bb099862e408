use ssh_config::{parse, serialize, update_ip, SingleConfig};

/// The text of a configuration file with three blocks, the last of them
/// without fields.
fn setup() -> String {
    let configs = vec![
        SingleConfig::new(
            "config1",
            &vec![
                ("Hostname", "1.3.3.7"),
                ("IdentityFile", "~/.ssh/id_rsa"),
                ("Port", "22"),
                ("ServerAliveCountMax", "2"),
                ("ServerAliveInterval", "60"),
            ],
        ),
        SingleConfig::new("config2", &vec![("Hostname", "0.4.2.0")]),
        SingleConfig::new("config3", &Vec::new()),
    ];
    serialize(&configs)
}

#[test]
fn test_update_ip() {
    let contents = setup();

    let config_name = "config2";
    let ip = "0.0.4.2";

    let contents = serialize(&update_ip(parse(&contents), config_name, ip));
    let configs = parse(&contents);

    assert_eq!(configs.len(), 2);
    assert_eq!(configs[1].get("Hostname"), Some(ip));
}
