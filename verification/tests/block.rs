use ssh_config::SingleConfig;

fn pairs_of_block(block: &SingleConfig) -> Vec<(String, String)> {
    let mut pairs = Vec::new();
    let mut index = 0;
    while let Some((key, value)) = block.entry(index) {
        pairs.push((key.to_string(), value.to_string()));
        index += 1;
    }
    pairs
}

fn owned_pairs(pairs: &[(&str, &str)]) -> Vec<(String, String)> {
    pairs.iter().map(|(key, value)| (key.to_string(), value.to_string())).collect()
}

#[test]
fn new_keeps_the_name_and_the_order_of_the_fields() {
    let block = SingleConfig::new(
        "config1",
        &vec![("Hostname", "1.3.3.7"), ("IdentityFile", "~/.ssh/id_rsa"), ("Port", "22")],
    );
    assert_eq!(block.name(), "config1");
    assert_eq!(block.len(), 3);
    assert!(!block.is_empty());
    assert_eq!(
        pairs_of_block(&block),
        owned_pairs(&[("Hostname", "1.3.3.7"), ("IdentityFile", "~/.ssh/id_rsa"), ("Port", "22")])
    );
}

#[test]
fn new_without_fields_is_empty() {
    let block = SingleConfig::new("config3", &Vec::new());
    assert_eq!(block.name(), "config3");
    assert_eq!(block.len(), 0);
    assert!(block.is_empty());
    assert_eq!(block.entry(0), None);
    assert_eq!(block.get("Hostname"), None);
}

#[test]
fn new_lets_the_last_value_of_a_key_win_in_its_first_place() {
    let block = SingleConfig::new(
        "dup",
        &vec![("Port", "22"), ("User", "root"), ("Port", "2222"), ("User", "admin"), ("X", "y")],
    );
    assert_eq!(block.len(), 3);
    assert_eq!(
        pairs_of_block(&block),
        owned_pairs(&[("Port", "2222"), ("User", "admin"), ("X", "y")])
    );
}

#[test]
fn get_finds_the_value_of_a_key() {
    let block = SingleConfig::new("h", &vec![("Hostname", "1.3.3.7"), ("Port", "22")]);
    assert_eq!(block.get("Hostname"), Some("1.3.3.7"));
    assert_eq!(block.get("Port"), Some("22"));
    assert_eq!(block.get("port"), None);
    assert_eq!(block.get(""), None);
}

#[test]
fn entry_gives_the_fields_by_position() {
    let block = SingleConfig::new("h", &vec![("Hostname", "1.3.3.7"), ("Port", "22")]);
    assert_eq!(block.entry(0), Some(("Hostname", "1.3.3.7")));
    assert_eq!(block.entry(1), Some(("Port", "22")));
    assert_eq!(block.entry(2), None);
    assert_eq!(block.entry(usize::MAX), None);
}

#[test]
fn with_field_replaces_in_place() {
    let block = SingleConfig::new("h", &vec![("Hostname", "1.3.3.7"), ("Port", "22")]);
    let block = block.with_field("Hostname".to_string(), "0.0.4.2".to_string());
    assert_eq!(block.name(), "h");
    assert_eq!(pairs_of_block(&block), owned_pairs(&[("Hostname", "0.0.4.2"), ("Port", "22")]));
}

#[test]
fn with_field_appends_a_new_key() {
    let block = SingleConfig::new("h", &vec![("Hostname", "1.3.3.7")]);
    let block = block.with_field("Port".to_string(), "22".to_string());
    assert_eq!(pairs_of_block(&block), owned_pairs(&[("Hostname", "1.3.3.7"), ("Port", "22")]));
    assert_eq!(block.len(), 2);
}

#[test]
fn to_string_writes_the_header_and_the_indented_fields() {
    let block = SingleConfig::new(
        "config1",
        &vec![("Hostname", "1.3.3.7"), ("IdentityFile", "~/.ssh/id_rsa")],
    );
    assert_eq!(
        block.to_string(),
        "Host config1\n    Hostname 1.3.3.7\n    IdentityFile ~/.ssh/id_rsa\n"
    );
}

#[test]
fn to_string_of_an_empty_block_is_its_header() {
    let block = SingleConfig::new("config3", &Vec::new());
    assert_eq!(block.to_string(), "Host config3\n");
}
