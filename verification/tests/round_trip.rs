use ssh_config::{parse, serialize, update_field, SingleConfig};

const SAMPLE: &str = "Host config1\n    Hostname 1.3.3.7\n    IdentityFile ~/.ssh/id_rsa\n\nHost config2\n    Hostname 0.4.2.0\n";

#[test]
fn written_text_is_read_back_and_written_the_same() {
    let doc = parse(SAMPLE);
    let text = serialize(&doc);
    assert_eq!(text, SAMPLE);
    assert_eq!(serialize(&parse(&text)), text);
}

#[test]
fn untidy_text_is_stable_once_written() {
    let untidy = "# my hosts\nPort   22\n\n\nHost   a   b\n\tHostname=1.1.1.1\r\n  User\troot  \n  junk\nHost b\nHost c\n  Port 1\n  Port 2";
    let first = serialize(&parse(untidy));
    assert_eq!(
        first,
        "Host default\n    Port 22\n\nHost a\n    Hostname 1.1.1.1\n    User root\n\nHost c\n    Port 2\n"
    );
    let second = serialize(&parse(&first));
    assert_eq!(second, first);
    assert_eq!(serialize(&parse(&second)), second);
}

#[test]
fn blocks_made_by_hand_are_stable_from_the_second_writing_on() {
    let doc = vec![
        SingleConfig::new("a", &vec![("Port", " 22 ")]),
        SingleConfig::new("empty", &Vec::new()),
        SingleConfig::new("b", &vec![("User", "root")]),
    ];
    let first = serialize(&doc);
    assert_eq!(first, "Host a\n    Port  22 \n\nHost empty\n\nHost b\n    User root\n");
    let second = serialize(&parse(&first));
    assert_eq!(second, "Host a\n    Port 22\n\nHost b\n    User root\n");
    assert_eq!(serialize(&parse(&second)), second);
}

#[test]
fn a_field_called_like_the_keyword_is_read_back_as_a_header() {
    let doc = parse("Host a\nHost=b\n");
    assert_eq!(doc.len(), 1);
    assert_eq!(doc[0].entry(0), Some(("Host", "b")));
    let text = serialize(&doc);
    assert_eq!(text, "Host a\n    Host b\n");
    assert_eq!(parse(&text).len(), 0);
}

#[test]
fn update_then_write_then_read() {
    let doc = update_field(parse(SAMPLE), "config2", "Hostname", "0.0.4.2");
    let text = serialize(&doc);
    assert_eq!(
        text,
        "Host config1\n    Hostname 1.3.3.7\n    IdentityFile ~/.ssh/id_rsa\n\nHost config2\n    Hostname 0.0.4.2\n"
    );

    let again = parse(&text);
    assert_eq!(again.len(), 2);
    assert_eq!(again[1].name(), "config2");
    assert_eq!(again[1].get("Hostname"), Some("0.0.4.2"));
    assert_eq!(again[0].name(), "config1");
    assert_eq!(again[0].len(), 2);
    assert_eq!(again[0].entry(0), Some(("Hostname", "1.3.3.7")));
    assert_eq!(again[0].entry(1), Some(("IdentityFile", "~/.ssh/id_rsa")));
    assert_eq!(serialize(&again), text);
}

#[test]
fn a_comment_is_absent_from_what_is_written() {
    let text = serialize(&parse("Host a\n# remark\n    Port 22\n    # another\n"));
    assert_eq!(text, "Host a\n    Port 22\n");
    assert!(!text.contains('#'));
}
