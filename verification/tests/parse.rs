use ssh_config::parse::{read_line, Line};
use ssh_config::text::chars_of;
use ssh_config::{parse, SingleConfig};

fn read(line: &str) -> Line {
    read_line(&chars_of(line))
}

fn header(name: &str) -> Line {
    Line::Header(name.to_string())
}

fn field(key: &str, value: &str) -> Line {
    Line::Field(key.to_string(), value.to_string())
}

fn parsed_pairs(block: &SingleConfig) -> Vec<(String, String)> {
    let mut pairs = Vec::new();
    let mut index = 0;
    while let Some((key, value)) = block.entry(index) {
        pairs.push((key.to_string(), value.to_string()));
        index += 1;
    }
    pairs
}

fn expect_block(block: &SingleConfig, name: &str, fields: &[(&str, &str)]) {
    assert_eq!(block.name(), name);
    let expected: Vec<(String, String)> =
        fields.iter().map(|(key, value)| (key.to_string(), value.to_string())).collect();
    assert_eq!(parsed_pairs(block), expected);
}

#[test]
fn read_line_tells_blank_lines() {
    assert_eq!(read(""), Line::Blank);
    assert_eq!(read("   "), Line::Blank);
    assert_eq!(read("\t\r"), Line::Blank);
}

#[test]
fn read_line_tells_comments() {
    assert_eq!(read("# a remark"), Line::Comment);
    assert_eq!(read("   #indented"), Line::Comment);
    assert_eq!(read("#"), Line::Comment);
    assert_eq!(read("#Host config1"), Line::Comment);
    assert_eq!(read("# Host config1"), Line::Comment);
    assert_eq!(read("#key=value"), Line::Comment);
}

#[test]
fn read_line_tells_headers() {
    assert_eq!(read("Host config1"), header("config1"));
    assert_eq!(read("  Host config1  "), header("config1"));
    assert_eq!(read("Host   config1"), header("config1"));
    assert_eq!(read("Host\tconfig1"), header("config1"));
    assert_eq!(read("Host config1 extra tokens"), header("config1"));
    assert_eq!(read("Host *"), header("*"));
    assert_eq!(read("Host a=b"), header("a=b"));
}

#[test]
fn read_line_takes_other_words_for_keys() {
    assert_eq!(read("Host"), Line::Ignored);
    assert_eq!(read("Host "), Line::Ignored);
    assert_eq!(read("Hostname 1.3.3.7"), field("Hostname", "1.3.3.7"));
    assert_eq!(read("host config1"), field("host", "config1"));
    assert_eq!(read("Hos config1"), field("Hos", "config1"));
    assert_eq!(read("Host=config1"), field("Host", "config1"));
}

#[test]
fn read_line_splits_fields_at_the_first_run_of_whitespace() {
    assert_eq!(read("    Hostname 1.3.3.7"), field("Hostname", "1.3.3.7"));
    assert_eq!(read("Hostname    1.3.3.7"), field("Hostname", "1.3.3.7"));
    assert_eq!(read("Hostname\t1.3.3.7"), field("Hostname", "1.3.3.7"));
    assert_eq!(read("ProxyCommand ssh -W %h:%p  jump"), field("ProxyCommand", "ssh -W %h:%p  jump"));
    assert_eq!(read("Key = value"), field("Key", "= value"));
    assert_eq!(read("a=b c=d"), field("a=b", "c=d"));
}

#[test]
fn read_line_falls_back_to_the_first_equals_sign() {
    assert_eq!(read("Port=22"), field("Port", "22"));
    assert_eq!(read("  Port=22  "), field("Port", "22"));
    assert_eq!(read("a=b=c"), field("a", "b=c"));
}

#[test]
fn read_line_ignores_what_has_no_key_or_no_value() {
    assert_eq!(read("garbage"), Line::Ignored);
    assert_eq!(read("  garbage  "), Line::Ignored);
    assert_eq!(read("Port="), Line::Ignored);
    assert_eq!(read("=22"), Line::Ignored);
    assert_eq!(read("="), Line::Ignored);
}

#[test]
fn parse_reads_blocks_in_order() {
    let doc = parse(
        "Host config1\n    Hostname 1.3.3.7\n    IdentityFile ~/.ssh/id_rsa\n\nHost config2\n    Hostname 0.4.2.0\n",
    );
    assert_eq!(doc.len(), 2);
    expect_block(
        &doc[0],
        "config1",
        &[("Hostname", "1.3.3.7"), ("IdentityFile", "~/.ssh/id_rsa")],
    );
    expect_block(&doc[1], "config2", &[("Hostname", "0.4.2.0")]);
}

#[test]
fn parse_of_nothing_is_no_block() {
    assert_eq!(parse("").len(), 0);
    assert_eq!(parse("\n\n\n").len(), 0);
    assert_eq!(parse("   \n# only a remark\n").len(), 0);
}

#[test]
fn parse_needs_no_line_feed_at_the_end() {
    let doc = parse("Host a\n    Port 22");
    assert_eq!(doc.len(), 1);
    expect_block(&doc[0], "a", &[("Port", "22")]);
}

#[test]
fn parse_takes_carriage_returns_for_whitespace() {
    let doc = parse("Host a\r\n    Port 22\r\n\r\nHost b\r\n    Port 23\r\n");
    assert_eq!(doc.len(), 2);
    expect_block(&doc[0], "a", &[("Port", "22")]);
    expect_block(&doc[1], "b", &[("Port", "23")]);
}

#[test]
fn parse_drops_blocks_without_fields() {
    let doc = parse("Host empty\n\nHost full\n    Port 22\n\nHost last\n");
    assert_eq!(doc.len(), 1);
    expect_block(&doc[0], "full", &[("Port", "22")]);
}

#[test]
fn parse_closes_a_block_at_the_next_header() {
    let doc = parse("Host a\n    Port 22\nHost b\n    Port 23\n");
    assert_eq!(doc.len(), 2);
    expect_block(&doc[0], "a", &[("Port", "22")]);
    expect_block(&doc[1], "b", &[("Port", "23")]);
}

#[test]
fn parse_gathers_fields_before_any_header_under_default() {
    let doc = parse("Port 22\nUser root\n\nHost a\n    Port 23\n");
    assert_eq!(doc.len(), 2);
    expect_block(&doc[0], "default", &[("Port", "22"), ("User", "root")]);
    expect_block(&doc[1], "a", &[("Port", "23")]);
}

#[test]
fn parse_starts_a_default_block_after_a_blank_line() {
    let doc = parse("Host a\n    Port 22\n\n    User root\n");
    assert_eq!(doc.len(), 2);
    expect_block(&doc[0], "a", &[("Port", "22")]);
    expect_block(&doc[1], "default", &[("User", "root")]);
}

#[test]
fn parse_lets_the_last_value_of_a_key_win() {
    let doc = parse("Host a\n    Port 22\n    User root\n    Port 2222\n");
    assert_eq!(doc.len(), 1);
    expect_block(&doc[0], "a", &[("Port", "2222"), ("User", "root")]);
}

#[test]
fn parse_keeps_blocks_of_the_same_name_apart() {
    let doc = parse("Host a\n    Port 22\n\nHost a\n    Port 23\n");
    assert_eq!(doc.len(), 2);
    expect_block(&doc[0], "a", &[("Port", "22")]);
    expect_block(&doc[1], "a", &[("Port", "23")]);
}

#[test]
fn parse_drops_a_line_without_separator() {
    let with = parse("Host a\n    Port 22\n    garbage\n    User root\n");
    let without = parse("Host a\n    Port 22\n    User root\n");
    assert_eq!(with.len(), 1);
    expect_block(&with[0], "a", &[("Port", "22"), ("User", "root")]);
    assert_eq!(parsed_pairs(&with[0]), parsed_pairs(&without[0]));
}

#[test]
fn parse_skips_comments_inside_and_between_blocks() {
    let doc = parse(
        "# top\nHost a\n    # inside\n    Port 22\n#between\n    User root\n\n# alone\n\nHost b\n    Port 23\n# end",
    );
    assert_eq!(doc.len(), 2);
    expect_block(&doc[0], "a", &[("Port", "22"), ("User", "root")]);
    expect_block(&doc[1], "b", &[("Port", "23")]);
    assert_eq!(doc[0].get("#"), None);
    assert_eq!(doc[0].get("#between"), None);
}

#[test]
fn parse_keeps_whitespace_inside_a_value() {
    let doc = parse("Host a\n    ProxyCommand   ssh  -W %h:%p\tjump   \n");
    assert_eq!(doc.len(), 1);
    expect_block(&doc[0], "a", &[("ProxyCommand", "ssh  -W %h:%p\tjump")]);
}

#[test]
fn parse_reads_fields_written_with_an_equals_sign() {
    let doc = parse("Host a\n    Port=22\n    Bad=\n    =Bad\n");
    assert_eq!(doc.len(), 1);
    expect_block(&doc[0], "a", &[("Port", "22")]);
}
