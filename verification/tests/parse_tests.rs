use proxy_manager::parse_proxy_list;

#[test]
fn parse_single_valid_among_noise() {
    let text = "1.2.3.4:8080\n#comment\n\nbad-line\n5.6.7.8:65536\n";
    let records = parse_proxy_list(text);
    assert_eq!(records.len(), 1);
    assert_eq!(records[0].ip, "1.2.3.4");
    assert_eq!(records[0].port, 8080);
    assert_eq!(records[0].country, "Unknown");
    assert_eq!(records[0].protocol, "http");
    assert_eq!(records[0].speed, 0);
    assert_eq!(records[0].success_rate, 0);
    assert_eq!(records[0].failures, 0);
}

#[test]
fn parse_trims_whitespace_and_carriage_returns() {
    let text = "  9.9.9.9:80 \r\n# note\n\n";
    let records = parse_proxy_list(text);
    assert_eq!(records.len(), 1);
    assert_eq!(records[0].ip, "9.9.9.9");
    assert_eq!(records[0].port, 80);
}

#[test]
fn parse_port_forms() {
    let records = parse_proxy_list("a:+81\nb:0\nc:65535\nd:65536\ne:8x0\nf:\nnoport\n");
    assert_eq!(records.len(), 3);
    assert_eq!(records[0].ip, "a");
    assert_eq!(records[0].port, 81);
    assert_eq!(records[1].ip, "b");
    assert_eq!(records[1].port, 0);
    assert_eq!(records[2].ip, "c");
    assert_eq!(records[2].port, 65535);
}

#[test]
fn parse_empty_text() {
    assert_eq!(parse_proxy_list("").len(), 0);
}

#[test]
fn parse_comment_only_text() {
    assert_eq!(parse_proxy_list("# one\n   # two\n").len(), 0);
}

#[test]
fn parse_without_trailing_newline() {
    let records = parse_proxy_list("1.1.1.1:1");
    assert_eq!(records.len(), 1);
    assert_eq!(records[0].ip, "1.1.1.1");
    assert_eq!(records[0].port, 1);
}

#[test]
fn parse_splits_on_first_colon_only() {
    let records = parse_proxy_list("host:extra:99\nhost2:99\n");
    assert_eq!(records.len(), 1);
    assert_eq!(records[0].ip, "host2");
    assert_eq!(records[0].port, 99);
}
