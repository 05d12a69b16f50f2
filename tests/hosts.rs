use hostie::line::{chars_of, is_ws_char};
use hostie::{
    add_hosts_entry, current_entries, default_protected, entry_fields_valid, is_protected,
    remove_hosts_entry, HostsError, Line, Table,
};

fn pairs(v: &[(&str, &str)]) -> Vec<(String, String)> {
    v.iter().map(|(a, h)| (a.to_string(), h.to_string())).collect()
}

#[test]
fn test_list_empty_hosts_file() {
    let entries = current_entries("");
    assert!(entries.is_empty());
}

#[test]
fn test_list_hosts_with_entries() {
    let entries = current_entries("127.0.0.1 localhost\n192.168.1.1 router.local\n");
    assert_eq!(entries, pairs(&[("127.0.0.1", "localhost"), ("192.168.1.1", "router.local")]));
}

#[test]
fn test_add_new_entry() {
    let content = add_hosts_entry("127.0.0.1 localhost\n", "192.168.1.100", "test.local").unwrap();
    assert!(content.contains("192.168.1.100 test.local"));
    assert!(content.contains("127.0.0.1 localhost"));
    assert_eq!(content, "127.0.0.1 localhost\n192.168.1.100 test.local\n");
}

#[test]
fn test_add_duplicate_hostname() {
    let r = add_hosts_entry(
        "127.0.0.1 localhost\n192.168.1.100 test.local\n",
        "192.168.1.200",
        "test.local",
    );
    let err = r.unwrap_err();
    assert!(matches!(&err, HostsError::DuplicateHostname(h) if h == "test.local"));
    assert!(err.message().contains("already exists"));
}

#[test]
fn test_remove_existing_entry() {
    let content = remove_hosts_entry(
        "127.0.0.1 localhost\n192.168.1.100 test.local\n",
        "192.168.1.100",
        "test.local",
    )
    .unwrap();
    assert!(!content.contains("192.168.1.100 test.local"));
    assert!(content.contains("127.0.0.1 localhost"));
    assert_eq!(content, "127.0.0.1 localhost\n");
}

#[test]
fn test_remove_nonexistent_entry() {
    let err = remove_hosts_entry("127.0.0.1 localhost\n", "192.168.1.100", "nonexistent.local")
        .unwrap_err();
    assert!(matches!(&err, HostsError::EntryNotFound(a, h)
        if a == "192.168.1.100" && h == "nonexistent.local"));
    assert!(err.message().contains("does not exist"));
}

#[test]
fn test_remove_protected_entry() {
    let err = remove_hosts_entry(
        "127.0.0.1 localhost\n192.168.1.100 test.local\n",
        "127.0.0.1",
        "localhost",
    )
    .unwrap_err();
    assert!(matches!(&err, HostsError::ProtectedEntry(h) if h == "localhost"));
    assert!(err.message().contains("protected"));
}

#[test]
fn test_handles_comments_and_empty_lines() {
    let content = "# This is a comment\n127.0.0.1 localhost\n\n# Another comment\n192.168.1.1 router.local\n";
    let entries = current_entries(content);
    assert_eq!(entries, pairs(&[("127.0.0.1", "localhost"), ("192.168.1.1", "router.local")]));
    assert!(entries.iter().all(|(a, h)| !a.contains('#') && !h.contains('#')));
}

#[test]
fn test_add_to_empty_file() {
    let content = add_hosts_entry("", "192.168.1.100", "test.local").unwrap();
    assert!(content.contains("192.168.1.100 test.local"));
    assert_eq!(content, "192.168.1.100 test.local\n");
}

#[test]
fn test_multiple_operations() {
    let content = add_hosts_entry("127.0.0.1 localhost\n", "192.168.1.100", "test.local").unwrap();
    let entries = current_entries(&content);
    assert!(entries.iter().any(|(_, h)| h == "localhost"));
    assert!(entries.iter().any(|(_, h)| h == "test.local"));
    let content = remove_hosts_entry(&content, "192.168.1.100", "test.local").unwrap();
    assert!(!content.contains("192.168.1.100 test.local"));
    assert!(content.contains("127.0.0.1 localhost"));
}

#[test]
fn test_add_hostname_collision_false_positive_bug() {
    let content = add_hosts_entry(
        "127.0.0.1 localhost\n192.168.1.1 mytest.local\n",
        "192.168.1.200",
        "host",
    )
    .unwrap();
    assert!(content.contains("192.168.1.200 host"));
}

#[test]
fn test_add_exact_hostname_duplicate_should_fail() {
    let err = add_hosts_entry(
        "127.0.0.1 localhost\n192.168.1.100 test.local\n",
        "192.168.1.200",
        "test.local",
    )
    .unwrap_err();
    assert!(err.message().contains("already exists"));
}

#[test]
fn test_remove_exact_entry_only() {
    let content = remove_hosts_entry(
        "127.0.0.1 localhost\n192.168.1.100 myhost\n192.168.1.200 host\n",
        "192.168.1.200",
        "host",
    )
    .unwrap();
    assert!(!content.contains("192.168.1.200 host"));
    assert!(content.contains("192.168.1.100 myhost"));
    assert!(content.contains("127.0.0.1 localhost"));
}

#[test]
fn test_remove_by_hostname_only_removes_matching_ip() {
    let content = remove_hosts_entry(
        "127.0.0.1 test.local\n192.168.1.100 test.local\n",
        "192.168.1.100",
        "test.local",
    )
    .unwrap();
    assert!(!content.contains("192.168.1.100 test.local"));
    assert!(content.contains("127.0.0.1 test.local"));
}

#[test]
fn test_file_format_preservation() {
    let content = add_hosts_entry(
        "127.0.0.1 localhost\n192.168.1.1 router.local\n",
        "192.168.1.100",
        "test.local",
    )
    .unwrap();
    assert!(!content.contains("\n\n"));
    assert!(content.ends_with('\n'));
    let lines: Vec<&str> = content.lines().collect();
    assert_eq!(lines.len(), 3);
    assert!(lines[2] == "192.168.1.100 test.local");
}

#[test]
fn test_whitespace_handling_in_entries() {
    let entries = current_entries("127.0.0.1\tlocalhost\n192.168.1.1  router.local\n");
    assert_eq!(entries, pairs(&[("127.0.0.1", "localhost"), ("192.168.1.1", "router.local")]));
}

#[test]
fn round_trip_of_canonical_text() {
    let texts = [
        "",
        "127.0.0.1 localhost\n",
        "# comment\n\n127.0.0.1 localhost loopback # inline\n   \nsingle\n::1 ip6-localhost\n",
    ];
    for text in texts {
        assert_eq!(Table::parse(text).serialize(), text);
    }
}

#[test]
fn serialize_normalizes_separators_and_final_newline() {
    let t = Table::parse("127.0.0.1\t\tlocalhost   alias\n10.0.0.1 a");
    assert_eq!(t.serialize(), "127.0.0.1 localhost alias\n10.0.0.1 a\n");
}

#[test]
fn empty_table_serializes_to_nothing() {
    assert_eq!(Table::new().serialize(), "");
    assert_eq!(Table::parse("").lines.len(), 0);
}

#[test]
fn list_keeps_order_and_skips_non_entries() {
    let t = Table::parse("# c\n10.0.0.2 b\n\nlonely\n10.0.0.1 a x y\n  # indented comment\n");
    assert_eq!(t.list(), pairs(&[("10.0.0.2", "b"), ("10.0.0.1", "a")]));
}

#[test]
fn parse_line_classifies_each_kind() {
    assert!(matches!(Line::parse_line(""), Line::Blank(s) if s.is_empty()));
    assert!(matches!(Line::parse_line(" \t"), Line::Blank(s) if s == " \t"));
    assert!(matches!(Line::parse_line("# x y"), Line::Comment(s) if s == "# x y"));
    assert!(matches!(Line::parse_line("  # x y"), Line::Comment(s) if s == "  # x y"));
    assert!(matches!(Line::parse_line("  lonely  "), Line::Passthrough(s) if s == "  lonely  "));
    match Line::parse_line("  10.0.0.1\tfoo   bar baz ") {
        Line::Entry { address, hostname, trailing } => {
            assert_eq!(address, "10.0.0.1");
            assert_eq!(hostname, "foo");
            assert_eq!(trailing.as_deref(), Some("bar baz "));
        }
        other => panic!("not an entry: {:?}", other),
    }
    match Line::parse_line("10.0.0.1 foo  ") {
        Line::Entry { trailing, .. } => assert!(trailing.is_none()),
        other => panic!("not an entry: {:?}", other),
    }
}

#[test]
fn add_appends_after_comments_and_blanks() {
    let mut t = Table::parse("# head\n\n127.0.0.1 localhost\n# tail\n");
    assert!(t.add("10.0.0.5", "new.local").is_ok());
    assert_eq!(t.serialize(), "# head\n\n127.0.0.1 localhost\n# tail\n10.0.0.5 new.local\n");
}

#[test]
fn add_refused_leaves_table_unchanged() {
    let mut t = Table::parse("1.1.1.1 a\n");
    assert!(matches!(t.add("2.2.2.2", "a"), Err(HostsError::DuplicateHostname(h)) if h == "a"));
    assert_eq!(t.serialize(), "1.1.1.1 a\n");
}

#[test]
fn remove_takes_first_of_duplicates_only() {
    let mut t = Table::parse("1.1.1.1 a\n# mid\n1.1.1.1 a\n");
    assert!(t.remove("1.1.1.1", "a").is_ok());
    assert_eq!(t.serialize(), "# mid\n1.1.1.1 a\n");
}

#[test]
fn remove_compares_fields_not_raw_text() {
    let mut t = Table::parse("1.1.1.1\t\ta  alias\n2.2.2.2 b\n");
    assert!(t.remove("1.1.1.1", "a").is_ok());
    assert_eq!(t.serialize(), "2.2.2.2 b\n");
}

#[test]
fn protected_hosts_refused_whatever_the_address() {
    let text = "127.0.0.1 localhost\n255.255.255.255 broadcasthost\n";
    for (a, h) in [("10.9.9.9", "localhost"), ("127.0.0.1", "broadcasthost"), ("x", "broadcasthost")] {
        let err = remove_hosts_entry(text, a, h).unwrap_err();
        assert!(matches!(&err, HostsError::ProtectedEntry(p) if p == h));
    }
    let err = remove_hosts_entry("", "1.2.3.4", "localhost").unwrap_err();
    assert_eq!(err.message(), "Cannot remove protected entry: localhost");
}

#[test]
fn custom_protection_policy() {
    let mut t = Table::parse("127.0.0.1 localhost\n10.0.0.1 keep.me\n");
    let policy = vec!["keep.me".to_string()];
    assert!(matches!(
        t.remove_with("10.0.0.1", "keep.me", &policy),
        Err(HostsError::ProtectedEntry(_))
    ));
    assert!(t.remove_with("127.0.0.1", "localhost", &policy).is_ok());
    assert_eq!(t.serialize(), "10.0.0.1 keep.me\n");
    assert_eq!(default_protected(), vec!["localhost".to_string(), "broadcasthost".to_string()]);
}

#[test]
fn error_messages() {
    assert_eq!(
        HostsError::DuplicateHostname("h".to_string()).message(),
        "Entry already exists: h"
    );
    assert_eq!(
        HostsError::EntryNotFound("1.2.3.4".to_string(), "h".to_string()).message(),
        "Entry does not exist: 1.2.3.4 h"
    );
}

#[test]
fn chars_of_keeps_every_char() {
    assert_eq!(chars_of("aé\t"), vec!['a', 'é', '\t']);
}

#[test]
fn crlf_lines_still_parse_as_entries() {
    assert_eq!(current_entries("1.1.1.1 a\r\n"), pairs(&[("1.1.1.1", "a")]));
}

#[test]
fn separators_are_unicode_whitespace() {
    for c in (0u32..=0x10FFFF).filter_map(char::from_u32) {
        assert_eq!(is_ws_char(c), c.is_whitespace(), "{:?}", c);
    }
}

#[test]
fn no_break_space_separates_fields() {
    assert_eq!(current_entries("1.1.1.1\u{a0}a\n"), pairs(&[("1.1.1.1", "a")]));
    assert_eq!(current_entries("1\u{a0}2 h\n"), pairs(&[("1", "2")]));
    assert_eq!(current_entries("\u{a0}# x y\n2 b\n"), pairs(&[("2", "b")]));
    assert!(matches!(Line::parse_line("\u{3000}# x"), Line::Comment(_)));
    assert!(matches!(Line::parse_line("\u{2003}\u{85}"), Line::Blank(_)));
}

#[test]
fn unicode_whitespace_in_add_and_remove() {
    assert!(matches!(
        add_hosts_entry("1\u{a0}h\n", "2", "h"),
        Err(HostsError::DuplicateHostname(_))
    ));
    assert_eq!(add_hosts_entry("1\u{a0}2 h\n", "3", "h").unwrap(), "1 2 h\n3 h\n");
    assert_eq!(add_hosts_entry("\u{a0}# x h\n", "1", "x").unwrap(), "\u{a0}# x h\n1 x\n");
    assert_eq!(remove_hosts_entry("1\u{a0}h\n", "1", "h").unwrap(), "");
    assert!(matches!(
        remove_hosts_entry("9 h\n1\u{a0}x h\n", "1\u{a0}x", "h"),
        Err(HostsError::EntryNotFound(_, _))
    ));
}

#[test]
fn protected_names() {
    assert!(is_protected("localhost"));
    assert!(is_protected("broadcasthost"));
    assert!(!is_protected("host"));
    assert!(!is_protected("localhost.local"));
}

#[test]
fn entry_fields_must_be_single_words() {
    assert!(entry_fields_valid("192.168.1.100", "test.local"));
    assert!(entry_fields_valid("::1", "a#b"));
    assert!(!entry_fields_valid("1.1.1.1", "a b"));
    assert!(!entry_fields_valid("", ""));
    assert!(!entry_fields_valid("1.1.1.1", ""));
    assert!(!entry_fields_valid("", "h"));
    assert!(!entry_fields_valid("#1.1.1.1", "h"));
    assert!(!entry_fields_valid("1.1.1.1", "h\n"));
    assert!(!entry_fields_valid("1.1.1.1\u{a0}", "h"));
}

#[test]
fn added_line_reads_back_as_the_entry() {
    let text = add_hosts_entry("1.1.1.1 a\n# c\n", "1.1.1.1", "b").unwrap();
    assert_eq!(text, "1.1.1.1 a\n# c\n1.1.1.1 b\n");
    assert_eq!(current_entries(&text), pairs(&[("1.1.1.1", "a"), ("1.1.1.1", "b")]));
    assert_eq!(Table::parse(&text).serialize(), text);
}
