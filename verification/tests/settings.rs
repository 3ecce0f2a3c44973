use rnet_drand::common::set_bootstrap_entry;
use rnet_drand::node::{common_topic, select_mode, NodeMode};
use rnet_drand::text::{parse_u32, split_lines, split_words};

#[test]
fn bootstrap_entry_replaces_existing_line() {
    let content = "A=1\nBOOTSTRAP_NODE=old\nB=2\n";
    assert_eq!(
        set_bootstrap_entry(content, "/ip4/1.2.3.4/tcp/9"),
        "A=1\nBOOTSTRAP_NODE=/ip4/1.2.3.4/tcp/9\nB=2"
    );
}

#[test]
fn bootstrap_entry_appended_when_absent() {
    assert_eq!(set_bootstrap_entry("A=1\nB=2", "x"), "A=1\nB=2\nBOOTSTRAP_NODE=x");
}

#[test]
fn bootstrap_entry_in_empty_file() {
    assert_eq!(set_bootstrap_entry("", "x"), "BOOTSTRAP_NODE=x");
}

#[test]
fn bootstrap_entry_replaces_every_matching_line() {
    assert_eq!(
        set_bootstrap_entry("BOOTSTRAP_NODE=a\r\nBOOTSTRAP_NODE=b", "c"),
        "BOOTSTRAP_NODE=c\nBOOTSTRAP_NODE=c"
    );
}

#[test]
fn bootstrap_entry_matches_prefix_only() {
    assert_eq!(
        set_bootstrap_entry(" BOOTSTRAP_NODE=a\nBOOTSTRAP_NOD=b", "c"),
        " BOOTSTRAP_NODE=a\nBOOTSTRAP_NOD=b\nBOOTSTRAP_NODE=c"
    );
}

#[test]
fn lines_follow_str_lines() {
    for text in ["", "\n", "a", "a\n", "a\r\nb", "a\rb\n", "a\r", "\n\nx\r\n\r\n", "x\r\r\n"] {
        let expected: Vec<String> = text.lines().map(|l| l.to_string()).collect();
        assert_eq!(split_lines(text), expected, "text {:?}", text);
    }
}

#[test]
fn words_follow_split_whitespace() {
    for text in ["", "   ", "a", " a  b\tc\n", "x\u{3000}y\u{a0}z", "publish t hello  world "] {
        let expected: Vec<String> = text.split_whitespace().map(|w| w.to_string()).collect();
        assert_eq!(split_words(text), expected, "text {:?}", text);
    }
}

#[test]
fn numbers_follow_str_parse() {
    for text in ["0", "+5", "42", "4294967295", "4294967296", "-1", "+", "", "1a", "007", "99999999999999999999"] {
        assert_eq!(parse_u32(text), text.parse::<u32>().ok(), "text {:?}", text);
    }
}

#[test]
fn blank_answer_selects_bootstrap() {
    assert_eq!(select_mode("\n"), NodeMode::Bootstrap);
    assert_eq!(select_mode(""), NodeMode::Bootstrap);
    assert_eq!(select_mode("  \t\n"), NodeMode::Bootstrap);
}

#[test]
fn other_answers_select_general() {
    assert_eq!(select_mode("y\n"), NodeMode::General);
    assert_eq!(select_mode("n\n"), NodeMode::General);
    assert_eq!(select_mode(" no "), NodeMode::General);
}

#[test]
fn modes_fix_names_and_addresses() {
    assert_eq!(NodeMode::Bootstrap.name(), "bootstrap");
    assert_eq!(NodeMode::General.name(), "general");
    assert_eq!(NodeMode::Bootstrap.listen_addr(), "ip4/127.0.0.1/tcp/8888");
    assert_eq!(NodeMode::General.listen_addr(), "ip4/127.0.0.1/tcp/0");
    assert!(!NodeMode::Bootstrap.follows_sessions());
    assert!(NodeMode::General.follows_sessions());
    assert_eq!(common_topic(), "mpc-common");
}

#[test]
fn mode_names_read_back() {
    assert_eq!(NodeMode::from_name("bootstrap"), NodeMode::Bootstrap);
    assert_eq!(NodeMode::from_name("general"), NodeMode::General);
    assert_eq!(NodeMode::from_name("Bootstrap"), NodeMode::General);
    assert_eq!(NodeMode::from_name(&NodeMode::Bootstrap.name()), NodeMode::Bootstrap);
}

#[test]
fn setting_bootstrap_twice_keeps_the_last() {
    for content in ["", "A=1", "A=1\nBOOTSTRAP_NODE=z\nB=2", "\n\nA=1\n", "A=1\n\n"] {
        let twice = set_bootstrap_entry(&set_bootstrap_entry(content, "a"), "b");
        assert_eq!(twice, set_bootstrap_entry(content, "b"), "content {:?}", content);
        let again = set_bootstrap_entry(&set_bootstrap_entry(content, "b"), "b");
        assert_eq!(again, set_bootstrap_entry(content, "b"), "content {:?}", content);
    }
}

#[test]
fn setting_bootstrap_twice_with_odd_addresses() {
    for content in ["", "A=1\nBOOTSTRAP_NODE=z\nB=2", "A=1\n"] {
        let twice = set_bootstrap_entry(&set_bootstrap_entry(content, "a\r"), "b\nc");
        assert_eq!(twice, set_bootstrap_entry(content, "b\nc"), "content {:?}", content);
    }
}
