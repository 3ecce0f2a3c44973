use rnet_drand::cli::{missing_argument, parse_command, Command};
use rnet_drand::text::blank;

fn s(x: &str) -> String {
    x.to_string()
}

#[test]
fn commands_without_arguments() {
    assert_eq!(parse_command("help"), Command::Help);
    assert_eq!(parse_command("  local "), Command::Local);
    assert_eq!(parse_command("topics extra"), Command::Topics);
    assert_eq!(parse_command("fpeers"), Command::Fpeers);
    assert_eq!(parse_command("bootmesh"), Command::Bootmesh);
    assert_eq!(parse_command("peers"), Command::Peers);
    assert_eq!(parse_command("mesh"), Command::Mesh);
}

#[test]
fn commands_with_one_argument() {
    assert_eq!(parse_command("connect /ip4/1/tcp/2"), Command::Connect(s("/ip4/1/tcp/2")));
    assert_eq!(parse_command("fsub m"), Command::Fsub(s("m")));
    assert_eq!(parse_command("join t"), Command::Join(s("t")));
    assert_eq!(parse_command("leave t"), Command::Leave(s("t")));
    assert_eq!(parse_command("adv s1"), Command::Adv(s("s1")));
    assert_eq!(parse_command("con s1"), Command::Con(s("s1")));
    assert_eq!(parse_command("commit s1"), Command::Commit(s("s1")));
    assert_eq!(parse_command("reveal s1 x"), Command::Reveal(s("s1")));
    assert_eq!(parse_command("\treduce\ts1"), Command::Reduce(s("s1")));
}

#[test]
fn missing_argument_is_detected() {
    for line in ["connect", "fsub", "join", "leave", "adv", "con", "commit", "reveal", "reduce", "ping", " publish\t"] {
        assert!(missing_argument(line), "line {:?}", line);
    }
    for line in ["", "help", "local x", "join t", "ping m", "dance", "connect a b"] {
        assert!(!missing_argument(line), "line {:?}", line);
    }
}

#[test]
fn ping_count_defaults_to_zero() {
    assert_eq!(parse_command("ping m 3"), Command::Ping(s("m"), 3));
    assert_eq!(parse_command("ping m"), Command::Ping(s("m"), 0));
    assert_eq!(parse_command("ping m x"), Command::Ping(s("m"), 0));
    assert_eq!(parse_command("ping m +7"), Command::Ping(s("m"), 7));
    assert_eq!(parse_command("ping m 4294967296"), Command::Ping(s("m"), 0));
}

#[test]
fn publish_joins_message_words() {
    assert_eq!(
        parse_command("publish news hello   big\tworld "),
        Command::Publish(s("news"), s("hello big world"))
    );
    assert_eq!(parse_command("publish news"), Command::Publish(s("news"), s("")));
}

#[test]
fn blank_line_is_empty() {
    assert!(blank(""));
    assert!(blank("  \t \n"));
    assert!(!blank(" x "));
}

#[test]
fn unknown_command() {
    assert_eq!(parse_command("dance now"), Command::Unknown);
    assert_eq!(parse_command("HELP"), Command::Unknown);
}
