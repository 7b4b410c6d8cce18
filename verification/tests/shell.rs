//! The command language of the interactive session.

use archipelago::shell::{parse, parse_number, run, sample, split_words, status_text, Command, Output};
use archipelago::{Cluster, Options};

fn lines(o: Output) -> Vec<String> {
    match o {
        Output::Lines(l) => l,
        other => panic!("expected lines, got {other:?}"),
    }
}

fn typed(c: &mut Cluster, line: &str) -> Output {
    run(c, &parse(line))
}

#[test]
fn words_are_split_at_blanks() {
    assert_eq!(split_words("  put\t/a  b\n"), vec!["put", "/a", "b"]);
    assert_eq!(split_words(" \u{2003}x\u{a0}y\u{3000}"), vec!["x", "y"]);
    assert!(split_words(" \r\n").is_empty());
    assert!(split_words("").is_empty());
}

#[test]
fn numbers_are_read_like_integers() {
    assert_eq!(parse_number("0", u64::MAX), Some(0));
    assert_eq!(parse_number("007", u64::MAX), Some(7));
    assert_eq!(parse_number("+12", u64::MAX), Some(12));
    assert_eq!(parse_number("18446744073709551615", u64::MAX), Some(u64::MAX));
    assert_eq!(parse_number("18446744073709551616", u64::MAX), None);
    assert_eq!(parse_number("4294967295", u64::from(u32::MAX)), Some(4_294_967_295));
    assert_eq!(parse_number("4294967296", u64::from(u32::MAX)), None);
    assert_eq!(parse_number("", u64::MAX), None);
    assert_eq!(parse_number("+", u64::MAX), None);
    assert_eq!(parse_number("-1", u64::MAX), None);
    assert_eq!(parse_number("1x", u64::MAX), None);
}

#[test]
fn commands_are_parsed() {
    assert_eq!(parse(""), Command::Blank);
    assert_eq!(parse("quit"), Command::Quit);
    assert_eq!(parse("exit now"), Command::Quit);
    assert_eq!(parse("help"), Command::Help);
    assert_eq!(parse("status"), Command::Status);
    assert_eq!(parse("stabilize"), Command::Stabilize);
    assert_eq!(parse("reconnect"), Command::Reconnect);
    assert_eq!(parse("seed 9"), Command::Seed(9));
    assert_eq!(parse("mkdir /d"), Command::Mkdir("/d".into()));
    assert_eq!(parse("get /f"), Command::Get("/f".into()));
    assert_eq!(
        parse("put /f hello   world  again"),
        Command::Put("/f".into(), "hello world again".into())
    );
    assert_eq!(parse("ls /"), Command::Ls("/".into()));
    assert_eq!(parse("rm /f"), Command::Rm("/f".into()));
    assert_eq!(parse("mv /a /b"), Command::Mv("/a".into(), "/b".into()));
    assert_eq!(parse("stat /a"), Command::Stat("/a".into()));
    assert_eq!(parse("fail 3"), Command::Fail(3));
    assert_eq!(parse("heal 3"), Command::Heal(3));
    assert_eq!(parse("partition 1 x 4"), Command::Partition(vec![1, 4]));
}

#[test]
fn incomplete_commands_say_so() {
    let says = [
        ("seed", "usage: seed <n>"),
        ("seed x", "usage: seed <n>"),
        ("mkdir", "missing argument"),
        ("rm", "missing argument"),
        ("get", "usage: get <path>"),
        ("put /f", "usage: put <path> <string...>"),
        ("ls", "usage: ls <dir>"),
        ("mv /a", "usage: mv <from> <to>"),
        ("stat", "usage: stat <path>"),
        ("fail", "usage: fail <node>"),
        ("heal -1", "usage: heal <node>"),
        ("partition a b", "usage: partition <node...>"),
        ("frobnicate /a", "unknown command: frobnicate"),
    ];
    for (typed, said) in says {
        assert_eq!(parse(typed), Command::Say(said.into()));
    }
}

#[test]
fn session_runs_commands() {
    let mut c = Cluster::new(Options::small(), 1);
    assert_eq!(lines(typed(&mut c, "mkdir /docs")), vec!["ok"]);
    assert_eq!(lines(typed(&mut c, "mkdir /docs")), vec!["error: already exists: /docs"]);
    assert_eq!(
        lines(typed(&mut c, "put /docs/hello hello archipelago")),
        vec!["wrote 17 bytes"]
    );
    assert_eq!(
        typed(&mut c, "get /docs/hello"),
        Output::Bytes(b"hello archipelago".to_vec())
    );
    assert_eq!(lines(typed(&mut c, "get /nope")), vec!["error: not found: /nope"]);
    assert_eq!(
        lines(typed(&mut c, "ls /docs")),
        vec!["  file hello (17 bytes)"]
    );
    assert_eq!(lines(typed(&mut c, "ls /")), vec!["  dir  docs (0 bytes)"]);
    assert_eq!(lines(typed(&mut c, "mv /docs/hello /hi")), vec!["ok"]);
    assert!(lines(typed(&mut c, "ls /docs")).is_empty());
    let stat = lines(typed(&mut c, "stat /hi"));
    assert_eq!(stat.len(), 1);
    assert!(stat[0].starts_with("file size=17 hash="));
    assert_eq!(lines(typed(&mut c, "stat /docs")), vec!["dir size=0 hash=00000000"]);
    assert_eq!(lines(typed(&mut c, "fail 0")), vec!["crashed node 0"]);
    assert_eq!(lines(typed(&mut c, "partition 1 4")), vec!["partitioned [1, 4] from the cluster"]);
    assert_eq!(lines(typed(&mut c, "reconnect")), vec!["healed"]);
    assert_eq!(lines(typed(&mut c, "stabilize")), vec!["converged: true"]);
    assert_eq!(lines(typed(&mut c, "heal 0")), vec!["recovered node 0"]);
    assert_eq!(lines(typed(&mut c, "rm /hi")), vec!["ok"]);
    assert_eq!(lines(typed(&mut c, "seed 5")), vec!["restarted with seed 5"]);
    assert!(lines(typed(&mut c, "ls /")).is_empty());
    assert!(lines(typed(&mut c, "   ")).is_empty());
    assert_eq!(typed(&mut c, "help"), Output::Help);
    assert_eq!(typed(&mut c, "quit"), Output::Quit);
}

#[test]
fn status_is_shown() {
    let mut c = Cluster::new(Options::small(), 1);
    let fresh = status_text(&c.status());
    assert_eq!(
        fresh,
        vec![
            "clock 0",
            "nodes: [n0 up 0c] [n1 up 0c] [n2 up 0c] [n3 up 0c] [n4 up 0c] ",
            "files: none"
        ]
    );
    c.write_file("/f", &[7; 10]).unwrap();
    assert!(c.stabilize());
    c.crash_node(2);
    let shown = lines(typed(&mut c, "status"));
    assert_eq!(shown.len(), 3);
    assert!(shown[1].contains("[n2 DOWN "));
    assert!(shown[2].starts_with("  /f size=10 chunks=1 min_live_replicas="));
}

#[test]
fn put_counts_bytes_and_not_characters() {
    let mut c = Cluster::new(Options::small(), 3);
    assert_eq!(lines(typed(&mut c, "put /u \u{e9}\u{4e16}")), vec!["wrote 5 bytes"]);
    assert_eq!(
        typed(&mut c, "get /u"),
        Output::Bytes("\u{e9}\u{4e16}".as_bytes().to_vec())
    );
}

#[test]
fn sample_contents() {
    assert_eq!(sample(7, 4), vec![7, 44, 81, 118]);
    assert_eq!(sample(0, 8)[7], (7 * 37 % 256) as u8);
    assert!(sample(9, 0).is_empty());
}
