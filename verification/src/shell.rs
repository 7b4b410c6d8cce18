//! The command language of the interactive session: what a typed line asks for, what it does to
//! the cluster, and what is shown for it.

use crate::cluster::{self, Cluster, FileHealth, NodeStatus, Status};
use crate::error::{Error, ErrorV};
use crate::message::{entries_view, DirEntry, DirEntryV, NodeId, StatInfo, StatInfoV};
use crate::options::Options;
use crate::simulation::ClusterV;
use crate::text;
use vstd::prelude::*;
use vstd::string::*;

verus! {

/// Whether a character is white space.
pub open spec fn blank(c: char) -> bool {
    let n = c as u32;
    ||| 9 <= n <= 13
    ||| n == 32
    ||| n == 0x85
    ||| n == 0xa0
    ||| n == 0x1680
    ||| 0x2000 <= n <= 0x200a
    ||| n == 0x2028
    ||| n == 0x2029
    ||| n == 0x202f
    ||| n == 0x205f
    ||| n == 0x3000
}

/// The words of a line: its longest runs of characters that are not blank.
pub open spec fn words(line: Seq<char>) -> Seq<Seq<char>>
    decreases line.len(),
{
    if line.len() == 0 {
        seq![]
    } else {
        let before = words(line.drop_last());
        if blank(line.last()) {
            before
        } else if line.len() == 1 || blank(line[line.len() - 2]) {
            before.push(seq![line.last()])
        } else {
            before.drop_last().push(before.last().push(line.last()))
        }
    }
}

/// The values of some strings.
pub open spec fn views(ss: Seq<String>) -> Seq<Seq<char>> {
    Seq::new(ss.len(), |i: int| ss[i]@)
}

fn is_blank(c: char) -> (r: bool)
    ensures
        r == blank(c),
{
    let n = c as u32;
    (9 <= n && n <= 13) || n == 32 || n == 0x85 || n == 0xa0 || n == 0x1680 || (0x2000 <= n && n
        <= 0x200a) || n == 0x2028 || n == 0x2029 || n == 0x202f || n == 0x205f || n == 0x3000
}

/// Split a line into words.
pub fn split_words(line: &str) -> (r: Vec<String>)
    ensures
        views(r@) == words(line@),
{
    let chars = text::chars_of(line);
    let mut out: Vec<String> = Vec::new();
    let mut i: usize = 0;
    let mut start: usize = 0;
    let mut within = false;
    assert(views(out@) =~= words(line@.take(0)));
    while i < chars.len()
        invariant
            chars@ == line@,
            start <= i <= chars@.len(),
            within ==> start < i && !blank(line@[i - 1]) && words(line@.take(i as int)) == views(
                out@,
            ).push(line@.subrange(start as int, i as int)),
            !within ==> (i == 0 || blank(line@[i - 1])) && words(line@.take(i as int)) == views(
                out@,
            ),
        decreases chars@.len() - i,
    {
        let ghost seen = line@.take(i + 1);
        let ghost before = words(line@.take(i as int));
        assert(seen.drop_last() =~= line@.take(i as int));
        assert(seen.last() == line@[i as int]);
        if is_blank(chars[i]) {
            if within {
                let w = line.substring_char(start, i).to_owned();
                let ghost had = out@;
                out.push(w);
                assert(views(out@) =~= views(had).push(line@.subrange(start as int, i as int)));
                within = false;
            }
        } else if within {
            let ghost grown = line@.subrange(start as int, i as int).push(line@[i as int]);
            assert(grown =~= line@.subrange(start as int, i + 1));
            assert(before.drop_last() =~= views(out@));
            assert(words(seen) == views(out@).push(grown));
        } else {
            start = i;
            within = true;
            assert(line@.subrange(start as int, i + 1) =~= seq![line@[i as int]]);
        }
        i += 1;
    }
    assert(line@.take(line@.len() as int) =~= line@);
    if within {
        let w = line.substring_char(start, i).to_owned();
        let ghost had = out@;
        out.push(w);
        assert(views(out@) =~= views(had).push(line@.subrange(start as int, i as int)));
    }
    out
}

/// The value of a decimal digit.
pub open spec fn digit_value(c: char) -> Option<nat> {
    if '0' <= c <= '9' {
        Some((c as u32 - '0' as u32) as nat)
    } else {
        None
    }
}

/// The number that some digits stand for, if they are all digits.
pub open spec fn digits_value(s: Seq<char>) -> Option<nat>
    decreases s.len(),
{
    if s.len() == 0 {
        Some(0)
    } else {
        match (digits_value(s.drop_last()), digit_value(s.last())) {
            (Some(a), Some(d)) => Some(a * 10 + d),
            _ => None,
        }
    }
}

/// The number that a word stands for: decimal digits, at least one, after an optional plus sign.
pub open spec fn number(word: Seq<char>) -> Option<nat> {
    let digits = if word.len() > 0 && word[0] == '+' {
        word.skip(1)
    } else {
        word
    };
    if digits.len() == 0 {
        None
    } else {
        digits_value(digits)
    }
}

/// A number that is at most `max`.
pub open spec fn number_to(word: Seq<char>, max: nat) -> Option<nat> {
    match number(word) {
        Some(n) => if n <= max {
            Some(n)
        } else {
            None
        },
        None => None,
    }
}

proof fn lemma_no_value(s: Seq<char>, i: int, n: int)
    requires
        0 <= i <= n <= s.len(),
        digits_value(s.take(i)) is None,
    ensures
        digits_value(s.take(n)) is None,
    decreases n - i,
{
    if i < n {
        lemma_no_value(s, i, n - 1);
        assert(s.take(n).drop_last() =~= s.take(n - 1));
    }
}

proof fn lemma_value_grows(s: Seq<char>, i: int, n: int, least: nat)
    requires
        0 <= i <= n <= s.len(),
        digits_value(s.take(i)) matches Some(a) && a >= least,
    ensures
        digits_value(s.take(n)) matches Some(b) ==> b >= least,
    decreases n - i,
{
    if i < n {
        lemma_value_grows(s, i, n - 1, least);
        assert(s.take(n).drop_last() =~= s.take(n - 1));
    }
}

/// Read a number that is at most `max`.
pub fn parse_number(word: &str, max: u64) -> (r: Option<u64>)
    ensures
        match r {
            Some(n) => number_to(word@, max as nat) == Some(n as nat),
            None => number_to(word@, max as nat) is None,
        },
{
    let chars = text::chars_of(word);
    let from: usize = if chars.len() > 0 && chars[0] == '+' {
        1
    } else {
        0
    };
    let ghost digits = word@.skip(from as int);
    assert(word@.skip(0) =~= word@);
    if chars.len() == from {
        return None;
    }
    let mut n: u64 = 0;
    let mut i: usize = from;
    assert(digits.take(0) =~= seq![]);
    assert(digits.take(digits.len() as int) =~= digits);
    while i < chars.len()
        invariant
            chars@ == word@,
            from <= i <= chars@.len(),
            from < chars@.len(),
            digits == word@.skip(from as int),
            digits.take(digits.len() as int) == digits,
            number(word@) == digits_value(digits),
            n <= max,
            digits_value(digits.take(i - from)) == Some(n as nat),
        decreases chars@.len() - i,
    {
        let c = chars[i];
        let ghost seen = digits.take(i - from + 1);
        assert(seen.drop_last() =~= digits.take(i - from));
        assert(seen.last() == c);
        if !('0' <= c && c <= '9') {
            proof {
                lemma_no_value(digits, i - from + 1, digits.len() as int);
            }
            return None;
        }
        let d = (c as u32 - '0' as u32) as u64;
        if n > max / 10 || max - n * 10 < d {
            proof {
                lemma_value_grows(digits, i - from + 1, digits.len() as int, max as nat + 1);
            }
            return None;
        }
        n = n * 10 + d;
        i += 1;
    }
    Some(n)
}

/// What a typed line asks for.
#[derive(Clone, PartialEq, Eq, Debug)]
pub enum Command {
    /// Nothing: the line is blank.
    Blank,
    /// Leave the session.
    Quit,
    /// Show the commands.
    Help,
    /// Show node and file health.
    Status,
    /// Run re-replication to convergence.
    Stabilize,
    /// Heal all partitions.
    Reconnect,
    /// Restart the cluster with a new seed.
    Seed(u64),
    /// Make a directory.
    Mkdir(String),
    /// Read a file.
    Get(String),
    /// Write a file from the given text.
    Put(String, String),
    /// List a directory.
    Ls(String),
    /// Delete a file or empty directory.
    Rm(String),
    /// Rename.
    Mv(String, String),
    /// Show file or directory info.
    Stat(String),
    /// Crash a storage node.
    Fail(u32),
    /// Recover a storage node.
    Heal(u32),
    /// Isolate storage nodes from the cluster.
    Partition(Vec<u32>),
    /// Nothing that can be done: show this line instead.
    Say(String),
}

/// The mathematical value of a [`Command`].
pub enum CommandV {
    Blank,
    Quit,
    Help,
    Status,
    Stabilize,
    Reconnect,
    Seed(u64),
    Mkdir(Seq<char>),
    Get(Seq<char>),
    Put(Seq<char>, Seq<char>),
    Ls(Seq<char>),
    Rm(Seq<char>),
    Mv(Seq<char>, Seq<char>),
    Stat(Seq<char>),
    Fail(u32),
    Heal(u32),
    Partition(Seq<u32>),
    Say(Seq<char>),
}

impl View for Command {
    type V = CommandV;

    open spec fn view(&self) -> CommandV {
        match *self {
            Command::Blank => CommandV::Blank,
            Command::Quit => CommandV::Quit,
            Command::Help => CommandV::Help,
            Command::Status => CommandV::Status,
            Command::Stabilize => CommandV::Stabilize,
            Command::Reconnect => CommandV::Reconnect,
            Command::Seed(n) => CommandV::Seed(n),
            Command::Mkdir(p) => CommandV::Mkdir(p@),
            Command::Get(p) => CommandV::Get(p@),
            Command::Put(p, t) => CommandV::Put(p@, t@),
            Command::Ls(p) => CommandV::Ls(p@),
            Command::Rm(p) => CommandV::Rm(p@),
            Command::Mv(p, q) => CommandV::Mv(p@, q@),
            Command::Stat(p) => CommandV::Stat(p@),
            Command::Fail(n) => CommandV::Fail(n),
            Command::Heal(n) => CommandV::Heal(n),
            Command::Partition(ns) => CommandV::Partition(ns@),
            Command::Say(l) => CommandV::Say(l@),
        }
    }
}

/// The words from position `n` on with single spaces between them.
pub open spec fn joined(ws: Seq<Seq<char>>, n: nat) -> Seq<char>
    decreases ws.len() - n,
{
    if n >= ws.len() {
        seq![]
    } else if n + 1 == ws.len() {
        ws[n as int]
    } else {
        ws[n as int] + " "@ + joined(ws, n + 1)
    }
}

/// The node numbers among the first `n` words, the command itself left out.
pub open spec fn node_numbers(ws: Seq<Seq<char>>, n: nat) -> Seq<u32>
    decreases n,
{
    if n <= 1 {
        seq![]
    } else {
        let before = node_numbers(ws, (n - 1) as nat);
        match number_to(ws[n - 1], u32::MAX as nat) {
            Some(k) => before.push(k as u32),
            None => before,
        }
    }
}

/// A command that takes a path, or what to show when it is missing.
pub open spec fn with_path(
    ws: Seq<Seq<char>>,
    f: spec_fn(Seq<char>) -> CommandV,
    usage: Seq<char>,
) -> CommandV {
    if ws.len() > 1 {
        f(ws[1])
    } else {
        CommandV::Say(usage)
    }
}

/// A command that takes a node number, or what to show when there is none.
pub open spec fn with_node(
    ws: Seq<Seq<char>>,
    f: spec_fn(u32) -> CommandV,
    usage: Seq<char>,
) -> CommandV {
    match (if ws.len() > 1 {
        number_to(ws[1], u32::MAX as nat)
    } else {
        None
    }) {
        Some(n) => f(n as u32),
        None => CommandV::Say(usage),
    }
}

/// What the words of a line ask for.
pub open spec fn asked(ws: Seq<Seq<char>>) -> CommandV {
    if ws.len() == 0 {
        CommandV::Blank
    } else if ws[0] == "quit"@ || ws[0] == "exit"@ {
        CommandV::Quit
    } else if ws[0] == "help"@ {
        CommandV::Help
    } else if ws[0] == "status"@ {
        CommandV::Status
    } else if ws[0] == "stabilize"@ {
        CommandV::Stabilize
    } else if ws[0] == "reconnect"@ {
        CommandV::Reconnect
    } else if ws[0] == "seed"@ {
        match (if ws.len() > 1 {
            number_to(ws[1], u64::MAX as nat)
        } else {
            None
        }) {
            Some(n) => CommandV::Seed(n as u64),
            None => CommandV::Say("usage: seed <n>"@),
        }
    } else if ws[0] == "mkdir"@ {
        with_path(ws, |p: Seq<char>| CommandV::Mkdir(p), "missing argument"@)
    } else if ws[0] == "get"@ {
        with_path(ws, |p: Seq<char>| CommandV::Get(p), "usage: get <path>"@)
    } else if ws[0] == "put"@ {
        if ws.len() < 3 {
            CommandV::Say("usage: put <path> <string...>"@)
        } else {
            CommandV::Put(ws[1], joined(ws, 2))
        }
    } else if ws[0] == "ls"@ {
        with_path(ws, |p: Seq<char>| CommandV::Ls(p), "usage: ls <dir>"@)
    } else if ws[0] == "rm"@ {
        with_path(ws, |p: Seq<char>| CommandV::Rm(p), "missing argument"@)
    } else if ws[0] == "mv"@ {
        if ws.len() < 3 {
            CommandV::Say("usage: mv <from> <to>"@)
        } else {
            CommandV::Mv(ws[1], ws[2])
        }
    } else if ws[0] == "stat"@ {
        with_path(ws, |p: Seq<char>| CommandV::Stat(p), "usage: stat <path>"@)
    } else if ws[0] == "fail"@ {
        with_node(ws, |n: u32| CommandV::Fail(n), "usage: fail <node>"@)
    } else if ws[0] == "heal"@ {
        with_node(ws, |n: u32| CommandV::Heal(n), "usage: heal <node>"@)
    } else if ws[0] == "partition"@ {
        let nodes = node_numbers(ws, ws.len());
        if nodes.len() == 0 {
            CommandV::Say("usage: partition <node...>"@)
        } else {
            CommandV::Partition(nodes)
        }
    } else {
        CommandV::Say("unknown command: "@ + ws[0])
    }
}

fn is_word(w: &String, text: &str) -> (r: bool)
    ensures
        r == (w@ == text@),
{
    *w == text.to_owned()
}

fn say(text: &str) -> (r: Command)
    ensures
        r@ == CommandV::Say(text@),
{
    Command::Say(text.to_owned())
}

fn join_words(ws: &Vec<String>, from: usize) -> (r: String)
    ensures
        r@ == joined(views(ws@), from as nat),
    decreases ws@.len() - from,
{
    if from >= ws.len() {
        let r = String::new();
        assert(r@ =~= joined(views(ws@), from as nat));
        r
    } else if from + 1 == ws.len() {
        ws[from].clone()
    } else {
        let mut r = ws[from].clone();
        r.append(" ");
        let rest = join_words(ws, from + 1);
        r.append(rest.as_str());
        r
    }
}

fn collect_nodes(ws: &Vec<String>) -> (r: Vec<u32>)
    requires
        ws@.len() > 0,
    ensures
        r@ == node_numbers(views(ws@), ws@.len()),
{
    let mut out: Vec<u32> = Vec::new();
    let mut i: usize = 1;
    assert(out@ =~= node_numbers(views(ws@), 1));
    while i < ws.len()
        invariant
            1 <= i <= ws@.len(),
            out@ == node_numbers(views(ws@), i as nat),
        decreases ws@.len() - i,
    {
        assert(views(ws@)[i as int] == ws@[i as int]@);
        if let Some(n) = parse_number(ws[i].as_str(), u32::MAX as u64) {
            out.push(n as u32);
        }
        i += 1;
    }
    out
}

fn path_word(ws: &Vec<String>) -> (r: Option<String>)
    ensures
        match r {
            Some(p) => ws@.len() > 1 && p@ == views(ws@)[1],
            None => ws@.len() <= 1,
        },
{
    if ws.len() > 1 {
        Some(ws[1].clone())
    } else {
        None
    }
}

fn number_word(ws: &Vec<String>, max: u64) -> (r: Option<u64>)
    ensures
        match r {
            Some(n) => ws@.len() > 1 && number_to(views(ws@)[1], max as nat) == Some(n as nat),
            None => ws@.len() > 1 ==> number_to(views(ws@)[1], max as nat) is None,
        },
{
    if ws.len() > 1 {
        parse_number(ws[1].as_str(), max)
    } else {
        None
    }
}

/// What a typed line asks for.
pub fn parse(line: &str) -> (r: Command)
    ensures
        r@ == asked(words(line@)),
{
    let ws = split_words(line);
    if ws.len() == 0 {
        return Command::Blank;
    }
    assert(views(ws@)[0] == ws@[0]@);
    let w = &ws[0];
    if is_word(w, "quit") || is_word(w, "exit") {
        Command::Quit
    } else if is_word(w, "help") {
        Command::Help
    } else if is_word(w, "status") {
        Command::Status
    } else if is_word(w, "stabilize") {
        Command::Stabilize
    } else if is_word(w, "reconnect") {
        Command::Reconnect
    } else if is_word(w, "seed") {
        match number_word(&ws, u64::MAX) {
            Some(n) => Command::Seed(n),
            None => say("usage: seed <n>"),
        }
    } else if is_word(w, "mkdir") {
        match path_word(&ws) {
            Some(p) => Command::Mkdir(p),
            None => say("missing argument"),
        }
    } else if is_word(w, "get") {
        match path_word(&ws) {
            Some(p) => Command::Get(p),
            None => say("usage: get <path>"),
        }
    } else if is_word(w, "put") {
        if ws.len() < 3 {
            say("usage: put <path> <string...>")
        } else {
            Command::Put(ws[1].clone(), join_words(&ws, 2))
        }
    } else if is_word(w, "ls") {
        match path_word(&ws) {
            Some(p) => Command::Ls(p),
            None => say("usage: ls <dir>"),
        }
    } else if is_word(w, "rm") {
        match path_word(&ws) {
            Some(p) => Command::Rm(p),
            None => say("missing argument"),
        }
    } else if is_word(w, "mv") {
        if ws.len() < 3 {
            say("usage: mv <from> <to>")
        } else {
            Command::Mv(ws[1].clone(), ws[2].clone())
        }
    } else if is_word(w, "stat") {
        match path_word(&ws) {
            Some(p) => Command::Stat(p),
            None => say("usage: stat <path>"),
        }
    } else if is_word(w, "fail") {
        match number_word(&ws, u32::MAX as u64) {
            Some(n) => Command::Fail(n as u32),
            None => say("usage: fail <node>"),
        }
    } else if is_word(w, "heal") {
        match number_word(&ws, u32::MAX as u64) {
            Some(n) => Command::Heal(n as u32),
            None => say("usage: heal <node>"),
        }
    } else if is_word(w, "partition") {
        let nodes = collect_nodes(&ws);
        if nodes.len() == 0 {
            say("usage: partition <node...>")
        } else {
            Command::Partition(nodes)
        }
    } else {
        let mut l = "unknown command: ".to_owned();
        l.append(w.as_str());
        Command::Say(l)
    }
}

/// What is shown for a command.
#[derive(Clone, PartialEq, Eq, Debug)]
pub enum Output {
    /// Some lines.
    Lines(Vec<String>),
    /// The bytes of a file.
    Bytes(Vec<u8>),
    /// The list of commands.
    Help,
    /// Nothing more: the session ends.
    Quit,
}

/// The mathematical value of an [`Output`].
pub enum OutputV {
    Lines(Seq<Seq<char>>),
    Bytes(Seq<u8>),
    Help,
    Quit,
}

impl View for Output {
    type V = OutputV;

    open spec fn view(&self) -> OutputV {
        match *self {
            Output::Lines(ls) => OutputV::Lines(views(ls@)),
            Output::Bytes(b) => OutputV::Bytes(b@),
            Output::Help => OutputV::Help,
            Output::Quit => OutputV::Quit,
        }
    }
}

/// The line for an error.
pub open spec fn error_line(e: ErrorV) -> Seq<char> {
    "error: "@ + e.text()
}

/// The line for the outcome of an operation.
pub open spec fn outcome_line(r: Result<(), ErrorV>) -> Seq<char> {
    match r {
        Ok(_) => "ok"@,
        Err(e) => error_line(e),
    }
}

/// The line for a directory entry.
pub open spec fn entry_line(e: DirEntryV) -> Seq<char> {
    "  "@ + (if e.is_dir {
        "dir "@
    } else {
        "file"@
    }) + " "@ + e.name + " ("@ + text::decimal(e.size as nat) + " bytes)"@
}

/// The line for what is known of a path.
pub open spec fn stat_line(s: StatInfoV) -> Seq<char> {
    (if s.is_dir {
        "dir"@
    } else {
        "file"@
    }) + " size="@ + text::decimal(s.size as nat) + " hash="@ + text::hex(s.content_hash.take(4))
}

/// The first `n` of some numbers with commas between them.
pub open spec fn listed_numbers(ns: Seq<u32>, n: nat) -> Seq<char>
    decreases n,
{
    if n == 0 {
        seq![]
    } else if n == 1 {
        text::decimal(ns[0] as nat)
    } else {
        listed_numbers(ns, (n - 1) as nat) + ", "@ + text::decimal(ns[n - 1] as nat)
    }
}

/// The mark of a storage node in a status.
pub open spec fn node_mark(n: NodeStatus) -> Seq<char> {
    "[n"@ + text::decimal(n.idx as nat) + " "@ + (if n.live {
        "up"@
    } else {
        "DOWN"@
    }) + " "@ + text::decimal(n.chunks as nat) + "c] "@
}

/// The marks of the first `n` storage nodes.
pub open spec fn node_marks(ns: Seq<NodeStatus>, n: nat) -> Seq<char>
    decreases n,
{
    if n == 0 {
        "nodes: "@
    } else {
        node_marks(ns, (n - 1) as nat) + node_mark(ns[n - 1])
    }
}

/// The line of a file in a status.
pub open spec fn file_line(f: FileHealth) -> Seq<char> {
    "  "@ + f.path@ + " size="@ + text::decimal(f.size as nat) + " chunks="@ + text::decimal(
        f.chunk_count as nat,
    ) + " min_live_replicas="@ + text::decimal(f.min_live_replicas as nat)
}

/// The lines of a status.
pub open spec fn status_lines(s: Status) -> Seq<Seq<char>> {
    seq!["clock "@ + text::decimal(s.clock as nat), node_marks(s.nodes@, s.nodes@.len())]
        + if s.files@.len() == 0 {
        seq!["files: none"@]
    } else {
        Seq::new(s.files@.len(), |i: int| file_line(s.files@[i]))
    }
}

/// One line.
pub open spec fn line(l: Seq<char>) -> OutputV {
    OutputV::Lines(seq![l])
}

/// The cluster after a command other than `status`, and what is shown.
#[verifier::opaque]
pub open spec fn ran(v: ClusterV, cmd: CommandV) -> (ClusterV, OutputV) {
    match cmd {
        CommandV::Blank => (v, OutputV::Lines(seq![])),
        CommandV::Quit => (v, OutputV::Quit),
        CommandV::Help => (v, OutputV::Help),
        CommandV::Status => (v, OutputV::Lines(seq![])),
        CommandV::Stabilize => (
            v.stabilized().0,
            line(
                if v.stabilized().1 {
                    "converged: true"@
                } else {
                    "converged: false"@
                },
            ),
        ),
        CommandV::Reconnect => (v.with_net(v.net.healed()), line("healed"@)),
        CommandV::Seed(n) => (
            cluster::unsettled(Options { chunk_size: 1024, ..Options::standard() }, n).settled(),
            line("restarted with seed "@ + text::decimal(n as nat)),
        ),
        CommandV::Mkdir(p) => (v.made_dir(p).0, line(outcome_line(v.made_dir(p).1))),
        CommandV::Get(p) => (
            v.read(p).0,
            match v.read(p).1 {
                Ok(b) => OutputV::Bytes(b),
                Err(e) => line(error_line(e)),
            },
        ),
        CommandV::Put(p, t) => {
            let bytes = vstd::utf8::encode_utf8(t);
            (
                v.written(p, bytes).0,
                line(
                    match v.written(p, bytes).1 {
                        Ok(_) => "wrote "@ + text::decimal(bytes.len()) + " bytes"@,
                        Err(e) => error_line(e),
                    },
                ),
            )
        },
        CommandV::Ls(p) => (
            v.listed(p).0,
            match v.listed(p).1 {
                Ok(es) => OutputV::Lines(Seq::new(es.len(), |i: int| entry_line(es[i]))),
                Err(e) => line(error_line(e)),
            },
        ),
        CommandV::Rm(p) => (v.deleted(p).0, line(outcome_line(v.deleted(p).1))),
        CommandV::Mv(p, q) => (v.renamed(p, q).0, line(outcome_line(v.renamed(p, q).1))),
        CommandV::Stat(p) => (
            v.statted(p).0,
            line(
                match v.statted(p).1 {
                    Ok(s) => stat_line(s),
                    Err(e) => error_line(e),
                },
            ),
        ),
        CommandV::Fail(n) => (
            v.with_net(v.net.crashed(NodeId::Storage(n))),
            line("crashed node "@ + text::decimal(n as nat)),
        ),
        CommandV::Heal(n) => (
            v.with_net(v.net.recovered(NodeId::Storage(n))),
            line("recovered node "@ + text::decimal(n as nat)),
        ),
        CommandV::Partition(ns) => (
            v.split(ns),
            line("partitioned ["@ + listed_numbers(ns, ns.len()) + "] from the cluster"@),
        ),
        CommandV::Say(l) => (v, line(l)),
    }
}

/// Whether a command takes the cluster from `v` to `w` and shows `out`.
pub open spec fn runs(v: ClusterV, cmd: CommandV, w: ClusterV, out: OutputV) -> bool {
    if cmd is Status {
        w == v && exists|s: Status| #[trigger]
            cluster::reports(v, s) && out == OutputV::Lines(status_lines(s))
    } else {
        (w, out) == ran(v, cmd)
    }
}

fn one_line(l: String) -> (r: Output)
    ensures
        r@ == line(l@),
{
    let mut ls: Vec<String> = Vec::new();
    ls.push(l);
    assert(views(ls@) =~= seq![l@]);
    Output::Lines(ls)
}

fn error_text(e: &Error) -> (r: String)
    ensures
        r@ == error_line(e@),
{
    let mut s = "error: ".to_owned();
    let t = e.message();
    s.append(t.as_str());
    s
}

fn outcome_text(r: &Result<(), Error>) -> (l: String)
    ensures
        l@ == outcome_line(crate::error::outcome(*r)),
{
    match r {
        Ok(_) => "ok".to_owned(),
        Err(e) => error_text(e),
    }
}

fn entry_text(e: &DirEntry) -> (r: String)
    ensures
        r@ == entry_line(e@),
{
    let mut s = "  ".to_owned();
    s.append(
        if e.is_dir {
            "dir "
        } else {
            "file"
        },
    );
    s.append(" ");
    s.append(e.name.as_str());
    s.append(" (");
    text::append_decimal(&mut s, e.size);
    s.append(" bytes)");
    s
}

fn entry_texts(es: &Vec<DirEntry>) -> (r: Vec<String>)
    ensures
        views(r@) == Seq::new(es@.len(), |i: int| entry_line(entries_view(es@)[i])),
{
    let mut out: Vec<String> = Vec::new();
    let mut i: usize = 0;
    while i < es.len()
        invariant
            i <= es@.len(),
            out@.len() == i,
            forall|j: int| 0 <= j < i ==> (#[trigger] out@[j])@ == entry_line(es@[j]@),
        decreases es@.len() - i,
    {
        out.push(entry_text(&es[i]));
        i += 1;
    }
    assert(views(out@) =~= Seq::new(es@.len(), |i: int| entry_line(entries_view(es@)[i])));
    out
}

fn stat_text(s: &StatInfo) -> (r: String)
    ensures
        r@ == stat_line(s@),
{
    let mut out = (if s.is_dir {
        "dir"
    } else {
        "file"
    }).to_owned();
    out.append(" size=");
    text::append_decimal(&mut out, s.size);
    out.append(" hash=");
    let h = s.content_hash.short();
    out.append(h.as_str());
    out
}

fn numbers_text(ns: &Vec<u32>) -> (r: String)
    ensures
        r@ == "partitioned ["@ + listed_numbers(ns@, ns@.len()) + "] from the cluster"@,
{
    let mut out = "partitioned [".to_owned();
    let mut i: usize = 0;
    assert(out@ =~= "partitioned ["@ + listed_numbers(ns@, 0));
    while i < ns.len()
        invariant
            i <= ns@.len(),
            out@ == "partitioned ["@ + listed_numbers(ns@, i as nat),
        decreases ns@.len() - i,
    {
        if i > 0 {
            out.append(", ");
        }
        text::append_decimal(&mut out, ns[i] as u64);
        i += 1;
        assert(out@ =~= "partitioned ["@ + listed_numbers(ns@, i as nat));
    }
    out.append("] from the cluster");
    out
}

fn append_node(out: &mut String, n: &NodeStatus)
    ensures
        final(out)@ == old(out)@ + node_mark(*n),
{
    out.append("[n");
    text::append_decimal(out, n.idx as u64);
    out.append(" ");
    out.append(
        if n.live {
            "up"
        } else {
            "DOWN"
        },
    );
    out.append(" ");
    text::append_decimal(out, n.chunks as u64);
    out.append("c] ");
    assert(out@ =~= old(out)@ + node_mark(*n));
}

fn file_text(f: &FileHealth) -> (r: String)
    ensures
        r@ == file_line(*f),
{
    let mut s = "  ".to_owned();
    s.append(f.path.as_str());
    s.append(" size=");
    text::append_decimal(&mut s, f.size);
    s.append(" chunks=");
    text::append_decimal(&mut s, f.chunk_count as u64);
    s.append(" min_live_replicas=");
    text::append_decimal(&mut s, f.min_live_replicas as u64);
    s
}

/// A status, line by line.
pub fn status_text(s: &Status) -> (r: Vec<String>)
    ensures
        views(r@) == status_lines(*s),
{
    let mut out: Vec<String> = Vec::new();
    out.push(text::labelled("clock ", s.clock));
    let mut nodes = "nodes: ".to_owned();
    let mut i: usize = 0;
    while i < s.nodes.len()
        invariant
            i <= s.nodes@.len(),
            nodes@ == node_marks(s.nodes@, i as nat),
        decreases s.nodes@.len() - i,
    {
        append_node(&mut nodes, &s.nodes[i]);
        i += 1;
    }
    out.push(nodes);
    if s.files.len() == 0 {
        out.push("files: none".to_owned());
        assert(views(out@) =~= status_lines(*s));
        return out;
    }
    let ghost head = out@;
    assert(head[0]@ == status_lines(*s)[0]);
    assert(head[1]@ == status_lines(*s)[1]);
    let mut j: usize = 0;
    while j < s.files.len()
        invariant
            j <= s.files@.len(),
            head.len() == 2,
            head[0]@ == status_lines(*s)[0],
            head[1]@ == status_lines(*s)[1],
            out@.len() == 2 + j,
            forall|k: int| 0 <= k < 2 ==> out@[k] == head[k],
            forall|k: int| 0 <= k < j ==> (#[trigger] out@[2 + k])@ == file_line(s.files@[k]),
        decreases s.files@.len() - j,
    {
        out.push(file_text(&s.files[j]));
        j += 1;
    }
    assert(views(out@) =~= status_lines(*s)) by {
        assert forall|k: int| 0 <= k < out@.len() implies views(out@)[k] == status_lines(*s)[k] by {
            if k >= 2 {
                assert(out@[2 + (k - 2)]@ == file_line(s.files@[k - 2]));
            }
        }
    }
    out
}

fn run_stabilize(c: &mut Cluster) -> (r: Output)
    requires
        old(c)@.wf(),
    ensures
        final(c)@.wf(),
        (final(c)@, r@) == ran(old(c)@, CommandV::Stabilize),
{
    reveal(ran);
    if c.stabilize() {
        one_line("converged: true".to_owned())
    } else {
        one_line("converged: false".to_owned())
    }
}

fn run_reconnect(c: &mut Cluster) -> (r: Output)
    requires
        old(c)@.wf(),
    ensures
        final(c)@.wf(),
        (final(c)@, r@) == ran(old(c)@, CommandV::Reconnect),
{
    reveal(ran);
    c.heal();
    one_line("healed".to_owned())
}

fn run_seed(c: &mut Cluster, n: u64) -> (r: Output)
    requires
        old(c)@.wf(),
    ensures
        final(c)@.wf(),
        (final(c)@, r@) == ran(old(c)@, CommandV::Seed(n)),
{
    reveal(ran);
    *c = Cluster::new(Options::small(), n);
    one_line(text::labelled("restarted with seed ", n))
}

fn run_mkdir(c: &mut Cluster, p: &str) -> (r: Output)
    requires
        old(c)@.wf(),
    ensures
        final(c)@.wf(),
        (final(c)@, r@) == ran(old(c)@, CommandV::Mkdir(p@)),
{
    reveal(ran);
    let r = c.mkdir(p);
    one_line(outcome_text(&r))
}

fn run_get(c: &mut Cluster, p: &str) -> (r: Output)
    requires
        old(c)@.wf(),
    ensures
        final(c)@.wf(),
        (final(c)@, r@) == ran(old(c)@, CommandV::Get(p@)),
{
    reveal(ran);
    match c.read_file(p) {
        Ok(b) => Output::Bytes(b),
        Err(e) => one_line(error_text(&e)),
    }
}

fn run_put(c: &mut Cluster, p: &str, t: &str) -> (r: Output)
    requires
        old(c)@.wf(),
        old(c)@.opts.erasure is None ==> old(c)@.opts.chunk_size > 0,
    ensures
        final(c)@.wf(),
        (final(c)@, r@) == ran(old(c)@, CommandV::Put(p@, t@)),
{
    reveal(ran);
    let bytes = t.as_bytes();
    let n = bytes.len();
    match c.write_file(p, bytes) {
        Ok(_) => {
            let mut l = text::labelled("wrote ", n as u64);
            l.append(" bytes");
            one_line(l)
        },
        Err(e) => one_line(error_text(&e)),
    }
}

fn run_ls(c: &mut Cluster, p: &str) -> (r: Output)
    requires
        old(c)@.wf(),
    ensures
        final(c)@.wf(),
        (final(c)@, r@) == ran(old(c)@, CommandV::Ls(p@)),
{
    reveal(ran);
    match c.list(p) {
        Ok(es) => Output::Lines(entry_texts(&es)),
        Err(e) => one_line(error_text(&e)),
    }
}

fn run_rm(c: &mut Cluster, p: &str) -> (r: Output)
    requires
        old(c)@.wf(),
    ensures
        final(c)@.wf(),
        (final(c)@, r@) == ran(old(c)@, CommandV::Rm(p@)),
{
    reveal(ran);
    let r = c.delete(p);
    one_line(outcome_text(&r))
}

fn run_mv(c: &mut Cluster, p: &str, q: &str) -> (r: Output)
    requires
        old(c)@.wf(),
    ensures
        final(c)@.wf(),
        (final(c)@, r@) == ran(old(c)@, CommandV::Mv(p@, q@)),
{
    reveal(ran);
    let r = c.rename(p, q);
    one_line(outcome_text(&r))
}

fn run_stat(c: &mut Cluster, p: &str) -> (r: Output)
    requires
        old(c)@.wf(),
    ensures
        final(c)@.wf(),
        (final(c)@, r@) == ran(old(c)@, CommandV::Stat(p@)),
{
    reveal(ran);
    match c.stat(p) {
        Ok(s) => one_line(stat_text(&s)),
        Err(e) => one_line(error_text(&e)),
    }
}

fn run_fail(c: &mut Cluster, n: u32) -> (r: Output)
    requires
        old(c)@.wf(),
    ensures
        final(c)@.wf(),
        (final(c)@, r@) == ran(old(c)@, CommandV::Fail(n)),
{
    reveal(ran);
    c.crash_node(n);
    one_line(text::labelled("crashed node ", n as u64))
}

fn run_heal(c: &mut Cluster, n: u32) -> (r: Output)
    requires
        old(c)@.wf(),
    ensures
        final(c)@.wf(),
        (final(c)@, r@) == ran(old(c)@, CommandV::Heal(n)),
{
    reveal(ran);
    c.recover_node(n);
    one_line(text::labelled("recovered node ", n as u64))
}

fn run_partition(c: &mut Cluster, ns: &Vec<u32>) -> (r: Output)
    requires
        old(c)@.wf(),
    ensures
        final(c)@.wf(),
        (final(c)@, r@) == ran(old(c)@, CommandV::Partition(ns@)),
{
    reveal(ran);
    c.partition(ns.as_slice());
    one_line(numbers_text(ns))
}

fn run_nothing(cmd: &Command) -> (r: Output)
    requires
        cmd@ is Blank || cmd@ is Quit || cmd@ is Help || cmd@ is Say,
    ensures
        forall|v: ClusterV| (v, r@) == #[trigger] ran(v, cmd@),
{
    reveal(ran);
    match cmd {
        Command::Quit => Output::Quit,
        Command::Help => Output::Help,
        Command::Say(l) => one_line(l.clone()),
        _ => {
            let ls: Vec<String> = Vec::new();
            assert(views(ls@) =~= seq![]);
            Output::Lines(ls)
        },
    }
}

/// Run a command on a cluster. What is shown for it is returned.
pub fn run(c: &mut Cluster, cmd: &Command) -> (r: Output)
    requires
        old(c)@.wf(),
        old(c)@.opts.erasure is None ==> old(c)@.opts.chunk_size > 0,
    ensures
        final(c)@.wf(),
        runs(old(c)@, cmd@, final(c)@, r@),
{
    match cmd {
        Command::Status => {
            let s = c.status();
            let r = Output::Lines(status_text(&s));
            assert(cluster::reports(old(c)@, s) && r@ == OutputV::Lines(status_lines(s)));
            r
        },
        Command::Stabilize => run_stabilize(c),
        Command::Reconnect => run_reconnect(c),
        Command::Seed(n) => run_seed(c, *n),
        Command::Mkdir(p) => run_mkdir(c, p.as_str()),
        Command::Get(p) => run_get(c, p.as_str()),
        Command::Put(p, t) => run_put(c, p.as_str(), t.as_str()),
        Command::Ls(p) => run_ls(c, p.as_str()),
        Command::Rm(p) => run_rm(c, p.as_str()),
        Command::Mv(p, q) => run_mv(c, p.as_str(), q.as_str()),
        Command::Stat(p) => run_stat(c, p.as_str()),
        Command::Fail(n) => run_fail(c, *n),
        Command::Heal(n) => run_heal(c, *n),
        Command::Partition(ns) => run_partition(c, ns),
        _ => run_nothing(cmd),
    }
}

/// The byte at position `i` of a sample file whose path has `len` bytes.
pub open spec fn sample_byte(len: nat, i: int) -> u8 {
    ((i * 37 + len) % 256) as u8
}

/// The contents of a sample file of `size` bytes for a path of `len` bytes.
pub fn sample(len: usize, size: usize) -> (r: Vec<u8>)
    requires
        size * 37 + len <= usize::MAX,
    ensures
        r@ == Seq::new(size as nat, |i: int| sample_byte(len as nat, i)),
{
    let mut out: Vec<u8> = Vec::with_capacity(size);
    let mut i: usize = 0;
    while i < size
        invariant
            i <= size,
            size * 37 + len <= usize::MAX,
            out@ == Seq::new(i as nat, |j: int| sample_byte(len as nat, j)),
        decreases size - i,
    {
        out.push(((i * 37 + len) % 256) as u8);
        i += 1;
        assert(out@ =~= Seq::new(i as nat, |j: int| sample_byte(len as nat, j)));
    }
    out
}

} // verus!
