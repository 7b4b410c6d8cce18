//! How typed lines are read, and how numbers and bytes are written.

use crate::error::ErrorV;
use crate::shell::{self, CommandV};
use crate::text;
use vstd::prelude::*;

verus! {

/// The white space characters: those between words on a line, the ends of lines, and the wider
/// and narrower spaces of other scripts.
pub open spec fn white() -> Seq<char> {
    seq![
        '\t',
        '\n',
        '\u{b}',
        '\u{c}',
        '\r',
        ' ',
        '\u{85}',
        '\u{a0}',
        '\u{1680}',
        '\u{2000}',
        '\u{2001}',
        '\u{2002}',
        '\u{2003}',
        '\u{2004}',
        '\u{2005}',
        '\u{2006}',
        '\u{2007}',
        '\u{2008}',
        '\u{2009}',
        '\u{200a}',
        '\u{2028}',
        '\u{2029}',
        '\u{202f}',
        '\u{205f}',
        '\u{3000}',
    ]
}

/// White space is what separates words, and nothing else is.
pub proof fn law_white_space(c: char)
    ensures
        shell::blank(c) <==> white().contains(c),
{
    let w = white();
    if shell::blank(c) {
        let n = c as u32;
        let at: int = if 9 <= n <= 13 {
            n - 9
        } else if n == 32 {
            5
        } else if n == 0x85 {
            6
        } else if n == 0xa0 {
            7
        } else if n == 0x1680 {
            8
        } else if n <= 0x200a {
            n - 0x2000 + 9
        } else if n == 0x2028 {
            20
        } else if n == 0x2029 {
            21
        } else if n == 0x202f {
            22
        } else if n == 0x205f {
            23
        } else {
            24
        };
        assert(w[at] == c);
    }
}

/// Whether no white space stands in a string.
pub open spec fn unbroken(s: Seq<char>) -> bool {
    forall|i: int| 0 <= i < s.len() ==> !shell::blank(#[trigger] s[i])
}

/// An empty line has no words, and an unbroken line is one word.
pub proof fn law_one_word(line: Seq<char>)
    requires
        unbroken(line),
    ensures
        line.len() == 0 ==> shell::words(line).len() == 0,
        line.len() > 0 ==> shell::words(line) == seq![line],
    decreases line.len(),
{
    if line.len() > 0 {
        let front = line.drop_last();
        assert(unbroken(front)) by {
            assert forall|i: int| 0 <= i < front.len() implies !shell::blank(#[trigger] front[i]) by {
                assert(front[i] == line[i]);
            }
        }
        law_one_word(front);
        assert(!shell::blank(line[line.len() - 1]));
        if line.len() == 1 {
            assert(seq![line.last()] =~= line);
            assert(shell::words(line) =~= seq![line]);
        } else {
            assert(!shell::blank(line[line.len() - 2]));
            assert(front.push(line.last()) =~= line);
            assert(shell::words(line) =~= seq![line]);
        }
    }
}

/// The words of a line are those before a blank and then those after it.
pub proof fn law_words_part_at_blanks(a: Seq<char>, c: char, b: Seq<char>)
    requires
        shell::blank(c),
    ensures
        shell::words(a + seq![c] + b) == shell::words(a) + shell::words(b),
    decreases b.len(),
{
    let line = a + seq![c] + b;
    if b.len() == 0 {
        assert(line.drop_last() =~= a);
        assert(line.last() == c);
        assert(shell::words(b) =~= seq![]);
        assert(shell::words(a) + shell::words(b) =~= shell::words(a));
    } else {
        let f = b.drop_last();
        law_words_part_at_blanks(a, c, f);
        assert(line.drop_last() =~= a + seq![c] + f);
        assert(line.last() == b.last());
        let before = shell::words(f);
        if shell::blank(b.last()) {
        } else if b.len() == 1 {
            assert(line[line.len() - 2] == c);
            assert(f =~= seq![]);
            assert(before =~= seq![]);
            assert(shell::words(line) =~= shell::words(a) + shell::words(b));
        } else {
            assert(line[line.len() - 2] == b[b.len() - 2]);
            if shell::blank(b[b.len() - 2]) {
                assert(shell::words(line) =~= shell::words(a) + shell::words(b));
            } else {
                lemma_some_word(f);
                assert((shell::words(a) + before).last() == before.last());
                assert((shell::words(a) + before).drop_last() =~= shell::words(a)
                    + before.drop_last());
                assert(shell::words(line) =~= shell::words(a) + shell::words(b));
            }
        }
    }
}

proof fn lemma_some_word(line: Seq<char>)
    requires
        line.len() > 0,
        !shell::blank(line.last()),
    ensures
        shell::words(line).len() > 0,
{
}

/// Every word is unbroken and not empty.
pub proof fn law_words_are_unbroken(line: Seq<char>, i: int)
    requires
        0 <= i < shell::words(line).len(),
    ensures
        shell::words(line)[i].len() > 0,
        unbroken(shell::words(line)[i]),
    decreases line.len(),
{
    let front = line.drop_last();
    let before = shell::words(front);
    if shell::blank(line.last()) {
        law_words_are_unbroken(front, i);
    } else if line.len() == 1 || shell::blank(line[line.len() - 2]) {
        if i < before.len() {
            law_words_are_unbroken(front, i);
        }
    } else {
        assert(front.last() == line[line.len() - 2]);
        lemma_some_word(front);
        law_words_are_unbroken(front, i);
        if i == before.len() - 1 {
            let w = before[i];
            let x = w.push(line.last());
            assert(shell::words(line)[i] == x);
            assert forall|k: int| 0 <= k < x.len() implies !shell::blank(#[trigger] x[k]) by {
                if k < w.len() {
                    assert(!shell::blank(w[k]));
                }
            }
        }
    }
}

/// One word on its own stays as it is, and each further word follows after one space.
pub proof fn law_text_keeps_single_spaces(ws: Seq<Seq<char>>, w: Seq<char>, n: nat)
    requires
        n <= ws.len(),
    ensures
        n == ws.len() ==> shell::joined(ws.push(w), n) == w,
        n < ws.len() ==> shell::joined(ws.push(w), n) == shell::joined(ws, n) + seq![' '] + w,
    decreases ws.len() - n,
{
    reveal_strlit(" ");
    assert(" "@ =~= seq![' ']);
    if n < ws.len() {
        law_text_keeps_single_spaces(ws, w, n + 1);
        if n + 1 == ws.len() {
            assert(shell::joined(ws.push(w), n) == ws[n as int] + " "@ + shell::joined(
                ws.push(w),
                n + 1,
            ));
        } else {
            let a = ws[n as int] + " "@;
            let b = shell::joined(ws, n + 1);
            assert(a + (b + seq![' '] + w) =~= (a + b) + seq![' '] + w);
        }
    }
}

/// The words of a text that was put together from words are those words again.
pub proof fn law_text_keeps_words(ws: Seq<Seq<char>>, n: nat)
    requires
        n < ws.len(),
        forall|i: int| 0 <= i < ws.len() ==> (#[trigger] ws[i]).len() > 0 && unbroken(ws[i]),
    ensures
        shell::words(shell::joined(ws, n)) == ws.skip(n as int),
    decreases ws.len() - n,
{
    reveal_strlit(" ");
    assert(" "@ =~= seq![' ']);
    assert(ws[n as int].len() > 0 && unbroken(ws[n as int]));
    law_one_word(ws[n as int]);
    if n + 1 == ws.len() {
        assert(ws.skip(n as int) =~= seq![ws[n as int]]);
    } else {
        law_text_keeps_words(ws, n + 1);
        law_words_part_at_blanks(ws[n as int], ' ', shell::joined(ws, n + 1));
        assert(ws.skip(n as int) =~= seq![ws[n as int]] + ws.skip(n as int + 1));
    }
}

/// Whether a character is one of the ten digits.
pub open spec fn is_digit(c: char) -> bool {
    "0123456789"@.contains(c)
}

proof fn lemma_digit(c: char)
    ensures
        is_digit(c) <==> shell::digit_value(c) is Some,
        forall|d: int| #![trigger "0123456789"@[d]]
            0 <= d < 10 ==> shell::digit_value("0123456789"@[d]) == Some(d as nat)
                && text::digit(d as nat) == "0123456789"@[d],
{
    reveal_strlit("0123456789");
    let s = "0123456789"@;
    assert forall|d: int| 0 <= d < 10 implies shell::digit_value(#[trigger] s[d]) == Some(d as nat)
        && text::digit(d as nat) == s[d] by {
        if d == 0 {
        } else if d == 1 {
        } else if d == 2 {
        } else if d == 3 {
        } else if d == 4 {
        } else if d == 5 {
        } else if d == 6 {
        } else if d == 7 {
        } else if d == 8 {
        } else {
        }
    }
    if shell::digit_value(c) is Some {
        let d = c as u32 - '0' as u32;
        assert(0 <= d < 10);
        assert(shell::digit_value(s[d]) == Some(d as nat));
        assert(s[d] as u32 == c as u32);
        assert(s[d] == c);
    }
    if s.contains(c) {
        let d = choose|d: int| 0 <= d < s.len() && s[d] == c;
        assert(shell::digit_value(s[d]) is Some);
    }
}

/// A digit stands for its place among the digits, and one more digit makes ten times the number
/// and the digit.
pub proof fn law_digits_make_numbers(w: Seq<char>, d: int)
    requires
        0 <= d < 10,
    ensures
        shell::number(seq!["0123456789"@[d]]) == Some(d as nat),
        shell::number(w) matches Some(n) ==> shell::number(w.push("0123456789"@[d])) == Some(
            n * 10 + d as nat,
        ),
{
    let c = "0123456789"@[d];
    lemma_digit(c);
    assert("0123456789"@[d] == c);
    assert(c != '+') by {
        assert(shell::digit_value(c) is Some);
    }
    let one = seq![c];
    assert(one.drop_last() =~= seq![]);
    assert(one[0] == c);
    assert(shell::digits_value(one.drop_last()) == Some(0nat));
    assert(shell::digits_value(one) == Some(d as nat));
    let p = w.push(c);
    if shell::number(w) is Some {
        assert(w.len() > 0);
        assert(p[0] == w[0]);
        if w[0] == '+' {
            assert(p.skip(1) =~= w.skip(1).push(c));
            assert(p.skip(1).drop_last() =~= w.skip(1));
        } else {
            assert(p.drop_last() =~= w);
        }
    }
}

/// A word is a number exactly when it is made of one digit or more, with or without a plus sign in
/// front; the plus sign makes no difference.
pub proof fn law_what_is_a_number(w: Seq<char>)
    ensures
        w.len() > 0 && w[0] != '+' ==> (shell::number(w) is Some <==> forall|i: int|
            0 <= i < w.len() ==> is_digit(#[trigger] w[i])),
        w.len() > 0 && w[0] != '+' ==> shell::number(seq!['+'] + w) == shell::number(w),
        shell::number(Seq::empty()) is None,
        shell::number(seq!['+']) is None,
        shell::number(seq!['+', '+'] + w) is None,
{
    let p = seq!['+'] + w;
    assert(p.skip(1) =~= w);
    assert(seq!['+'].skip(1).len() == 0);
    let q = seq!['+', '+'] + w;
    assert(q.skip(1)[0] == '+');
    lemma_all_digits(q.skip(1));
    lemma_digit('+');
    if shell::number(q) is Some {
        assert(is_digit(q.skip(1)[0]));
    }
    lemma_all_digits(w);
}

proof fn lemma_all_digits(w: Seq<char>)
    ensures
        shell::digits_value(w) is Some <==> forall|i: int|
            0 <= i < w.len() ==> is_digit(#[trigger] w[i]),
    decreases w.len(),
{
    if w.len() > 0 {
        let f = w.drop_last();
        lemma_all_digits(f);
        lemma_digit(w.last());
        if forall|i: int| 0 <= i < w.len() ==> is_digit(#[trigger] w[i]) {
            assert forall|i: int| 0 <= i < f.len() implies is_digit(#[trigger] f[i]) by {
                assert(is_digit(w[i]));
            }
            assert(is_digit(w[w.len() - 1]));
        }
        if shell::digits_value(w) is Some {
            assert forall|i: int| 0 <= i < w.len() implies is_digit(#[trigger] w[i]) by {
                if i < f.len() {
                    assert(is_digit(f[i]));
                }
            }
        }
    }
}

proof fn lemma_decimal(n: nat)
    ensures
        text::decimal(n).len() > 0,
        shell::digits_value(text::decimal(n)) == Some(n),
        n > 0 ==> text::decimal(n)[0] != '0',
        n == 0 ==> text::decimal(n) == seq!['0'],
    decreases n,
{
    let s = text::decimal(n);
    if n < 10 {
        lemma_digit(text::digit(n));
        assert(text::digit(n) == "0123456789"@[n as int]);
        assert(s.drop_last() =~= seq![]);
        assert(shell::digits_value(s.drop_last()) == Some(0nat));
        if n > 0 {
            lemma_digit('0');
            reveal_strlit("0123456789");
            assert(shell::digit_value(s[0]) == Some(n));
        }
    } else {
        lemma_decimal(n / 10);
        let c = text::digit(n % 10);
        lemma_digit(c);
        assert(c == "0123456789"@[(n % 10) as int]);
        assert(s.drop_last() =~= text::decimal(n / 10));
        assert(s[0] == text::decimal(n / 10)[0]);
    }
}

/// A number that is written is made of digits, begins with no zero unless it is zero, and is read
/// back as itself.
pub proof fn law_numbers_read_back(n: nat)
    ensures
        shell::number(text::decimal(n)) == Some(n),
        forall|i: int|
            0 <= i < text::decimal(n).len() ==> is_digit(#[trigger] text::decimal(n)[i]),
        n > 0 ==> text::decimal(n)[0] != '0',
        n == 0 ==> text::decimal(n) == seq!['0'],
        unbroken(text::decimal(n)),
        text::decimal(n).len() > 0,
{
    let s = text::decimal(n);
    lemma_decimal(n);
    lemma_all_digits(s);
    assert forall|i: int| 0 <= i < s.len() implies !shell::blank(#[trigger] s[i]) by {
        assert(is_digit(s[i]));
        lemma_digit(s[i]);
    }
    assert(is_digit(s[0]));
    lemma_digit('+');
}

/// A number is taken up to a limit and no further.
pub proof fn law_numbers_have_a_limit(w: Seq<char>, max: nat, n: nat)
    ensures
        shell::number_to(w, max) == Some(n) <==> shell::number(w) == Some(n) && n <= max,
        shell::number_to(w, max) is None <==> shell::number(w) is None || shell::number(w)->Some_0
            > max,
{
}

/// Bytes are written as two hexadecimal digits each, the high one first.
pub proof fn law_hex(bytes: Seq<u8>, i: int)
    requires
        0 <= i < bytes.len(),
    ensures
        text::hex(bytes).len() == 2 * bytes.len(),
        text::hex(bytes)[2 * i] == "0123456789abcdef"@[bytes[i] as int / 16],
        text::hex(bytes)[2 * i + 1] == "0123456789abcdef"@[bytes[i] as int % 16],
    decreases bytes.len(),
{
    reveal_strlit("0123456789abcdef");
    let f = bytes.drop_last();
    if f.len() > 0 {
        law_hex(
            f,
            if i < f.len() {
                i
            } else {
                0
            },
        );
    } else {
        assert(text::hex(f).len() == 0);
    }
    lemma_hex_digit(bytes.last() as nat / 16);
    lemma_hex_digit(bytes.last() as nat % 16);
}

proof fn lemma_hex_digit(d: nat)
    requires
        d < 16,
    ensures
        text::digit(d) == "0123456789abcdef"@[d as int],
{
    reveal_strlit("0123456789abcdef");
    if d == 0 {
    } else if d == 1 {
    } else if d == 2 {
    } else if d == 3 {
    } else if d == 4 {
    } else if d == 5 {
    } else if d == 6 {
    } else if d == 7 {
    } else if d == 8 {
    } else if d == 9 {
    } else if d == 10 {
    } else if d == 11 {
    } else if d == 12 {
    } else if d == 13 {
    } else if d == 14 {
    } else {
    }
}

/// The first of some numbers is listed as it is, and each further one follows after a comma and a
/// space.
pub proof fn law_listed_numbers(ns: Seq<u32>, n: nat)
    requires
        n < ns.len(),
    ensures
        n == 0 ==> shell::listed_numbers(ns, n + 1) == text::decimal(ns[0] as nat),
        n > 0 ==> shell::listed_numbers(ns, n + 1) == shell::listed_numbers(ns, n) + seq![',', ' ']
            + text::decimal(ns[n as int] as nat),
{
    reveal_strlit(", ");
    assert(", "@ =~= seq![',', ' ']);
}

/// The words that are node numbers are taken in the order they stand, and others are passed over.
pub proof fn law_node_numbers(ws: Seq<Seq<char>>, n: u32, other: Seq<char>)
    requires
        ws.len() > 0,
    ensures
        shell::node_numbers(seq![other], 1).len() == 0,
        shell::node_numbers(ws.push(text::decimal(n as nat)), ws.len() + 1) == shell::node_numbers(
            ws,
            ws.len(),
        ).push(n),
        shell::number_to(other, u32::MAX as nat) is None ==> shell::node_numbers(
            ws.push(other),
            ws.len() + 1,
        ) == shell::node_numbers(ws, ws.len()),
{
    law_numbers_read_back(n as nat);
    lemma_node_numbers_prefix(ws, ws.push(text::decimal(n as nat)), ws.len());
    lemma_node_numbers_prefix(ws, ws.push(other), ws.len());
}

proof fn lemma_node_numbers_prefix(a: Seq<Seq<char>>, b: Seq<Seq<char>>, n: nat)
    requires
        n <= a.len() <= b.len(),
        forall|i: int| 0 <= i < n ==> a[i] == b[i],
    ensures
        shell::node_numbers(a, n) == shell::node_numbers(b, n),
    decreases n,
{
    if n > 1 {
        lemma_node_numbers_prefix(a, b, (n - 1) as nat);
    }
}

/// The commands without arguments, by their words. A blank line asks for nothing.
pub proof fn law_plain_commands(ws: Seq<Seq<char>>)
    ensures
        ws.len() == 0 <==> shell::asked(ws) is Blank,
        shell::asked(ws) is Quit <==> ws.len() > 0 && (ws[0] == "quit"@ || ws[0] == "exit"@),
        shell::asked(ws) is Help <==> ws.len() > 0 && ws[0] == "help"@,
        shell::asked(ws) is Status <==> ws.len() > 0 && ws[0] == "status"@,
        shell::asked(ws) is Stabilize <==> ws.len() > 0 && ws[0] == "stabilize"@,
        shell::asked(ws) is Reconnect <==> ws.len() > 0 && ws[0] == "reconnect"@,
{
    lemma_command_words();
}

/// The commands that take paths, by their words.
pub proof fn law_path_commands(ws: Seq<Seq<char>>, p: Seq<char>, q: Seq<char>)
    ensures
        shell::asked(ws) == CommandV::Mkdir(p) <==> ws.len() > 1 && ws[0] == "mkdir"@ && ws[1] == p,
        shell::asked(ws) == CommandV::Get(p) <==> ws.len() > 1 && ws[0] == "get"@ && ws[1] == p,
        shell::asked(ws) == CommandV::Ls(p) <==> ws.len() > 1 && ws[0] == "ls"@ && ws[1] == p,
        shell::asked(ws) == CommandV::Rm(p) <==> ws.len() > 1 && ws[0] == "rm"@ && ws[1] == p,
        shell::asked(ws) == CommandV::Stat(p) <==> ws.len() > 1 && ws[0] == "stat"@ && ws[1] == p,
        shell::asked(ws) == CommandV::Mv(p, q) <==> ws.len() > 2 && ws[0] == "mv"@ && ws[1] == p
            && ws[2] == q,
        shell::asked(ws) == CommandV::Put(p, q) <==> ws.len() > 2 && ws[0] == "put"@ && ws[1] == p
            && q == shell::joined(ws, 2),
{
    lemma_command_words();
}

/// The commands that take numbers, by their words. A number out of range is none.
pub proof fn law_number_commands(ws: Seq<Seq<char>>, n: u32, seed: u64, ns: Seq<u32>)
    ensures
        shell::asked(ws) == CommandV::Fail(n) <==> ws.len() > 1 && ws[0] == "fail"@
            && shell::number(ws[1]) == Some(n as nat),
        shell::asked(ws) == CommandV::Heal(n) <==> ws.len() > 1 && ws[0] == "heal"@
            && shell::number(ws[1]) == Some(n as nat),
        shell::asked(ws) == CommandV::Seed(seed) <==> ws.len() > 1 && ws[0] == "seed"@
            && shell::number(ws[1]) == Some(seed as nat),
        shell::asked(ws) == CommandV::Partition(ns) <==> ws.len() > 0 && ws[0] == "partition"@
            && ns == shell::node_numbers(ws, ws.len()) && ns.len() > 0,
{
    lemma_command_words();
}

/// What is said of a line that asks for nothing that can be done: the usage of the command, or that
/// there is no such command.
pub proof fn law_what_is_said(ws: Seq<Seq<char>>, l: Seq<char>)
    requires
        shell::asked(ws) == CommandV::Say(l),
    ensures
        ws.len() > 0,
        ws[0] == "mkdir"@ || ws[0] == "rm"@ ==> ws.len() == 1 && l == "missing argument"@,
        ws[0] == "get"@ ==> ws.len() == 1 && l == "usage: get <path>"@,
        ws[0] == "ls"@ ==> ws.len() == 1 && l == "usage: ls <dir>"@,
        ws[0] == "stat"@ ==> ws.len() == 1 && l == "usage: stat <path>"@,
        ws[0] == "put"@ ==> ws.len() < 3 && l == "usage: put <path> <string...>"@,
        ws[0] == "mv"@ ==> ws.len() < 3 && l == "usage: mv <from> <to>"@,
        ws[0] == "fail"@ ==> l == "usage: fail <node>"@,
        ws[0] == "heal"@ ==> l == "usage: heal <node>"@,
        ws[0] == "seed"@ ==> l == "usage: seed <n>"@,
        ws[0] == "partition"@ ==> l == "usage: partition <node...>"@,
        !known_command(ws[0]) ==> l == "unknown command: "@ + ws[0],
{
    lemma_command_words();
}

/// Whether a word is a command of the session.
pub open spec fn known_command(w: Seq<char>) -> bool {
    ||| w == "quit"@ || w == "exit"@ || w == "help"@ || w == "status"@ || w == "stabilize"@
    ||| w == "reconnect"@ || w == "seed"@ || w == "mkdir"@ || w == "get"@ || w == "put"@
    ||| w == "ls"@ || w == "rm"@ || w == "mv"@ || w == "stat"@ || w == "fail"@ || w == "heal"@
    ||| w == "partition"@
}

/// A line that is no command is answered by naming it.
pub proof fn law_unknown_commands(ws: Seq<Seq<char>>)
    requires
        ws.len() > 0,
        !known_command(ws[0]),
    ensures
        shell::asked(ws) == CommandV::Say("unknown command: "@ + ws[0]),
{
}

proof fn lemma_command_words()
    ensures
        "quit"@.len() == 4 && "quit"@[0] == 'q',
        "exit"@.len() == 4 && "exit"@[0] == 'e',
        "help"@.len() == 4 && "help"@[0] == 'h' && "help"@[2] == 'l',
        "status"@.len() == 6,
        "stabilize"@.len() == 9 && "stabilize"@[0] == 's',
        "reconnect"@.len() == 9 && "reconnect"@[0] == 'r',
        "seed"@.len() == 4 && "seed"@[0] == 's' && "seed"@[1] == 'e',
        "mkdir"@.len() == 5,
        "get"@.len() == 3 && "get"@[0] == 'g',
        "put"@.len() == 3 && "put"@[0] == 'p',
        "ls"@.len() == 2 && "ls"@[0] == 'l',
        "rm"@.len() == 2 && "rm"@[0] == 'r',
        "mv"@.len() == 2 && "mv"@[0] == 'm',
        "stat"@.len() == 4 && "stat"@[0] == 's' && "stat"@[1] == 't',
        "fail"@.len() == 4 && "fail"@[0] == 'f',
        "heal"@.len() == 4 && "heal"@[0] == 'h' && "heal"@[2] == 'a',
        "partition"@.len() == 9 && "partition"@[0] == 'p',
{
    reveal_strlit("quit");
    reveal_strlit("exit");
    reveal_strlit("help");
    reveal_strlit("status");
    reveal_strlit("stabilize");
    reveal_strlit("reconnect");
    reveal_strlit("seed");
    reveal_strlit("mkdir");
    reveal_strlit("get");
    reveal_strlit("put");
    reveal_strlit("ls");
    reveal_strlit("rm");
    reveal_strlit("mv");
    reveal_strlit("stat");
    reveal_strlit("fail");
    reveal_strlit("heal");
    reveal_strlit("partition");
}

/// A typed command with one argument is read as its two words, whatever blanks stand around them.
pub proof fn law_two_words(a: char, w: Seq<char>, b: char, x: Seq<char>, c: char)
    requires
        shell::blank(a),
        shell::blank(b),
        shell::blank(c),
        w.len() > 0,
        unbroken(w),
        x.len() > 0,
        unbroken(x),
    ensures
        shell::words(w + seq![b] + x) == seq![w, x],
        shell::words(seq![a] + (w + seq![b] + x) + seq![c]) == seq![w, x],
{
    law_one_word(w);
    law_one_word(x);
    law_words_part_at_blanks(w, b, x);
    let l = w + seq![b] + x;
    assert(shell::words(l) =~= seq![w, x]);
    let e = Seq::<char>::empty();
    law_one_word(e);
    law_words_part_at_blanks(e, a, l);
    let al = seq![a] + l;
    assert(e + seq![a] + l =~= al);
    law_words_part_at_blanks(al, c, e);
    assert(al + seq![c] + e =~= al + seq![c]);
    assert(shell::words(al + seq![c]) =~= seq![w, x]);
}

/// What is shown for an error says what went wrong and with what.
pub proof fn law_error_texts(p: Seq<char>, a: nat, b: nat)
    ensures
        ErrorV::NotFound(p).text() == "not found: "@ + p,
        ErrorV::AlreadyExists(p).text() == "already exists: "@ + p,
        ErrorV::NotADirectory(p).text() == "not a directory: "@ + p,
        ErrorV::IsADirectory(p).text() == "is a directory: "@ + p,
        ErrorV::DirectoryNotEmpty(p).text() == "directory not empty: "@ + p,
        ErrorV::InvalidPath(p).text() == "invalid path: "@ + p,
        ErrorV::ChunkUnavailable(p).text() == "chunk unavailable: "@ + p,
        ErrorV::Decode(p).text() == "decode error: "@ + p,
        ErrorV::MetadataUnavailable.text() == "metadata service unavailable"@,
        ErrorV::IntegrityError.text() == "integrity error: content hash mismatch"@,
        (ErrorV::WriteQuorumFailed { needed: a, got: b }).text() == "write quorum failed: needed "@
            + text::decimal(a) + ", got "@ + text::decimal(b),
{
}

} // verus!
