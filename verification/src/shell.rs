//! The serial command shell: line editing of what the host types, and the
//! commands it understands.

use vstd::prelude::*;
use vstd::utf8::{encode_utf8, encode_scalar, valid_utf8, decode_utf8};
use crate::text::{is_control, is_control_spec, encode_char, str_trim, str_eq, trim};
use crate::usb_log::views;
use crate::logger::append_bytes;

verus! {

/// Capacity of the command line in bytes.
pub const LINE_CAPACITY: usize = 64;

#[verifier::external_type_specification]
#[verifier::external_body]
pub struct ExLine<const N: usize>(heapless::String<N>);

/// The characters held by a command line.
pub uninterp spec fn line_text(s: heapless::String<64>) -> Seq<char>;

/// Whether `c` still fits on a line holding `line`: its UTF-8 bytes and the
/// line's must fit in `LINE_CAPACITY` bytes.
pub open spec fn fits(line: Seq<char>, c: char) -> bool {
    encode_utf8(line).len() + encode_scalar(c as u32).len() <= LINE_CAPACITY
}

/// Calls `heapless::String::push`, which appends `c` when its UTF-8 bytes
/// fit in the remaining capacity and otherwise leaves the string unchanged
/// and returns an error.
#[verifier::external_body]
fn line_push(s: &mut heapless::String<64>, c: char) -> (r: Result<(), ()>)
    ensures
        r is Ok <==> fits(line_text(*old(s)), c),
        r is Ok ==> line_text(*final(s)) == line_text(*old(s)).push(c),
        r is Err ==> line_text(*final(s)) == line_text(*old(s)),
{
    s.push(c)
}

/// Calls `heapless::String::pop`, which removes and returns the last
/// character, or returns `None` on an empty string.
#[verifier::external_body]
fn line_pop(s: &mut heapless::String<64>) -> (r: Option<char>)
    ensures
        match r {
            Some(c) => {
                &&& line_text(*old(s)).len() > 0
                &&& c == line_text(*old(s)).last()
                &&& line_text(*final(s)) == line_text(*old(s)).drop_last()
            },
            None => {
                &&& line_text(*old(s)).len() == 0
                &&& line_text(*final(s)) == line_text(*old(s))
            },
        },
{
    s.pop()
}

/// Calls `heapless::String::clear`, which empties the string.
#[verifier::external_body]
fn line_clear(s: &mut heapless::String<64>)
    ensures
        line_text(*final(s)) == Seq::<char>::empty(),
{
    s.clear()
}

/// Calls `heapless::String::as_str`: the characters of the line.
#[verifier::external_body]
pub fn line_as_str(s: &heapless::String<64>) -> (r: &str)
    ensures
        r@ == line_text(*s),
{
    s.as_str()
}

/// The echo for a backspace that removed a character: back, blank, back.
pub open spec fn erase_echo() -> Seq<u8> {
    encode_utf8("\x08 \x08"@)
}

/// The echo that ends a line.
pub open spec fn newline_echo() -> Seq<u8> {
    encode_utf8("\r\n"@)
}

/// The echo for an empty line: a new prompt.
pub open spec fn prompt_echo() -> Seq<u8> {
    encode_utf8("\r\n> "@)
}

/// The echo when a character no longer fits on the line.
pub open spec fn too_long_echo() -> Seq<u8> {
    encode_utf8("\r\nError: input too long\r\n> "@)
}

/// Where line editing stands: the line, the echoes to send (one message
/// each, in order), and whether a complete line is ready.
pub struct EditState {
    pub line: Seq<char>,
    pub echoes: Seq<Seq<u8>>,
    pub done: bool,
}

/// `r` with `echo` sent before its echoes.
pub open spec fn echo_first(echo: Seq<u8>, r: EditState) -> EditState {
    EditState { echoes: seq![echo] + r.echoes, ..r }
}

/// Line editing of `input` on a line holding `line`, with `skip` characters
/// of an escape sequence still to ignore. Backspace and delete remove the
/// last character (when there is one); CR or LF ends a non-empty line and
/// stops, or re-prompts on an empty one; ESC ignores the next two
/// characters; other control characters are ignored; any other character is
/// appended and echoed, or, when it does not fit, the line is cleared with
/// an error message.
pub open spec fn edit(line: Seq<char>, skip: nat, input: Seq<char>) -> EditState
    decreases input.len(),
{
    if input.len() == 0 {
        EditState { line, echoes: Seq::empty(), done: false }
    } else {
        let c = input[0];
        let rest = input.drop_first();
        if skip > 0 {
            edit(line, (skip - 1) as nat, rest)
        } else if is_control_spec(c) {
            if (c == '\x08' || c == '\x7f') && line.len() > 0 {
                echo_first(erase_echo(), edit(line.drop_last(), 0, rest))
            } else if c == '\n' || c == '\r' {
                if line.len() > 0 {
                    EditState { line, echoes: seq![newline_echo()], done: true }
                } else {
                    echo_first(prompt_echo(), edit(line, 0, rest))
                }
            } else if c == '\x1b' {
                edit(line, 2, rest)
            } else {
                edit(line, 0, rest)
            }
        } else if fits(line, c) {
            echo_first(encode_scalar(c as u32), edit(line.push(c), 0, rest))
        } else {
            echo_first(too_long_echo(), edit(Seq::empty(), 0, rest))
        }
    }
}

/// Encoding a line with one more character appends that character's bytes.
pub proof fn lemma_encode_utf8_push(s: Seq<char>, c: char)
    ensures
        encode_utf8(s.push(c)) == encode_utf8(s) + encode_scalar(c as u32),
    decreases s.len(),
{
    if s.len() == 0 {
        assert(s.push(c).drop_first() =~= Seq::<char>::empty());
        assert(encode_utf8(s.push(c).drop_first()) =~= Seq::<u8>::empty());
        assert(encode_utf8(s.push(c)) =~= encode_utf8(s) + encode_scalar(c as u32));
    } else {
        lemma_encode_utf8_push(s.drop_first(), c);
        assert(s.push(c).drop_first() =~= s.drop_first().push(c));
        assert(encode_utf8(s.push(c)) =~= encode_utf8(s) + encode_scalar(c as u32));
    }
}

/// Line editing never lets the line outgrow its capacity.
pub proof fn lemma_edit_keeps_line_within_capacity(line: Seq<char>, skip: nat, input: Seq<char>)
    requires
        encode_utf8(line).len() <= LINE_CAPACITY,
    ensures
        encode_utf8(edit(line, skip, input).line).len() <= LINE_CAPACITY,
    decreases input.len(),
{
    if input.len() > 0 {
        let c = input[0];
        let rest = input.drop_first();
        if skip > 0 {
            lemma_edit_keeps_line_within_capacity(line, (skip - 1) as nat, rest);
        } else if is_control_spec(c) {
            if (c == '\x08' || c == '\x7f') && line.len() > 0 {
                lemma_encode_utf8_push(line.drop_last(), line.last());
                assert(line.drop_last().push(line.last()) =~= line);
                lemma_edit_keeps_line_within_capacity(line.drop_last(), 0, rest);
            } else if c == '\x1b' {
                lemma_edit_keeps_line_within_capacity(line, 2, rest);
            } else {
                lemma_edit_keeps_line_within_capacity(line, 0, rest);
            }
        } else if fits(line, c) {
            lemma_encode_utf8_push(line, c);
            lemma_edit_keeps_line_within_capacity(line.push(c), 0, rest);
        } else {
            assert(encode_utf8(Seq::<char>::empty()) =~= Seq::<u8>::empty());
            lemma_edit_keeps_line_within_capacity(Seq::empty(), 0, rest);
        }
    }
}

/// A line is only ever handed over for running when it is not empty.
pub proof fn lemma_edit_done_line_not_empty(line: Seq<char>, skip: nat, input: Seq<char>)
    ensures
        edit(line, skip, input).done ==> edit(line, skip, input).line.len() > 0,
    decreases input.len(),
{
    if input.len() > 0 {
        let c = input[0];
        let rest = input.drop_first();
        if skip > 0 {
            lemma_edit_done_line_not_empty(line, (skip - 1) as nat, rest);
        } else if is_control_spec(c) {
            if (c == '\x08' || c == '\x7f') && line.len() > 0 {
                lemma_edit_done_line_not_empty(line.drop_last(), 0, rest);
            } else if c == '\x1b' {
                lemma_edit_done_line_not_empty(line, 2, rest);
            } else {
                lemma_edit_done_line_not_empty(line, 0, rest);
            }
        } else if fits(line, c) {
            lemma_edit_done_line_not_empty(line.push(c), 0, rest);
        } else {
            lemma_edit_done_line_not_empty(Seq::empty(), 0, rest);
        }
    }
}

/// Typing a character that fits and then deleting it gives back the line,
/// with the character echoed and then erased on the terminal.
pub proof fn lemma_delete_undoes_typing(line: Seq<char>, c: char)
    requires
        !is_control_spec(c),
        fits(line, c),
    ensures
        edit(line, 0, seq![c, '\x7f']) == (EditState {
            line,
            echoes: seq![encode_scalar(c as u32), erase_echo()],
            done: false,
        }),
{
    let input = seq![c, '\x7f'];
    let rest = input.drop_first();
    assert(rest =~= seq!['\x7f']);
    assert(rest.drop_first() =~= Seq::<char>::empty());
    assert(line.push(c).drop_last() =~= line);
    assert(is_control_spec('\x7f'));
    let inner = edit(line.push(c), 0, rest);
    assert(inner == echo_first(erase_echo(), edit(line, 0, Seq::<char>::empty())));
    assert(seq![encode_scalar(c as u32)] + (seq![erase_echo()] + Seq::<Seq<u8>>::empty())
        =~= seq![encode_scalar(c as u32), erase_echo()]);
}

/// An escape sequence (ESC and the two characters after it) changes
/// nothing and echoes nothing.
pub proof fn lemma_escape_sequence_ignored(line: Seq<char>, a: char, b: char)
    ensures
        edit(line, 0, seq!['\x1b', a, b]) == (EditState {
            line,
            echoes: Seq::empty(),
            done: false,
        }),
{
    let input = seq!['\x1b', a, b];
    assert(is_control_spec('\x1b'));
    assert(input.drop_first() =~= seq![a, b]);
    assert(seq![a, b].drop_first() =~= seq![b]);
    assert(seq![b].drop_first() =~= Seq::<char>::empty());
    assert(edit(line, 1, seq![b]) == edit(line, 0, Seq::<char>::empty()));
    assert(edit(line, 2, seq![a, b]) == edit(line, 1, seq![b]));
    assert(edit(line, 0, input) == edit(line, 2, seq![a, b]));
}

/// Encoding two runs of characters one after the other encodes each run.
pub proof fn lemma_encode_utf8_concat(a: Seq<char>, b: Seq<char>)
    ensures
        encode_utf8(a + b) == encode_utf8(a) + encode_utf8(b),
    decreases a.len(),
{
    if a.len() == 0 {
        assert(a + b =~= b);
        assert(encode_utf8(a) =~= Seq::<u8>::empty());
        assert(encode_utf8(a) + encode_utf8(b) =~= encode_utf8(b));
    } else {
        lemma_encode_utf8_concat(a.drop_first(), b);
        assert((a + b).drop_first() =~= a.drop_first() + b);
        assert(encode_utf8(a + b) =~= encode_utf8(a) + encode_utf8(b));
    }
}

/// The echo of typed characters: each character's UTF-8 bytes, one message
/// per character.
pub open spec fn char_echoes(t: Seq<char>) -> Seq<Seq<u8>> {
    t.map_values(|c: char| encode_scalar(c as u32))
}

/// Enter (CR or LF) on an empty line only sends a fresh prompt: editing
/// goes on with the rest of the packet exactly as if the Enter had not been
/// there.
pub proof fn lemma_enter_on_empty_line_goes_on(c: char, rest: Seq<char>)
    requires
        c == '\r' || c == '\n',
    ensures
        edit(Seq::empty(), 0, seq![c] + rest).line == edit(Seq::empty(), 0, rest).line,
        edit(Seq::empty(), 0, seq![c] + rest).done == edit(Seq::empty(), 0, rest).done,
        edit(Seq::empty(), 0, seq![c] + rest).echoes == seq![prompt_echo()] + edit(
            Seq::empty(),
            0,
            rest,
        ).echoes,
{
    let input = seq![c] + rest;
    assert(input[0] == c);
    assert(input.drop_first() =~= rest);
    assert(is_control_spec(c));
}

/// Typing printable characters that fit, then Enter, completes the line
/// holding exactly what was typed: every character is echoed, then the
/// line ends; whatever the line held before comes first.
pub proof fn lemma_typed_text_then_enter(line: Seq<char>, t: Seq<char>, enter: char)
    requires
        enter == '\r' || enter == '\n',
        line.len() + t.len() > 0,
        forall|k: int| 0 <= k < t.len() ==> !is_control_spec(#[trigger] t[k]),
        encode_utf8(line + t).len() <= LINE_CAPACITY,
    ensures
        edit(line, 0, t.push(enter)) == (EditState {
            line: line + t,
            echoes: char_echoes(t) + seq![newline_echo()],
            done: true,
        }),
    decreases t.len(),
{
    let input = t.push(enter);
    if t.len() == 0 {
        assert(input =~= seq![enter]);
        assert(is_control_spec(enter));
        assert(line + t =~= line);
        assert(char_echoes(t) + seq![newline_echo()] =~= seq![newline_echo()]);
    } else {
        let c = t[0];
        let rest = t.drop_first();
        assert(input[0] == c);
        assert(input.drop_first() =~= rest.push(enter));
        assert(line + t =~= line.push(c) + rest);
        lemma_encode_utf8_concat(line.push(c), rest);
        lemma_encode_utf8_push(line, c);
        assert(fits(line, c));
        assert forall|k: int| 0 <= k < rest.len() implies !is_control_spec(#[trigger] rest[k]) by {
            assert(rest[k] == t[k + 1]);
        }
        lemma_typed_text_then_enter(line.push(c), rest, enter);
        assert(char_echoes(t) =~= seq![encode_scalar(c as u32)] + char_echoes(rest));
        assert(seq![encode_scalar(c as u32)] + (char_echoes(rest) + seq![newline_echo()])
            =~= char_echoes(t) + seq![newline_echo()]);
    }
}

/// A packet that starts with Enter on an empty line and then holds a typed
/// command and Enter runs that command: a fresh prompt, the echo of the
/// command, and the end of the line.
pub proof fn lemma_prompt_then_command(t: Seq<char>)
    requires
        t.len() > 0,
        forall|k: int| 0 <= k < t.len() ==> !is_control_spec(#[trigger] t[k]),
        encode_utf8(t).len() <= LINE_CAPACITY,
    ensures
        edit(Seq::empty(), 0, seq!['\r'] + t.push('\r')) == (EditState {
            line: t,
            echoes: seq![prompt_echo()] + char_echoes(t) + seq![newline_echo()],
            done: true,
        }),
{
    lemma_enter_on_empty_line_goes_on('\r', t.push('\r'));
    assert(Seq::<char>::empty() + t =~= t);
    lemma_typed_text_then_enter(Seq::empty(), t, '\r');
    assert(seq![prompt_echo()] + (char_echoes(t) + seq![newline_echo()])
        =~= seq![prompt_echo()] + char_echoes(t) + seq![newline_echo()]);
}

/// The bytes of a string literal, as a vector.
fn bytes_of(s: &str) -> (r: Vec<u8>)
    ensures
        r@ == encode_utf8(s@),
{
    let mut out: Vec<u8> = Vec::new();
    append_bytes(&mut out, s.as_bytes());
    assert(out@ =~= encode_utf8(s@));
    out
}

/// Takes one packet of typed characters into the command line. Returns
/// `Some(())` when a complete line is ready to run (the rest of the packet
/// is dropped), and the echoes to send back, one message each.
pub fn process_input(msg: &mut heapless::String<64>, input: &str) -> (r: (Option<()>, Vec<Vec<u8>>))
    ensures
        ({
            let e = edit(line_text(*old(msg)), 0, input@);
            &&& r.0 is Some <==> e.done
            &&& line_text(*final(msg)) == e.line
            &&& views(r.1@) == e.echoes
        }),
{
    let ghost goal = edit(line_text(*msg), 0, input@);
    let mut echoes: Vec<Vec<u8>> = Vec::new();
    let mut skip: usize = 0;
    let mut i: usize = 0;
    let chars: Vec<char> = str_chars(input);
    proof {
        assert(input@.skip(0) =~= input@);
        assert(views(echoes@) + goal.echoes =~= goal.echoes);
    }
    while i < chars.len()
        invariant
            chars@ == input@,
            goal == edit(line_text(*old(msg)), 0, input@),
            i <= chars@.len(),
            skip <= 2,
            ({
                let e = edit(line_text(*msg), skip as nat, input@.skip(i as int));
                &&& goal.line == e.line
                &&& goal.done == e.done
                &&& goal.echoes == views(echoes@) + e.echoes
            }),
        decreases chars@.len() - i,
    {
        let c = chars[i];
        let ghost rest = input@.skip(i as int);
        let ghost prev = views(echoes@);
        assert(rest.drop_first() =~= input@.skip(i + 1));
        assert(rest[0] == c);
        i = i + 1;
        if skip > 0 {
            skip = skip - 1;
            continue;
        }
        if is_control(c) {
            if (c == '\x08' || c == '\x7f') && line_pop(msg).is_some() {
                let e = bytes_of("\x08 \x08");
                echoes.push(e);
                assert(views(echoes@) =~= prev.push(erase_echo()));
                assert(prev + (seq![erase_echo()] + edit(line_text(*msg), 0, input@.skip(i as int)).echoes)
                    =~= prev.push(erase_echo()) + edit(line_text(*msg), 0, input@.skip(i as int)).echoes);
            } else if c == '\n' || c == '\r' {
                if !line_as_str(msg).is_empty() {
                    let e = bytes_of("\r\n");
                    echoes.push(e);
                    assert(views(echoes@) =~= prev.push(newline_echo()));
                    assert(views(echoes@) =~= prev + seq![newline_echo()]);
                    return (Some(()), echoes);
                } else {
                    let e = bytes_of("\r\n> ");
                    echoes.push(e);
                    assert(views(echoes@) =~= prev.push(prompt_echo()));
                    assert(prev + (seq![prompt_echo()] + edit(line_text(*msg), 0, input@.skip(i as int)).echoes)
                        =~= prev.push(prompt_echo()) + edit(line_text(*msg), 0, input@.skip(i as int)).echoes);
                }
            } else if c == '\x1b' {
                skip = 2;
            }
        } else {
            match line_push(msg, c) {
                Err(_) => {
                    let e = bytes_of("\r\nError: input too long\r\n> ");
                    echoes.push(e);
                    line_clear(msg);
                    assert(views(echoes@) =~= prev.push(too_long_echo()));
                    assert(prev + (seq![too_long_echo()] + edit(line_text(*msg), 0, input@.skip(i as int)).echoes)
                        =~= prev.push(too_long_echo()) + edit(line_text(*msg), 0, input@.skip(i as int)).echoes);
                },
                Ok(()) => {
                    let e = encode_char(c);
                    let ghost ev = e@;
                    echoes.push(e);
                    assert(views(echoes@) =~= prev.push(ev));
                    assert(prev + (seq![ev] + edit(line_text(*msg), 0, input@.skip(i as int)).echoes)
                        =~= prev.push(ev) + edit(line_text(*msg), 0, input@.skip(i as int)).echoes);
                },
            }
        }
    }
    proof {
        assert(input@.skip(i as int) =~= Seq::<char>::empty());
        assert(views(echoes@) + Seq::<Seq<u8>>::empty() =~= views(echoes@));
    }
    (None, echoes)
}

/// Calls `str::chars` and collects the characters of `s` into a vector.
#[verifier::external_body]
fn str_chars(s: &str) -> (r: Vec<char>)
    ensures
        r@ == s@,
{
    s.chars().collect()
}


/// What a command line asks for, by its characters.
pub enum CommandKind {
    Help,
    Version,
    Reset,
    Clear,
    Unknown(Seq<char>),
}

/// The command named by a trimmed line `t`.
pub open spec fn command_of(t: Seq<char>) -> CommandKind {
    if t == "help"@ || t == "h"@ || t == "?"@ {
        CommandKind::Help
    } else if t == "version"@ || t == "ver"@ {
        CommandKind::Version
    } else if t == "reset"@ {
        CommandKind::Reset
    } else if t == "clear"@ {
        CommandKind::Clear
    } else {
        CommandKind::Unknown(t)
    }
}

/// A shell command.
pub enum Command<'a> {
    /// `help`, `h` or `?`: list the commands.
    Help,
    /// `version` or `ver`: show the firmware version.
    Version,
    /// `reset`: soft-reset the device.
    Reset,
    /// `clear`: clear the terminal screen.
    Clear,
    /// Anything else, trimmed.
    Unknown(&'a str),
}

impl<'a> Command<'a> {
    /// The command's kind, with the text of an unknown command.
    pub open spec fn kind(&self) -> CommandKind {
        match self {
            Command::Help => CommandKind::Help,
            Command::Version => CommandKind::Version,
            Command::Reset => CommandKind::Reset,
            Command::Clear => CommandKind::Clear,
            Command::Unknown(s) => CommandKind::Unknown(s@),
        }
    }
}

/// Reads a command line, ignoring surrounding white space.
pub fn parse_command(s: &str) -> (r: Command<'_>)
    ensures
        r.kind() == command_of(trim(s@)),
        (r is Reset) <==> trim(s@) == "reset"@,
        (r is Clear) <==> trim(s@) == "clear"@,
        (r is Help) <==> (trim(s@) == "help"@ || trim(s@) == "h"@ || trim(s@) == "?"@),
        (r is Version) <==> (trim(s@) == "version"@ || trim(s@) == "ver"@),
        r matches Command::Unknown(u) ==> u@ == trim(s@),
{
    proof {
        lemma_command_words(trim(s@));
    }
    let t = str_trim(s);
    if str_eq(t, "help") || str_eq(t, "h") || str_eq(t, "?") {
        Command::Help
    } else if str_eq(t, "version") || str_eq(t, "ver") {
        Command::Version
    } else if str_eq(t, "reset") {
        Command::Reset
    } else if str_eq(t, "clear") {
        Command::Clear
    } else {
        Command::Unknown(t)
    }
}

/// The command words: a trimmed line names a command exactly when it is one
/// of these words (`help`, `h` or `?`; `version` or `ver`; `reset`;
/// `clear`), and any other line is an unknown command that carries the
/// trimmed text. In particular, only the word `reset` asks for a reset.
pub proof fn lemma_command_words(t: Seq<char>)
    ensures
        (command_of(t) is Help) <==> (t == "help"@ || t == "h"@ || t == "?"@),
        (command_of(t) is Version) <==> (t == "version"@ || t == "ver"@),
        (command_of(t) is Reset) <==> t == "reset"@,
        (command_of(t) is Clear) <==> t == "clear"@,
        (command_of(t) is Unknown) <==> !(t == "help"@ || t == "h"@ || t == "?"@
            || t == "version"@ || t == "ver"@ || t == "reset"@ || t == "clear"@),
        command_of(t) matches CommandKind::Unknown(u) ==> u == t,
{
    reveal_strlit("help");
    reveal_strlit("h");
    reveal_strlit("?");
    reveal_strlit("version");
    reveal_strlit("ver");
    reveal_strlit("reset");
    reveal_strlit("clear");
    assert("help"@.len() == 4 && "h"@.len() == 1 && "?"@.len() == 1);
    assert("version"@.len() == 7 && "ver"@.len() == 3);
    assert("reset"@.len() == 5 && "clear"@.len() == 5);
    assert("h"@[0] != "?"@[0]);
    assert("reset"@[0] != "clear"@[0]);
}

/// Whether `w` appears in `m` as a run of consecutive characters.
pub open spec fn occurs_in(w: Seq<char>, m: Seq<char>) -> bool {
    exists|k: int| 0 <= k && k + w.len() <= m.len() && #[trigger] m.subrange(k, k + w.len()) == w
}

/// The help reply has seven messages: the firmware name, the version, a
/// rule, and one line for each command naming its words (`help`, `h`, `?`;
/// `version`; `reset`; `clear`). Every word that names a command appears in
/// one of the fixed lines of the listing.
pub proof fn lemma_help_lists_every_command(v: Seq<char>)
    ensures
        help_text(v).len() == 7,
        help_text(v)[1] == v,
        occurs_in("help"@, help_text(v)[3]),
        occurs_in("h"@, help_text(v)[3]),
        occurs_in("?"@, help_text(v)[3]),
        occurs_in("version"@, help_text(v)[4]),
        occurs_in("ver"@, help_text(v)[4]),
        occurs_in("reset"@, help_text(v)[5]),
        occurs_in("clear"@, help_text(v)[6]),
        forall|t: Seq<char>|
            !(#[trigger] command_of(t) is Unknown) ==> exists|i: int|
                2 <= i < 7 && occurs_in(t, #[trigger] help_text(v)[i]),
{
    let h = help_text(v);
    reveal_strlit("help");
    reveal_strlit("h");
    reveal_strlit("?");
    reveal_strlit("version");
    reveal_strlit("ver");
    reveal_strlit("reset");
    reveal_strlit("clear");
    reveal_strlit("  help / h / ?  show this message\r\n");
    reveal_strlit("  version        show firmware version\r\n");
    reveal_strlit("  reset          soft-reset the device\r\n");
    reveal_strlit("  clear          clear the terminal screen\r\n");
    assert(h[3].subrange(2, 6) =~= "help"@);
    assert(h[3].subrange(2, 3) =~= "h"@);
    assert(h[3].subrange(13, 14) =~= "?"@);
    assert(h[4].subrange(2, 9) =~= "version"@);
    assert(h[4].subrange(2, 5) =~= "ver"@);
    assert(h[5].subrange(2, 7) =~= "reset"@);
    assert(h[6].subrange(2, 7) =~= "clear"@);
    assert(h[3].subrange(2, 2 + "help"@.len() as int) == "help"@);
    assert(h[3].subrange(2, 2 + "h"@.len() as int) == "h"@);
    assert(h[3].subrange(13, 13 + "?"@.len() as int) == "?"@);
    assert(h[4].subrange(2, 2 + "version"@.len() as int) == "version"@);
    assert(h[4].subrange(2, 2 + "ver"@.len() as int) == "ver"@);
    assert(h[5].subrange(2, 2 + "reset"@.len() as int) == "reset"@);
    assert(h[6].subrange(2, 2 + "clear"@.len() as int) == "clear"@);
    assert forall|t: Seq<char>| !(#[trigger] command_of(t) is Unknown) implies exists|i: int|
        2 <= i < 7 && occurs_in(t, #[trigger] help_text(v)[i]) by {
        lemma_command_words(t);
        if t == "help"@ {
            assert(h[3].subrange(2, 2 + t.len() as int) == t);
            assert(2 <= 3 < 7 && occurs_in(t, help_text(v)[3]));
        } else if t == "h"@ {
            assert(h[3].subrange(2, 2 + t.len() as int) == t);
            assert(2 <= 3 < 7 && occurs_in(t, help_text(v)[3]));
        } else if t == "?"@ {
            assert(h[3].subrange(13, 13 + t.len() as int) == t);
            assert(2 <= 3 < 7 && occurs_in(t, help_text(v)[3]));
        } else if t == "version"@ {
            assert(h[4].subrange(2, 2 + t.len() as int) == t);
            assert(2 <= 4 < 7 && occurs_in(t, help_text(v)[4]));
        } else if t == "ver"@ {
            assert(h[4].subrange(2, 2 + t.len() as int) == t);
            assert(2 <= 4 < 7 && occurs_in(t, help_text(v)[4]));
        } else if t == "reset"@ {
            assert(h[5].subrange(2, 2 + t.len() as int) == t);
            assert(2 <= 5 < 7 && occurs_in(t, help_text(v)[5]));
        } else {
            assert(t == "clear"@);
            assert(h[6].subrange(2, 2 + t.len() as int) == t);
            assert(2 <= 6 < 7 && occurs_in(t, help_text(v)[6]));
        }
    }
}

/// The characters of a list of strings.
pub open spec fn texts(v: Seq<&str>) -> Seq<Seq<char>> {
    v.map_values(|m: &str| m@)
}

/// The help text for firmware version `version`, one message per line part.
pub open spec fn help_text(version: Seq<char>) -> Seq<Seq<char>> {
    seq![
        "chickadee-rp2350-base v"@,
        version,
        "\r\n---\r\n"@,
        "  help / h / ?  show this message\r\n"@,
        "  version        show firmware version\r\n"@,
        "  reset          soft-reset the device\r\n"@,
        "  clear          clear the terminal screen\r\n"@,
    ]
}

/// The messages that list the commands.
pub fn print_help<'a>(version: &'a str) -> (r: Vec<&'a str>)
    ensures
        texts(r@) == help_text(version@),
        r@.len() == 7,
        r@[1]@ == version@,
        forall|t: Seq<char>|
            !(#[trigger] command_of(t) is Unknown) ==> exists|i: int|
                2 <= i < 7 && occurs_in(t, #[trigger] texts(r@)[i]),
{
    proof {
        lemma_help_lists_every_command(version@);
    }
    let mut out: Vec<&'a str> = Vec::new();
    out.push("chickadee-rp2350-base v");
    out.push(version);
    out.push("\r\n---\r\n");
    out.push("  help / h / ?  show this message\r\n");
    out.push("  version        show firmware version\r\n");
    out.push("  reset          soft-reset the device\r\n");
    out.push("  clear          clear the terminal screen\r\n");
    assert(texts(out@) =~= help_text(version@));
    out
}

/// The shell's answer to a command line: the messages to send, one by one,
/// and whether the device is to reset afterwards.
pub struct Reply<'a> {
    pub messages: Vec<&'a str>,
    pub reset: bool,
}

/// The messages answering `cmd` on firmware version `version`.
pub open spec fn reply_text(cmd: CommandKind, version: Seq<char>) -> Seq<Seq<char>> {
    match cmd {
        CommandKind::Help => help_text(version),
        CommandKind::Version => seq!["chickadee-rp2350-base v"@, version, "\r\n"@],
        CommandKind::Reset => seq!["Resetting...\r\n"@],
        CommandKind::Clear => seq!["\x1b[2J\x1b[H"@],
        CommandKind::Unknown(c) => seq![
            "Unknown command: "@,
            c,
            "\r\nType 'help' for available commands.\r\n"@,
        ],
    }
}

/// Runs a command line: what to send back, and whether to reset.
pub fn dispatch<'a>(line: &'a str, version: &'a str) -> (r: Reply<'a>)
    ensures
        texts(r.messages@) == reply_text(command_of(trim(line@)), version@),
        r.reset == (command_of(trim(line@)) is Reset),
        r.reset == (trim(line@) == "reset"@),
{
    proof {
        lemma_command_words(trim(line@));
    }
    let cmd = parse_command(line);
    match cmd {
        Command::Help => Reply { messages: print_help(version), reset: false },
        Command::Version => {
            let mut out: Vec<&'a str> = Vec::new();
            out.push("chickadee-rp2350-base v");
            out.push(version);
            out.push("\r\n");
            assert(texts(out@) =~= reply_text(command_of(trim(line@)), version@));
            Reply { messages: out, reset: false }
        },
        Command::Reset => {
            let mut out: Vec<&'a str> = Vec::new();
            out.push("Resetting...\r\n");
            assert(texts(out@) =~= reply_text(command_of(trim(line@)), version@));
            Reply { messages: out, reset: true }
        },
        Command::Clear => {
            let mut out: Vec<&'a str> = Vec::new();
            out.push("\x1b[2J\x1b[H");
            assert(texts(out@) =~= reply_text(command_of(trim(line@)), version@));
            Reply { messages: out, reset: false }
        },
        Command::Unknown(c) => {
            let mut out: Vec<&'a str> = Vec::new();
            out.push("Unknown command: ");
            out.push(c);
            out.push("\r\nType 'help' for available commands.\r\n");
            assert(texts(out@) =~= reply_text(command_of(trim(line@)), version@));
            Reply { messages: out, reset: false }
        },
    }
}


/// Calls `core::str::from_utf8`, which accepts exactly the byte strings that
/// are valid UTF-8 and reads them as characters.
#[verifier::external_body]
fn str_from_utf8(bytes: &[u8]) -> (r: Option<&str>)
    ensures
        r is Some <==> valid_utf8(bytes@),
        r matches Some(s) ==> s@ == decode_utf8(bytes@),
{
    core::str::from_utf8(bytes).ok()
}

/// The UTF-8 bytes of each of a list of texts.
pub open spec fn encoded(texts: Seq<Seq<char>>) -> Seq<Seq<u8>> {
    texts.map_values(|t: Seq<char>| encode_utf8(t))
}

/// What the shell sends back for one received packet, one message each,
/// and whether the device is to reset after sending it.
pub struct PacketReply {
    pub messages: Vec<Vec<u8>>,
    pub reset: bool,
    /// The UTF-8 bytes of the line that was run, if one was completed.
    pub command: Option<Vec<u8>>,
}

/// The shell's handling of one packet from the host: packets that are not
/// UTF-8 are skipped (`None`); otherwise the characters are edited into the
/// line, and a completed line is run, answered, and cleared for the next
/// prompt (unless the device resets).
pub fn serial_packet(line: &mut heapless::String<64>, packet: &[u8], version: &str) -> (r: Option<PacketReply>)
    ensures
        r is None <==> !valid_utf8(packet@),
        r is None ==> line_text(*final(line)) == line_text(*old(line)),
        r matches Some(reply) ==> ({
            let e = edit(line_text(*old(line)), 0, decode_utf8(packet@));
            let cmd = command_of(trim(e.line));
            &&& (reply.command is Some <==> e.done)
            &&& (reply.command matches Some(c) ==> c@ == encode_utf8(e.line))
            &&& if !e.done {
                &&& views(reply.messages@) == e.echoes
                &&& !reply.reset
                &&& line_text(*final(line)) == e.line
            } else if cmd is Reset {
                &&& views(reply.messages@) == e.echoes + encoded(reply_text(cmd, version@))
                &&& reply.reset
                &&& line_text(*final(line)) == e.line
            } else {
                &&& views(reply.messages@) == e.echoes + encoded(reply_text(cmd, version@)) + seq![prompt_echo()]
                &&& !reply.reset
                &&& line_text(*final(line)) == Seq::<char>::empty()
            }
        }),
{
    let s = match str_from_utf8(packet) {
        Some(s) => s,
        None => return None,
    };
    let (ready, echoes) = process_input(line, s);
    let mut messages = echoes;
    if ready.is_none() {
        return Some(PacketReply { messages, reset: false, command: None });
    }
    let command = bytes_of(line_as_str(line));
    let ghost before = views(messages@);
    let reply = dispatch(line_as_str(line), version);
    let ghost texts_all = texts(reply.messages@);
    let mut k: usize = 0;
    while k < reply.messages.len()
        invariant
            k <= reply.messages@.len(),
            texts_all == texts(reply.messages@),
            views(messages@) == before + encoded(texts_all.subrange(0, k as int)),
        decreases reply.messages@.len() - k,
    {
        let m = bytes_of(reply.messages[k]);
        let ghost prev = views(messages@);
        let ghost mv = m@;
        messages.push(m);
        proof {
            assert(views(messages@) =~= prev.push(mv));
            assert(encoded(texts_all.subrange(0, k + 1)) =~= encoded(texts_all.subrange(0, k as int)).push(mv));
            assert(before + encoded(texts_all.subrange(0, k + 1))
                =~= before + encoded(texts_all.subrange(0, k as int)) + seq![mv]);
        }
        k = k + 1;
    }
    assert(texts_all.subrange(0, k as int) =~= texts_all);
    if reply.reset {
        return Some(PacketReply { messages, reset: true, command: Some(command) });
    }
    line_clear(line);
    let ghost prev = views(messages@);
    messages.push(bytes_of("\r\n> "));
    assert(views(messages@) =~= prev.push(prompt_echo()));
    assert(views(messages@) =~= prev + seq![prompt_echo()]);
    Some(PacketReply { messages, reset: false, command: Some(command) })
}


/// The greeting sent when a host opens the shell's port: the firmware's
/// name and a prompt.
pub open spec fn greeting_text() -> Seq<u8> {
    encode_utf8("chickadee-rp2350-base\r\n> "@)
}

/// What the shell sends when a host connects, before reading anything: the
/// greeting. The command line is kept as it was.
pub fn serial_connected() -> (r: PacketReply)
    ensures
        views(r.messages@) == seq![greeting_text()],
        !r.reset,
        r.command is None,
{
    let mut messages: Vec<Vec<u8>> = Vec::new();
    messages.push(bytes_of("chickadee-rp2350-base\r\n> "));
    assert(views(messages@) =~= seq![greeting_text()]);
    PacketReply { messages, reset: false, command: None }
}

} // verus!
