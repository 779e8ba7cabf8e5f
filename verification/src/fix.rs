//! The `fix` command: which recorded commands are sent, where the settings
//! are read from, and how the streamed answer is handled.

use vstd::prelude::*;

use crate::escape::{lemma_osc_terminator_skip, osc_starts_at, osc_terminator, BACKSLASH, BEL};
use crate::parser::{scan_regions, spec_osc_133_event};
use crate::helpers::{normalize_for_tty, spec_normalize_for_tty, CommandOutput};
use crate::text::{
    chars_of, decimal_spec, digit_value, digits_value, lemma_decimal_roundtrip, parse_u32,
    parse_u32_spec, push_decimal, IntParseFailure,
};

verus! {

/// How many of the most recent commands to send.
#[derive(Clone, Copy, Debug, PartialEq, Eq, Structural)]
pub enum Count {
    /// Every recorded command.
    All,
    /// At most this many, the most recent ones.
    Number(u32),
}

/// The word `all`.
pub open spec fn all_word() -> Seq<char> {
    seq!['a', 'l', 'l']
}

/// The text of a count: `all`, or the number in decimal.
pub open spec fn count_text_spec(c: Count) -> Seq<char> {
    match c {
        Count::All => all_word(),
        Count::Number(n) => decimal_spec(n as nat),
    }
}

/// The count a text names: `all`, or whatever `u32::from_str` reads.
pub open spec fn parse_count_spec(s: Seq<char>) -> Result<Count, IntParseFailure> {
    if s == all_word() {
        Ok(Count::All)
    } else {
        match parse_u32_spec(s) {
            Ok(n) => Ok(Count::Number(n as u32)),
            Err(e) => Err(e),
        }
    }
}

impl Count {
    /// The text of the count, as it is displayed: `all` or the number.
    pub fn to_text(&self) -> (res: String)
        ensures
            res@ == count_text_spec(*self),
    {
        match self {
            Count::All => {
                let word = ['a', 'l', 'l'];
                assert(word@.subrange(0, 3) =~= all_word());
                crate::text::string_from_chars(&word, 0, 3)
            },
            Count::Number(n) => {
                let mut s = String::new();
                push_decimal(&mut s, *n as u64);
                assert(s@ =~= decimal_spec(*n as nat));
                s
            },
        }
    }

    /// Reads a count: the word `all`, or a number as `u32::from_str` reads it.
    pub fn parse(s: &str) -> (res: Result<Count, IntParseFailure>)
        ensures
            res == parse_count_spec(s@),
            res matches Ok(Count::Number(n)) ==> parse_u32_spec(s@) == Ok::<int, IntParseFailure>(
                n as int,
            ),
    {
        proof {
            crate::text::lemma_parse_u32_in_range(s@);
        }
        let v = chars_of(s);
        if v.len() == 3 && v[0] == 'a' && v[1] == 'l' && v[2] == 'l' {
            assert(v@ =~= all_word());
            return Ok(Count::All);
        }
        assert(v@ != all_word()) by {
            if v@ == all_word() {
                assert(v@[0] == 'a' && v@[1] == 'l' && v@[2] == 'l');
            }
        }
        match parse_u32(v.as_slice()) {
            Ok(n) => Ok(Count::Number(n)),
            Err(e) => Err(e),
        }
    }
}

impl std::str::FromStr for Count {
    type Err = IntParseFailure;

    fn from_str(s: &str) -> (res: Result<Count, IntParseFailure>)
        ensures
            res == parse_count_spec(s@),
    {
        Count::parse(s)
    }
}

/// A count read back from its own text is the same count.
pub proof fn law_count_text_roundtrip(c: Count)
    ensures
        parse_count_spec(count_text_spec(c)) == Ok::<Count, IntParseFailure>(c),
{
    match c {
        Count::All => {},
        Count::Number(n) => {
            lemma_decimal_roundtrip(n as nat);
            let t = decimal_spec(n as nat);
            assert(t != all_word()) by {
                if t == all_word() {
                    assert(digit_value(t[0]) is Some);
                }
            }
            assert(t[0] != '+' && t[0] != '-');
            assert(parse_u32_spec(t) == digits_value(t));
        },
    }
}

/// The commands that `count` selects from `all`: every one, or the last
/// `n` (all of them when there are fewer), in their original order.
pub open spec fn selected_commands(all: Seq<CommandOutput>, count: Count) -> Seq<CommandOutput> {
    match count {
        Count::All => all,
        Count::Number(n) => if n >= all.len() {
            all
        } else {
            all.subrange(all.len() - n, all.len() as int)
        },
    }
}

/// Keeps the commands that `count` selects: all of them, or the most recent
/// `n`.
pub fn select_commands(all: Vec<CommandOutput>, count: Count) -> (res: Vec<CommandOutput>)
    ensures
        res@ == selected_commands(all@, count),
        count == Count::All ==> res@ == all@,
{
    match count {
        Count::All => all,
        Count::Number(n) => {
            let len = all.len();
            let n = n as usize;
            let start = if n >= len {
                0
            } else {
                len - n
            };
            let mut all = all;
            let res = all.split_off(start);
            assert(n >= len ==> res@ =~= all@ + res@);
            res
        },
    }
}

/// Selecting never yields more commands than asked for, and what it yields
/// is the tail of the recorded commands.
pub proof fn law_selection_is_recent_tail(all: Seq<CommandOutput>, n: u32)
    ensures
        selected_commands(all, Count::Number(n)).len() == if n < all.len() {
            n as int
        } else {
            all.len() as int
        },
        all.subrange(all.len() - selected_commands(all, Count::Number(n)).len(), all.len() as int)
            == selected_commands(all, Count::Number(n)),
{
    assert(all.subrange(0, all.len() as int) =~= all);
}

/// `--all` sends every recorded command, in the order they were run, and
/// selecting it is the same as asking for at least as many commands as there
/// are.
pub proof fn law_select_all_keeps_every_command(all: Seq<CommandOutput>, n: u32)
    ensures
        selected_commands(all, Count::All) == all,
        n >= all.len() ==> selected_commands(all, Count::Number(n)) == selected_commands(
            all,
            Count::All,
        ),
{
}

/// The count the `fix` options select: `--all` sends every command,
/// `--count n` the last `n`, and without either only the last one.
pub open spec fn fix_count_spec(count: Option<u32>, all: bool) -> Count {
    if all {
        Count::All
    } else {
        match count {
            Some(n) => Count::Number(n),
            None => Count::Number(1),
        }
    }
}

/// Reads the `fix` options `--count` and `--all` into a count.
pub fn fix_count(count: Option<u32>, all: bool) -> (res: Count)
    ensures
        res == fix_count_spec(count, all),
{
    if all {
        Count::All
    } else {
        match count {
            Some(n) => Count::Number(n),
            None => Count::Number(1),
        }
    }
}

/// Where the settings file is: `$HOME/.termfix/config.toml`. Without `HOME`
/// there is no path.
pub fn config_file_path(home: Option<&str>) -> (res: Option<String>)
    ensures
        match home {
            None => res is None,
            Some(h) => res matches Some(p) && p@ == h@ + "/.termfix/config.toml"@,
        },
{
    match home {
        None => None,
        Some(h) => {
            let mut path = h.to_string();
            path.append("/.termfix/config.toml");
            Some(path)
        },
    }
}

/// Where the log of a session is written: `$HOME/.termfix/logs/<timestamp>.json`,
/// the timestamp in decimal.
pub fn session_log_path(home: &str, timestamp: u64) -> (res: String)
    ensures
        res@ == home@ + "/.termfix/logs/"@ + decimal_spec(timestamp as nat) + ".json"@,
{
    let mut path = home.to_string();
    path.append("/.termfix/logs/");
    push_decimal(&mut path, timestamp);
    path.append(".json");
    path
}

/// The address of the diagnosis endpoint under the service's base address.
pub fn fix_endpoint(base: &str) -> (res: String)
    ensures
        res@ == base@ + "/api/fix"@,
{
    let mut s = base.to_string();
    s.append("/api/fix");
    s
}

/// The value of the `Authorization` header for an API key.
pub fn bearer_authorization(api_key: &str) -> (res: String)
    ensures
        res@ == "Bearer "@ + api_key@,
{
    let mut s = "Bearer ".to_string();
    s.append(api_key);
    s
}

/// The bytes `\ntermfix error: stream timed out after 15s idle\n`.
pub open spec fn stream_timeout_notice() -> Seq<u8> {
    seq![0x0au8, 0x74u8, 0x65u8, 0x72u8, 0x6du8, 0x66u8, 0x69u8, 0x78u8, 0x20u8, 0x65u8, 0x72u8, 0x72u8, 0x6fu8, 0x72u8, 0x3au8, 0x20u8, 0x73u8, 0x74u8, 0x72u8, 0x65u8, 0x61u8, 0x6du8, 0x20u8, 0x74u8, 0x69u8, 0x6du8, 0x65u8, 0x64u8, 0x20u8, 0x6fu8, 0x75u8, 0x74u8, 0x20u8, 0x61u8, 0x66u8, 0x74u8, 0x65u8, 0x72u8, 0x20u8, 0x31u8, 0x35u8, 0x73u8, 0x20u8, 0x69u8, 0x64u8, 0x6cu8, 0x65u8, 0x0au8]
}

/// The bytes `ESC ] 133;C BEL`: the mark that starts a command's output.
pub open spec fn output_start_marker() -> Seq<u8> {
    seq![0x1bu8, 0x5du8, 0x31u8, 0x33u8, 0x33u8, 0x3bu8, 0x43u8, 0x07u8]
}

/// The mark written before a streamed answer, so that the answer is recorded
/// as the output of the command that asked for it.
pub fn output_start_marker_bytes() -> (res: Vec<u8>)
    ensures
        res@ == output_start_marker(),
{
    vec![0x1bu8, 0x5du8, 0x31u8, 0x33u8, 0x33u8, 0x3bu8, 0x43u8, 0x07u8]
}

/// What happened while waiting for the next piece of a streamed answer.
pub enum StreamEvent {
    /// A piece of the answer arrived.
    Chunk(Vec<u8>),
    /// Reading the answer failed.
    ReadFailed,
    /// The answer is complete.
    Finished,
    /// Nothing arrived for the idle limit.
    TimedOut,
}

/// What to do next with a streamed answer.
pub enum StreamAction {
    /// Show these bytes, record them, and wait for more.
    Echo(Vec<u8>),
    /// Give up with a read error.
    Fail,
    /// The answer is done.
    Stop,
    /// Show and record these bytes, then stop.
    Notify(Vec<u8>),
}

/// Decides what to do with one event of a streamed answer: a piece is
/// shown after normalizing its line ends; an idle timeout is reported in the
/// terminal and ends the answer without an error.
pub fn next_stream_action(event: StreamEvent) -> (res: StreamAction)
    ensures
        match event {
            StreamEvent::Chunk(b) => res matches StreamAction::Echo(out) && out@
                == spec_normalize_for_tty(b@),
            StreamEvent::ReadFailed => res is Fail,
            StreamEvent::Finished => res is Stop,
            StreamEvent::TimedOut => res matches StreamAction::Notify(out) && out@
                == spec_normalize_for_tty(stream_timeout_notice()),
        },
{
    match event {
        StreamEvent::Chunk(b) => StreamAction::Echo(normalize_for_tty(b)),
        StreamEvent::ReadFailed => StreamAction::Fail,
        StreamEvent::Finished => StreamAction::Stop,
        StreamEvent::TimedOut => StreamAction::Notify(normalize_for_tty(vec![0x0au8, 0x74u8, 0x65u8, 0x72u8, 0x6du8, 0x66u8, 0x69u8, 0x78u8, 0x20u8, 0x65u8, 0x72u8, 0x72u8, 0x6fu8, 0x72u8, 0x3au8, 0x20u8, 0x73u8, 0x74u8, 0x72u8, 0x65u8, 0x61u8, 0x6du8, 0x20u8, 0x74u8, 0x69u8, 0x6du8, 0x65u8, 0x64u8, 0x20u8, 0x6fu8, 0x75u8, 0x74u8, 0x20u8, 0x61u8, 0x66u8, 0x74u8, 0x65u8, 0x72u8, 0x20u8, 0x31u8, 0x35u8, 0x73u8, 0x20u8, 0x69u8, 0x64u8, 0x6cu8, 0x65u8, 0x0au8])),
    }
}

/// Wherever the output-start mark appears in a recorded session, what
/// follows it is gathered as the output of the current command (until the
/// next mark), whatever region the scan was in before: a streamed answer
/// written after the mark is recorded as command output.
pub proof fn law_output_marker_starts_output(
    s: Seq<u8>,
    i: int,
    cmd: Seq<u8>,
    out: Seq<u8>,
    in_cmd: bool,
    in_out: bool,
)
    requires
        0 <= i,
        i + 8 <= s.len(),
        s.subrange(i, i + 8) == output_start_marker(),
    ensures
        scan_regions(s, i, cmd, out, in_cmd, in_out) == scan_regions(s, i + 8, cmd, out, false, true),
{
    let m = output_start_marker();
    assert forall|k: int| 0 <= k < 8 implies #[trigger] s[i + k] == m[k] by {
        assert(s.subrange(i, i + 8)[k] == s[i + k]);
    }
    assert(s[i] == m[0] && s[i + 1] == m[1]);
    assert(osc_starts_at(s, i));
    assert forall|k: int| i + 2 <= k < i + 7 && k < s.len() implies s[k] != BEL && !(#[trigger] s[k]
        == crate::escape::ESC && k + 1 < s.len() && s[k + 1] == BACKSLASH) by {
        assert(s[i + (k - i)] == m[k - i]);
    }
    lemma_osc_terminator_skip(s, i + 2, i + 7);
    assert(s[i + 7] == m[7]);
    assert(osc_terminator(s, i + 7) == Some((i + 7, 1int)));
    let body = s.subrange(i + 2, i + 7);
    assert(body[0] == s[i + 2] && body[1] == s[i + 3] && body[2] == s[i + 4] && body[3] == s[i + 5]
        && body[4] == s[i + 6]);
    assert(spec_osc_133_event(body) == Some(0x43u8));
}

} // verus!
