//! Splitting a recorded session into the commands that were run and what
//! each of them printed, using the OSC 133 marks the shell hooks emit.

use vstd::prelude::*;

use crate::text::{trim, trim_end_spec, trim_output, trim_spec, trim_start_line_breaks_spec};
use crate::escape::{
    find_osc_terminator, lemma_osc_terminator_bounds, lemma_osc_terminator_none,
    lemma_osc_terminator_prefix,
    lemma_osc_terminator_shift, lemma_osc_terminator_skip, osc_starts_at, osc_terminator,
    BACKSLASH, BEL, ESC, RBRACKET,
};

verus! {

/// The `k` of a legacy title sequence `ESC k ... ESC \`.
pub const TITLE_K: u8 = 0x6b;

/// Where scanning resumes after a legacy title sequence whose text starts at
/// `k`: just past its `ESC \`, or, when there is none, at the last byte of
/// the input (or at `k` itself when `k` is already at or past the last byte).
pub open spec fn title_end(s: Seq<u8>, k: int) -> int
    decreases s.len() - k,
{
    if k + 1 < s.len() {
        if s[k] == ESC && s[k + 1] == BACKSLASH {
            k + 2
        } else {
            title_end(s, k + 1)
        }
    } else {
        k
    }
}

pub proof fn lemma_title_end_bounds(s: Seq<u8>, k: int)
    ensures
        title_end(s, k) >= k,
        k <= s.len() ==> title_end(s, k) <= s.len(),
    decreases s.len() - k,
{
    if k + 1 < s.len() && !(s[k] == ESC && s[k + 1] == BACKSLASH) {
        lemma_title_end_bounds(s, k + 1);
    }
}

/// The bytes of `s` from position `i` on, with legacy title sequences removed.
pub open spec fn strip_titles_from(s: Seq<u8>, i: int) -> Seq<u8>
    decreases s.len() - i,
{
    if i < 0 || i >= s.len() {
        Seq::empty()
    } else if s[i] == ESC && i + 1 < s.len() && s[i + 1] == TITLE_K {
        proof {
            lemma_title_end_bounds(s, i + 2);
        }
        strip_titles_from(s, title_end(s, i + 2))
    } else {
        seq![s[i]] + strip_titles_from(s, i + 1)
    }
}

/// `s` without the legacy title sequences some zsh prompts emit.
pub open spec fn spec_strip_legacy_title_sequences(s: Seq<u8>) -> Seq<u8> {
    strip_titles_from(s, 0)
}

/// Removes the legacy title sequences `ESC k ... ESC \` that some zsh prompt
/// setups emit, keeping every other byte in order.
pub fn strip_legacy_title_sequences(input: &[u8]) -> (res: Vec<u8>)
    ensures
        res@ == spec_strip_legacy_title_sequences(input@),
{
    let mut out: Vec<u8> = Vec::new();
    let len = input.len();
    let mut i: usize = 0;
    while i < len
        invariant
            len == input@.len(),
            i <= len,
            out@ + strip_titles_from(input@, i as int) == spec_strip_legacy_title_sequences(
                input@,
            ),
        decreases len - i,
    {
        if input[i] == ESC && i + 1 < len && input[i + 1] == TITLE_K {
            let ghost start = i + 2;
            i += 2;
            let mut closed = false;
            while !closed && i < len && i + 1 < len
                invariant
                    len == input@.len(),
                    start <= i <= len,
                    !closed ==> title_end(input@, start) == title_end(input@, i as int),
                    closed ==> title_end(input@, start) == i,
                decreases len - i,
            {
                if input[i] == ESC && input[i + 1] == BACKSLASH {
                    i += 2;
                    closed = true;
                } else {
                    i += 1;
                }
            }
            proof {
                lemma_title_end_bounds(input@, start);
            }
            assert(i == title_end(input@, start));
            continue;
        }
        let ghost before = out@;
        out.push(input[i]);
        assert(out@ + strip_titles_from(input@, i + 1) =~= before + strip_titles_from(
            input@,
            i as int,
        ));
        i += 1;
    }
    assert(out@ + Seq::<u8>::empty() =~= out@);
    out
}

/// The OSC 133 event letter carried by an OSC body of the form `133;X...`.
pub open spec fn spec_osc_133_event(body: Seq<u8>) -> Option<u8> {
    if body.len() > 4 && body[0] == 0x31 && body[1] == 0x33 && body[2] == 0x33 && body[3] == 0x3b {
        Some(body[4])
    } else {
        None
    }
}

fn osc_133_event_at(s: &[u8], start: usize, end: usize) -> (res: Option<u8>)
    requires
        start <= end <= s@.len(),
    ensures
        res == spec_osc_133_event(s@.subrange(start as int, end as int)),
{
    let ghost body = s@.subrange(start as int, end as int);
    if end - start > 4 && s[start] == 0x31 && s[start + 1] == 0x33 && s[start + 2] == 0x33 && s[start
        + 3] == 0x3b {
        assert(body[4] == s@[start + 4]);
        Some(s[start + 4])
    } else {
        proof {
            if body.len() > 4 {
                assert(body[0] == s@[start as int]);
                assert(body[1] == s@[start + 1]);
                assert(body[2] == s@[start + 2]);
                assert(body[3] == s@[start + 3]);
            }
        }
        None
    }
}

/// The event letter of an OSC 133 body (`133;B`, `133;C`, `133;D;0`, ...):
/// the byte right after the `133;` prefix, if there is one.
pub fn parse_osc_133_event(body: &[u8]) -> (res: Option<u8>)
    ensures
        res == spec_osc_133_event(body@),
{
    assert(body@.subrange(0, body@.len() as int) =~= body@);
    osc_133_event_at(body, 0, body.len())
}

/// The prompt has been drawn; the command line starts (`133;B`).
pub const EVENT_COMMAND_START: u8 = 0x42;

/// The command line was submitted; its output starts (`133;C`).
pub const EVENT_OUTPUT_START: u8 = 0x43;

/// The command finished (`133;D`).
pub const EVENT_COMMAND_END: u8 = 0x44;

/// The raw bytes of one finished command: what was typed on its command
/// line and what it printed, escape sequences still in place.
pub struct CommandRegions {
    pub command: Vec<u8>,
    pub output: Vec<u8>,
}

/// A command's raw regions as plain byte sequences.
pub open spec fn regions_view(r: CommandRegions) -> (Seq<u8>, Seq<u8>) {
    (r.command@, r.output@)
}

pub open spec fn regions_seq_view(v: Seq<CommandRegions>) -> Seq<(Seq<u8>, Seq<u8>)> {
    v.map_values(|r: CommandRegions| regions_view(r))
}

/// The commands found from position `i` on, given the command and output
/// bytes gathered so far and which of the two regions the scan is in.
/// A `B` mark starts a new command line, a `C` mark switches to its output,
/// and a `D` mark closes the command, which is kept when either region holds
/// a byte. Bytes outside both regions, and every OSC sequence, are not
/// gathered. An OSC sequence without terminator ends the scan.
pub open spec fn scan_regions(
    s: Seq<u8>,
    i: int,
    cmd: Seq<u8>,
    out: Seq<u8>,
    in_cmd: bool,
    in_out: bool,
) -> Seq<(Seq<u8>, Seq<u8>)>
    decreases s.len() - i,
{
    if i < 0 || i >= s.len() {
        Seq::empty()
    } else if osc_starts_at(s, i) {
        match osc_terminator(s, i + 2) {
            None => Seq::empty(),
            Some((e, t)) => {
                proof {
                    lemma_osc_terminator_bounds(s, i + 2);
                }
                let next = e + t;
                match spec_osc_133_event(s.subrange(i + 2, e)) {
                    Some(ev) => if ev == EVENT_COMMAND_START {
                        scan_regions(s, next, Seq::empty(), out, true, false)
                    } else if ev == EVENT_OUTPUT_START {
                        scan_regions(s, next, cmd, out, false, true)
                    } else if ev == EVENT_COMMAND_END {
                        (if cmd.len() > 0 || out.len() > 0 {
                            seq![(cmd, out)]
                        } else {
                            Seq::empty()
                        }) + scan_regions(s, next, Seq::empty(), Seq::empty(), false, false)
                    } else {
                        scan_regions(s, next, cmd, out, in_cmd, in_out)
                    },
                    None => scan_regions(s, next, cmd, out, in_cmd, in_out),
                }
            },
        }
    } else if in_cmd {
        scan_regions(s, i + 1, cmd.push(s[i]), out, in_cmd, in_out)
    } else if in_out {
        scan_regions(s, i + 1, cmd, out.push(s[i]), in_cmd, in_out)
    } else {
        scan_regions(s, i + 1, cmd, out, in_cmd, in_out)
    }
}

/// The commands of a recorded session, in the order they finished.
pub open spec fn spec_command_regions(s: Seq<u8>) -> Seq<(Seq<u8>, Seq<u8>)> {
    scan_regions(s, 0, Seq::empty(), Seq::empty(), false, false)
}

/// Splits a recorded session into the raw command line and output of each
/// finished command, following the OSC 133 `B`, `C` and `D` marks.
pub fn split_command_regions(input: &[u8]) -> (res: Vec<CommandRegions>)
    ensures
        regions_seq_view(res@) == spec_command_regions(input@),
{
    let ghost s = input@;
    let len = input.len();
    let mut command_region: Vec<u8> = Vec::new();
    let mut output_region: Vec<u8> = Vec::new();
    let mut in_command_region = false;
    let mut in_output_region = false;
    let mut res: Vec<CommandRegions> = Vec::new();
    let mut i: usize = 0;
    while i < len
        invariant
            len == s.len(),
            s == input@,
            i <= len,
            regions_seq_view(res@) + scan_regions(
                s,
                i as int,
                command_region@,
                output_region@,
                in_command_region,
                in_output_region,
            ) == spec_command_regions(s),
        decreases len - i,
    {
        let ghost found_before = regions_seq_view(res@);
        if input[i] == ESC && i + 1 < len && input[i + 1] == crate::escape::RBRACKET {
            proof {
                lemma_osc_terminator_bounds(s, i + 2);
            }
            match find_osc_terminator(input, i + 2) {
                None => {
                    assert(found_before + Seq::<(Seq<u8>, Seq<u8>)>::empty() =~= found_before);
                    i = len;
                },
                Some((end_idx, term_len)) => {
                    let event = osc_133_event_at(input, i + 2, end_idx);
                    match event {
                        Some(ev) => {
                            if ev == EVENT_COMMAND_START {
                                command_region.clear();
                                in_command_region = true;
                                in_output_region = false;
                            } else if ev == EVENT_OUTPUT_START {
                                in_command_region = false;
                                in_output_region = true;
                            } else if ev == EVENT_COMMAND_END {
                                let ghost cmd = command_region@;
                                let ghost out = output_region@;
                                if !command_region.is_empty() || !output_region.is_empty() {
                                    let mut command: Vec<u8> = Vec::new();
                                    let mut output: Vec<u8> = Vec::new();
                                    std::mem::swap(&mut command, &mut command_region);
                                    std::mem::swap(&mut output, &mut output_region);
                                    res.push(CommandRegions { command, output });
                                    assert(regions_seq_view(res@) =~= found_before + seq![
                                        (cmd, out),
                                    ]);
                                } else {
                                    assert(found_before + Seq::<(Seq<u8>, Seq<u8>)>::empty()
                                        =~= found_before);
                                }
                                command_region.clear();
                                output_region.clear();
                                in_command_region = false;
                                in_output_region = false;
                            }
                        },
                        None => {},
                    }
                    i = end_idx + term_len;
                },
            }
        } else {
            if in_command_region {
                command_region.push(input[i]);
            } else if in_output_region {
                output_region.push(input[i]);
            }
            i += 1;
        }
    }
    assert(regions_seq_view(res@) + Seq::<(Seq<u8>, Seq<u8>)>::empty() =~= regions_seq_view(
        res@,
    ));
    res
}

/// Turns the rendered text of a command line and of its output into a
/// recorded command: the command line trimmed of white space, the output
/// without its leading line breaks and trailing white space. A command line
/// that is blank once trimmed records nothing.
pub fn finish_command(command_text: &str, output_text: &str) -> (res: Option<(String, String)>)
    ensures
        res is Some <==> trim_spec(command_text@).len() > 0,
        res matches Some((c, o)) ==> c@ == trim_spec(command_text@) && o@ == trim_end_spec(
            trim_start_line_breaks_spec(output_text@),
        ),
{
    let command = trim(command_text);
    if command.as_str().unicode_len() == 0 {
        return None;
    }
    let output = trim_output(output_text);
    Some((command, output))
}

proof fn lemma_plain_titles_from(s: Seq<u8>, i: int)
    requires
        0 <= i <= s.len(),
        forall|k: int| 0 <= k < s.len() ==> #[trigger] s[k] != ESC,
    ensures
        strip_titles_from(s, i) == s.subrange(i, s.len() as int),
    decreases s.len() - i,
{
    if i < s.len() {
        lemma_plain_titles_from(s, i + 1);
        assert(seq![s[i]] + s.subrange(i + 1, s.len() as int) =~= s.subrange(i, s.len() as int));
    } else {
        assert(s.subrange(i, s.len() as int) =~= Seq::<u8>::empty());
    }
}

/// Text without escape sequences has no title sequence to strip: it comes
/// back unchanged.
pub proof fn law_plain_text_keeps_its_title_bytes(s: Seq<u8>)
    requires
        forall|k: int| 0 <= k < s.len() ==> #[trigger] s[k] != ESC,
    ensures
        spec_strip_legacy_title_sequences(s) == s,
{
    lemma_plain_titles_from(s, 0);
    assert(s.subrange(0, s.len() as int) =~= s);
}

/// Every pair in `r` has a command byte or an output byte.
pub open spec fn all_regions_nonempty(r: Seq<(Seq<u8>, Seq<u8>)>) -> bool {
    forall|k: int| 0 <= k < r.len() ==> (#[trigger] r[k]).0.len() > 0 || r[k].1.len() > 0
}

proof fn lemma_scan_regions_nonempty(
    s: Seq<u8>,
    i: int,
    cmd: Seq<u8>,
    out: Seq<u8>,
    in_cmd: bool,
    in_out: bool,
)
    ensures
        all_regions_nonempty(scan_regions(s, i, cmd, out, in_cmd, in_out)),
    decreases s.len() - i,
{
    if 0 <= i < s.len() {
        if osc_starts_at(s, i) {
            lemma_osc_terminator_bounds(s, i + 2);
            match osc_terminator(s, i + 2) {
                None => {},
                Some((e, t)) => {
                    let next = e + t;
                    lemma_scan_regions_nonempty(s, next, Seq::empty(), out, true, false);
                    lemma_scan_regions_nonempty(s, next, cmd, out, false, true);
                    lemma_scan_regions_nonempty(s, next, cmd, out, in_cmd, in_out);
                    lemma_scan_regions_nonempty(s, next, Seq::empty(), Seq::empty(), false, false);
                    let rest = scan_regions(s, next, Seq::empty(), Seq::empty(), false, false);
                    let head: Seq<(Seq<u8>, Seq<u8>)> = if cmd.len() > 0 || out.len() > 0 {
                        seq![(cmd, out)]
                    } else {
                        Seq::empty()
                    };
                    assert forall|k: int| 0 <= k < (head + rest).len() implies (#[trigger] (head
                        + rest)[k]).0.len() > 0 || (head + rest)[k].1.len() > 0 by {
                        if k >= head.len() {
                            assert((head + rest)[k] == rest[k - head.len()]);
                        }
                    }
                },
            }
        } else if in_cmd {
            lemma_scan_regions_nonempty(s, i + 1, cmd.push(s[i]), out, in_cmd, in_out);
        } else if in_out {
            lemma_scan_regions_nonempty(s, i + 1, cmd, out.push(s[i]), in_cmd, in_out);
        } else {
            lemma_scan_regions_nonempty(s, i + 1, cmd, out, in_cmd, in_out);
        }
    }
}

/// A command with neither command-line bytes nor output bytes is never
/// recorded.
pub proof fn law_recorded_commands_are_nonempty(s: Seq<u8>)
    ensures
        all_regions_nonempty(spec_command_regions(s)),
{
    lemma_scan_regions_nonempty(s, 0, Seq::empty(), Seq::empty(), false, false);
}

proof fn lemma_scan_without_osc(
    s: Seq<u8>,
    i: int,
    cmd: Seq<u8>,
    out: Seq<u8>,
    in_cmd: bool,
    in_out: bool,
)
    requires
        forall|k: int| 0 <= k < s.len() ==> #[trigger] s[k] != ESC,
    ensures
        scan_regions(s, i, cmd, out, in_cmd, in_out) == Seq::<(Seq<u8>, Seq<u8>)>::empty(),
    decreases s.len() - i,
{
    if 0 <= i < s.len() {
        assert(!osc_starts_at(s, i));
        if in_cmd {
            lemma_scan_without_osc(s, i + 1, cmd.push(s[i]), out, in_cmd, in_out);
        } else if in_out {
            lemma_scan_without_osc(s, i + 1, cmd, out.push(s[i]), in_cmd, in_out);
        } else {
            lemma_scan_without_osc(s, i + 1, cmd, out, in_cmd, in_out);
        }
    }
}

/// Without the shell hooks' marks there are no commands to record.
pub proof fn law_no_marks_no_commands(s: Seq<u8>)
    requires
        forall|k: int| 0 <= k < s.len() ==> #[trigger] s[k] != ESC,
    ensures
        spec_command_regions(s) == Seq::<(Seq<u8>, Seq<u8>)>::empty(),
{
    lemma_scan_without_osc(s, 0, Seq::empty(), Seq::empty(), false, false);
}

/// Where the command scan from position `i` ends and in which state: at the
/// end of `s`, or at an OSC sequence left unterminated, with the command and
/// output bytes gathered and the region flags at that point.
pub open spec fn scan_end(
    s: Seq<u8>,
    i: int,
    cmd: Seq<u8>,
    out: Seq<u8>,
    in_cmd: bool,
    in_out: bool,
) -> (int, Seq<u8>, Seq<u8>, bool, bool)
    decreases s.len() - i,
{
    if i < 0 || i >= s.len() {
        (s.len() as int, cmd, out, in_cmd, in_out)
    } else if osc_starts_at(s, i) {
        match osc_terminator(s, i + 2) {
            None => (i, cmd, out, in_cmd, in_out),
            Some((e, t)) => {
                proof {
                    lemma_osc_terminator_bounds(s, i + 2);
                }
                let next = e + t;
                match spec_osc_133_event(s.subrange(i + 2, e)) {
                    Some(ev) => if ev == EVENT_COMMAND_START {
                        scan_end(s, next, Seq::empty(), out, true, false)
                    } else if ev == EVENT_OUTPUT_START {
                        scan_end(s, next, cmd, out, false, true)
                    } else if ev == EVENT_COMMAND_END {
                        scan_end(s, next, Seq::empty(), Seq::empty(), false, false)
                    } else {
                        scan_end(s, next, cmd, out, in_cmd, in_out)
                    },
                    None => scan_end(s, next, cmd, out, in_cmd, in_out),
                }
            },
        }
    } else if in_cmd {
        scan_end(s, i + 1, cmd.push(s[i]), out, in_cmd, in_out)
    } else if in_out {
        scan_end(s, i + 1, cmd, out.push(s[i]), in_cmd, in_out)
    } else {
        scan_end(s, i + 1, cmd, out, in_cmd, in_out)
    }
}

proof fn lemma_scan_end_stop(
    s: Seq<u8>,
    i: int,
    cmd: Seq<u8>,
    out: Seq<u8>,
    in_cmd: bool,
    in_out: bool,
)
    requires
        0 <= i <= s.len(),
    ensures
        ({
            let u = scan_end(s, i, cmd, out, in_cmd, in_out).0;
            i <= u <= s.len() && (u < s.len() ==> osc_starts_at(s, u) && osc_terminator(s, u + 2)
                is None)
        }),
    decreases s.len() - i,
{
    if i < s.len() {
        if osc_starts_at(s, i) {
            lemma_osc_terminator_bounds(s, i + 2);
            if let Some((e, t)) = osc_terminator(s, i + 2) {
                let next = e + t;
                lemma_scan_end_stop(s, next, Seq::empty(), out, true, false);
                lemma_scan_end_stop(s, next, cmd, out, false, true);
                lemma_scan_end_stop(s, next, Seq::empty(), Seq::empty(), false, false);
                lemma_scan_end_stop(s, next, cmd, out, in_cmd, in_out);
            }
        } else if in_cmd {
            lemma_scan_end_stop(s, i + 1, cmd.push(s[i]), out, in_cmd, in_out);
        } else if in_out {
            lemma_scan_end_stop(s, i + 1, cmd, out.push(s[i]), in_cmd, in_out);
        } else {
            lemma_scan_end_stop(s, i + 1, cmd, out, in_cmd, in_out);
        }
    }
}

/// The command scan of `p + q` from inside `q` is the scan of `q`.
proof fn lemma_scan_regions_shift(
    p: Seq<u8>,
    q: Seq<u8>,
    k: int,
    cmd: Seq<u8>,
    out: Seq<u8>,
    in_cmd: bool,
    in_out: bool,
)
    requires
        0 <= k,
    ensures
        scan_regions(p + q, p.len() + k, cmd, out, in_cmd, in_out) == scan_regions(
            q,
            k,
            cmd,
            out,
            in_cmd,
            in_out,
        ),
    decreases q.len() - k,
{
    let s = p + q;
    let o = p.len() as int;
    if k < q.len() {
        assert(s[o + k] == q[k]);
        if k + 1 < q.len() {
            assert(s[o + k + 1] == q[k + 1]);
        }
        if osc_starts_at(q, k) {
            lemma_osc_terminator_shift(p, q, k + 2);
            lemma_osc_terminator_bounds(q, k + 2);
            if let Some((e, t)) = osc_terminator(q, k + 2) {
                let next = e + t;
                assert(s.subrange(o + k + 2, o + e) =~= q.subrange(k + 2, e));
                lemma_scan_regions_shift(p, q, next, Seq::empty(), out, true, false);
                lemma_scan_regions_shift(p, q, next, cmd, out, false, true);
                lemma_scan_regions_shift(p, q, next, Seq::empty(), Seq::empty(), false, false);
                lemma_scan_regions_shift(p, q, next, cmd, out, in_cmd, in_out);
            }
        } else {
            assert(!osc_starts_at(s, o + k));
            if in_cmd {
                lemma_scan_regions_shift(p, q, k + 1, cmd.push(q[k]), out, in_cmd, in_out);
            } else if in_out {
                lemma_scan_regions_shift(p, q, k + 1, cmd, out.push(q[k]), in_cmd, in_out);
            } else {
                lemma_scan_regions_shift(p, q, k + 1, cmd, out, in_cmd, in_out);
            }
        }
    }
}

/// The command scan of `a + b` from inside `a` finds what the scan of `a`
/// finds, then goes on from where and in the state in which `a`'s scan
/// ended; unless `a` ends with an `ESC` that `b` turns into an OSC start.
proof fn lemma_scan_regions_concat(
    a: Seq<u8>,
    b: Seq<u8>,
    i: int,
    cmd: Seq<u8>,
    out: Seq<u8>,
    in_cmd: bool,
    in_out: bool,
)
    requires
        0 <= i <= a.len(),
        !(a.len() > 0 && a.last() == ESC && b.len() > 0 && b[0] == RBRACKET),
    ensures
        ({
            let e = scan_end(a, i, cmd, out, in_cmd, in_out);
            scan_regions(a + b, i, cmd, out, in_cmd, in_out) == scan_regions(
                a,
                i,
                cmd,
                out,
                in_cmd,
                in_out,
            ) + scan_regions(a + b, e.0, e.1, e.2, e.3, e.4)
        }),
    decreases a.len() - i,
{
    let s = a + b;
    let e = scan_end(a, i, cmd, out, in_cmd, in_out);
    if i == a.len() {
        assert(Seq::<(Seq<u8>, Seq<u8>)>::empty() + scan_regions(s, i, cmd, out, in_cmd, in_out)
            =~= scan_regions(s, i, cmd, out, in_cmd, in_out));
    } else {
        assert(s[i] == a[i]);
        if i + 1 < a.len() {
            assert(s[i + 1] == a[i + 1]);
        }
        if osc_starts_at(a, i) {
            assert(osc_starts_at(s, i));
            lemma_osc_terminator_bounds(a, i + 2);
            match osc_terminator(a, i + 2) {
                None => {
                    assert(Seq::<(Seq<u8>, Seq<u8>)>::empty() + scan_regions(
                        s,
                        i,
                        cmd,
                        out,
                        in_cmd,
                        in_out,
                    ) =~= scan_regions(s, i, cmd, out, in_cmd, in_out));
                },
                Some((en, t)) => {
                    lemma_osc_terminator_prefix(a, b, i + 2);
                    let next = en + t;
                    assert(s.subrange(i + 2, en) =~= a.subrange(i + 2, en));
                    lemma_scan_regions_concat(a, b, next, Seq::empty(), out, true, false);
                    lemma_scan_regions_concat(a, b, next, cmd, out, false, true);
                    lemma_scan_regions_concat(a, b, next, Seq::empty(), Seq::empty(), false, false);
                    lemma_scan_regions_concat(a, b, next, cmd, out, in_cmd, in_out);
                    let rest = scan_regions(s, e.0, e.1, e.2, e.3, e.4);
                    let head: Seq<(Seq<u8>, Seq<u8>)> = if cmd.len() > 0 || out.len() > 0 {
                        seq![(cmd, out)]
                    } else {
                        Seq::empty()
                    };
                    let mid = scan_regions(a, next, Seq::empty(), Seq::empty(), false, false);
                    assert(head + (mid + rest) =~= (head + mid) + rest);
                },
            }
        } else {
            if a[i] == ESC && i + 1 == a.len() {
                assert(!osc_starts_at(s, i));
            }
            assert(!osc_starts_at(s, i));
            if in_cmd {
                lemma_scan_regions_concat(a, b, i + 1, cmd.push(a[i]), out, in_cmd, in_out);
            } else if in_out {
                lemma_scan_regions_concat(a, b, i + 1, cmd, out.push(a[i]), in_cmd, in_out);
            } else {
                lemma_scan_regions_concat(a, b, i + 1, cmd, out, in_cmd, in_out);
            }
        }
    }
}

/// The OSC sequence `ESC ] body BEL`.
pub open spec fn osc_sequence(body: Seq<u8>) -> Seq<u8> {
    seq![ESC, RBRACKET] + body + seq![BEL]
}

/// An OSC body that carries none of the `B`, `C`, `D` marks.
pub open spec fn is_unmarked_osc_body(body: Seq<u8>) -> bool {
    &&& forall|m: int| 0 <= m < body.len() ==> #[trigger] body[m] != BEL && body[m] != ESC
    &&& spec_osc_133_event(body) matches Some(ev) ==> ev != EVENT_COMMAND_START && ev
        != EVENT_OUTPUT_START && ev != EVENT_COMMAND_END
}

/// The scan passes over a complete OSC sequence without a region mark
/// leaving its state as it was.
proof fn lemma_scan_skips_unmarked_osc(
    body: Seq<u8>,
    b: Seq<u8>,
    cmd: Seq<u8>,
    out: Seq<u8>,
    in_cmd: bool,
    in_out: bool,
)
    requires
        is_unmarked_osc_body(body),
    ensures
        scan_regions(osc_sequence(body) + b, 0, cmd, out, in_cmd, in_out) == scan_regions(
            b,
            0,
            cmd,
            out,
            in_cmd,
            in_out,
        ),
{
    let o = osc_sequence(body);
    let s = o + b;
    let e = o.len() - 1;
    assert(s[0] == ESC && s[1] == RBRACKET);
    assert(osc_starts_at(s, 0));
    assert forall|m: int| 2 <= m < e && m < s.len() implies s[m] != BEL && !(#[trigger] s[m] == ESC
        && m + 1 < s.len() && s[m + 1] == BACKSLASH) by {
        assert(s[m] == body[m - 2]);
    }
    lemma_osc_terminator_skip(s, 2, e);
    assert(s[e] == BEL);
    assert(osc_terminator(s, e) == Some((e, 1int)));
    assert(s.subrange(2, e) =~= body);
    lemma_scan_regions_shift(o, b, 0, cmd, out, in_cmd, in_out);
}

/// Inserting a complete OSC sequence that carries no region mark (a window
/// title, a working-directory report, a built-in command, a `133;A` prompt
/// mark) where the scan is not inside another OSC sequence changes no
/// recorded command; the one exception is an insertion between an `ESC` and
/// a `]`, which would split an OSC start.
pub proof fn law_unmarked_osc_changes_nothing(a: Seq<u8>, body: Seq<u8>, b: Seq<u8>)
    requires
        is_unmarked_osc_body(body),
        scan_end(a, 0, Seq::empty(), Seq::empty(), false, false).0 == a.len(),
        !(a.len() > 0 && a.last() == ESC && b.len() > 0 && b[0] == RBRACKET),
    ensures
        spec_command_regions(a + osc_sequence(body) + b) == spec_command_regions(a + b),
{
    let o = osc_sequence(body);
    let f = scan_end(a, 0, Seq::empty(), Seq::empty(), false, false);
    assert(a + o + b =~= a + (o + b));
    lemma_scan_regions_concat(a, o + b, 0, Seq::empty(), Seq::empty(), false, false);
    lemma_scan_regions_shift(a, o + b, 0, f.1, f.2, f.3, f.4);
    lemma_scan_skips_unmarked_osc(body, b, f.1, f.2, f.3, f.4);
    lemma_scan_regions_concat(a, b, 0, Seq::empty(), Seq::empty(), false, false);
    lemma_scan_regions_shift(a, b, 0, f.1, f.2, f.3, f.4);
}

proof fn lemma_scan_skips_plain_outside(
    x: Seq<u8>,
    b: Seq<u8>,
    k: int,
    cmd: Seq<u8>,
    out: Seq<u8>,
)
    requires
        0 <= k <= x.len(),
        forall|m: int| 0 <= m < x.len() ==> #[trigger] x[m] != ESC,
    ensures
        scan_regions(x + b, k, cmd, out, false, false) == scan_regions(
            x + b,
            x.len() as int,
            cmd,
            out,
            false,
            false,
        ),
    decreases x.len() - k,
{
    if k < x.len() {
        assert((x + b)[k] == x[k]);
        assert(!osc_starts_at(x + b, k));
        lemma_scan_skips_plain_outside(x, b, k + 1, cmd, out);
    }
}

/// Bytes without `ESC` inserted where the scan is outside both regions (for
/// instance prompt text right after a command's `D` mark) change no recorded
/// command; the one exception is an insertion right after an `ESC` that then
/// stands before a `]`.
pub proof fn law_bytes_outside_regions_ignored(a: Seq<u8>, x: Seq<u8>, b: Seq<u8>)
    requires
        forall|m: int| 0 <= m < x.len() ==> #[trigger] x[m] != ESC,
        scan_end(a, 0, Seq::empty(), Seq::empty(), false, false).0 == a.len(),
        !scan_end(a, 0, Seq::empty(), Seq::empty(), false, false).3,
        !scan_end(a, 0, Seq::empty(), Seq::empty(), false, false).4,
        !(a.len() > 0 && a.last() == ESC && (x + b).len() > 0 && (x + b)[0] == RBRACKET),
        !(a.len() > 0 && a.last() == ESC && b.len() > 0 && b[0] == RBRACKET),
    ensures
        spec_command_regions(a + x + b) == spec_command_regions(a + b),
{
    let f = scan_end(a, 0, Seq::empty(), Seq::empty(), false, false);
    assert(a + x + b =~= a + (x + b));
    lemma_scan_regions_concat(a, x + b, 0, Seq::empty(), Seq::empty(), false, false);
    lemma_scan_regions_shift(a, x + b, 0, f.1, f.2, f.3, f.4);
    lemma_scan_skips_plain_outside(x, b, 0, f.1, f.2);
    lemma_scan_regions_shift(x, b, 0, f.1, f.2, false, false);
    lemma_scan_regions_concat(a, b, 0, Seq::empty(), Seq::empty(), false, false);
    lemma_scan_regions_shift(a, b, 0, f.1, f.2, f.3, f.4);
}

/// An OSC sequence left unterminated at the end of the session (no bell and
/// no `ESC \` after its start) records nothing: the commands are those of
/// the session before it.
pub proof fn law_unterminated_osc_tail_ignored(a: Seq<u8>, b: Seq<u8>)
    requires
        b.len() >= 2,
        b[0] == ESC,
        b[1] == RBRACKET,
        forall|m: int|
            2 <= m < b.len() ==> b[m] != BEL && !(#[trigger] b[m] == ESC && m + 1 < b.len() && b[m
                + 1] == BACKSLASH),
    ensures
        spec_command_regions(a + b) == spec_command_regions(a),
{
    let s = a + b;
    let f = scan_end(a, 0, Seq::empty(), Seq::empty(), false, false);
    let u = f.0;
    lemma_scan_regions_concat(a, b, 0, Seq::empty(), Seq::empty(), false, false);
    lemma_scan_end_stop(a, 0, Seq::empty(), Seq::empty(), false, false);
    if u < a.len() {
        lemma_osc_terminator_none(a, u + 2);
        assert(s[u] == a[u] && s[u + 1] == a[u + 1]);
    } else {
        assert(s[u] == b[0] && s[u + 1] == b[1]);
    }
    assert(osc_starts_at(s, u));
    assert forall|m: int| u + 2 <= m < s.len() implies s[m] != BEL && !(#[trigger] s[m] == ESC && m
        + 1 < s.len() && s[m + 1] == BACKSLASH) by {
        if m < a.len() {
            assert(s[m] == a[m]);
            if m + 1 < a.len() {
                assert(s[m + 1] == a[m + 1]);
            } else {
                assert(s[m + 1] == b[0]);
            }
        } else {
            assert(s[m] == b[m - a.len()]);
            if m + 1 < s.len() {
                assert(s[m + 1] == b[m - a.len() + 1]);
            }
        }
    }
    lemma_osc_terminator_skip(s, u + 2, s.len() as int);
    assert(osc_terminator(s, s.len() as int) is None);
    assert(scan_regions(s, u, f.1, f.2, f.3, f.4) == Seq::<(Seq<u8>, Seq<u8>)>::empty());
    assert(spec_command_regions(a) + Seq::<(Seq<u8>, Seq<u8>)>::empty() =~= spec_command_regions(
        a,
    ));
}

proof fn lemma_title_end_shift(p: Seq<u8>, q: Seq<u8>, k: int)
    requires
        0 <= k,
    ensures
        title_end(p + q, p.len() + k) == p.len() + title_end(q, k),
    decreases q.len() - k,
{
    let s = p + q;
    let o = p.len() as int;
    if k + 1 < q.len() {
        assert(s[o + k] == q[k] && s[o + k + 1] == q[k + 1]);
        if !(q[k] == ESC && q[k + 1] == BACKSLASH) {
            lemma_title_end_shift(p, q, k + 1);
        }
    }
}

proof fn lemma_title_end_skip(s: Seq<u8>, k: int, j: int)
    requires
        0 <= k <= j,
        j + 1 < s.len(),
        forall|m: int| k <= m < j ==> !(#[trigger] s[m] == ESC && s[m + 1] == BACKSLASH),
    ensures
        title_end(s, k) == title_end(s, j),
    decreases j - k,
{
    if k < j {
        lemma_title_end_skip(s, k + 1, j);
    }
}

proof fn lemma_strip_titles_shift(p: Seq<u8>, q: Seq<u8>, k: int)
    requires
        0 <= k,
    ensures
        strip_titles_from(p + q, p.len() + k) == strip_titles_from(q, k),
    decreases q.len() - k,
{
    let s = p + q;
    let o = p.len() as int;
    if k < q.len() {
        assert(s[o + k] == q[k]);
        if k + 1 < q.len() {
            assert(s[o + k + 1] == q[k + 1]);
        }
        if q[k] == ESC && k + 1 < q.len() && q[k + 1] == TITLE_K {
            lemma_title_end_shift(p, q, k + 2);
            lemma_title_end_bounds(q, k + 2);
            lemma_strip_titles_shift(p, q, title_end(q, k + 2));
        } else {
            lemma_strip_titles_shift(p, q, k + 1);
        }
    }
}

proof fn lemma_strip_titles_plain_prefix(a: Seq<u8>, r: Seq<u8>, i: int)
    requires
        0 <= i <= a.len(),
        forall|m: int| 0 <= m < a.len() ==> !(#[trigger] a[m] == ESC && m + 1 < a.len() && a[m + 1]
            == TITLE_K),
        !(a.len() > 0 && a.last() == ESC && r.len() > 0 && r[0] == TITLE_K),
    ensures
        strip_titles_from(a + r, i) == a.subrange(i, a.len() as int) + strip_titles_from(
            a + r,
            a.len() as int,
        ),
    decreases a.len() - i,
{
    let s = a + r;
    if i < a.len() {
        assert(s[i] == a[i]);
        if i + 1 < a.len() {
            assert(s[i + 1] == a[i + 1]);
        } else if r.len() > 0 {
            assert(s[i + 1] == r[0]);
        }
        lemma_strip_titles_plain_prefix(a, r, i + 1);
        assert(seq![a[i]] + (a.subrange(i + 1, a.len() as int) + strip_titles_from(
            s,
            a.len() as int,
        )) =~= a.subrange(i, a.len() as int) + strip_titles_from(s, a.len() as int));
    } else {
        assert(a.subrange(i, a.len() as int) + strip_titles_from(s, i) =~= strip_titles_from(s, i));
    }
}

/// The body `133;D` followed by `status`: the mark the shell hook emits when
/// a command finishes, `status` being its exit status (`;0`, `;1`, ...) or
/// nothing.
pub open spec fn command_end_body(status: Seq<u8>) -> Seq<u8> {
    seq![0x31u8, 0x33u8, 0x33u8, 0x3bu8, 0x44u8] + status
}

/// A `D` mark closes the command being gathered and records it, whatever
/// exit status the mark carries (a failed command is recorded like one that
/// succeeded): the commands are those found before the mark, then the
/// command line and output gathered up to the mark (when either holds a
/// byte), then those found after it, the scan starting afresh there.
pub proof fn law_command_end_mark_records_command(a: Seq<u8>, status: Seq<u8>, b: Seq<u8>)
    requires
        forall|m: int| 0 <= m < status.len() ==> #[trigger] status[m] != BEL && status[m] != ESC,
        scan_end(a, 0, Seq::empty(), Seq::empty(), false, false).0 == a.len(),
    ensures
        ({
            let f = scan_end(a, 0, Seq::empty(), Seq::empty(), false, false);
            spec_command_regions(a + osc_sequence(command_end_body(status)) + b)
                == spec_command_regions(a) + (if f.1.len() > 0 || f.2.len() > 0 {
                seq![(f.1, f.2)]
            } else {
                Seq::empty()
            }) + spec_command_regions(b)
        }),
        spec_command_regions(a + osc_sequence(command_end_body(status)) + b)
            == spec_command_regions(a + osc_sequence(command_end_body(Seq::empty())) + b),
{
    lemma_command_end_mark(a, status, b);
    lemma_command_end_mark(a, Seq::empty(), b);
}

proof fn lemma_command_end_mark(a: Seq<u8>, status: Seq<u8>, b: Seq<u8>)
    requires
        forall|m: int| 0 <= m < status.len() ==> #[trigger] status[m] != BEL && status[m] != ESC,
        scan_end(a, 0, Seq::empty(), Seq::empty(), false, false).0 == a.len(),
    ensures
        ({
            let f = scan_end(a, 0, Seq::empty(), Seq::empty(), false, false);
            spec_command_regions(a + osc_sequence(command_end_body(status)) + b)
                == spec_command_regions(a) + (if f.1.len() > 0 || f.2.len() > 0 {
                seq![(f.1, f.2)]
            } else {
                Seq::empty()
            }) + spec_command_regions(b)
        }),
{
    let body = command_end_body(status);
    let o = osc_sequence(body);
    let q = o + b;
    let f = scan_end(a, 0, Seq::empty(), Seq::empty(), false, false);
    assert(a + o + b =~= a + q);
    lemma_scan_regions_concat(a, q, 0, Seq::empty(), Seq::empty(), false, false);
    lemma_scan_regions_shift(a, q, 0, f.1, f.2, f.3, f.4);
    let e = o.len() - 1;
    assert(q[0] == ESC && q[1] == RBRACKET);
    assert(osc_starts_at(q, 0));
    assert forall|m: int| 2 <= m < e && m < q.len() implies q[m] != BEL && !(#[trigger] q[m] == ESC
        && m + 1 < q.len() && q[m + 1] == BACKSLASH) by {
        assert(q[m] == body[m - 2]);
        if m - 2 >= 5 {
            assert(body[m - 2] == status[m - 7]);
        }
    }
    lemma_osc_terminator_skip(q, 2, e);
    assert(q[e] == BEL);
    assert(osc_terminator(q, e) == Some((e, 1int)));
    assert(q.subrange(2, e) =~= body);
    assert(spec_osc_133_event(body) == Some(EVENT_COMMAND_END));
    lemma_scan_regions_shift(o, b, 0, Seq::empty(), Seq::empty(), false, false);
    let head: Seq<(Seq<u8>, Seq<u8>)> = if f.1.len() > 0 || f.2.len() > 0 {
        seq![(f.1, f.2)]
    } else {
        Seq::empty()
    };
    assert(spec_command_regions(a) + (head + spec_command_regions(b)) =~= spec_command_regions(a)
        + head + spec_command_regions(b));
}

/// The legacy title sequence `ESC k t ESC \`.
pub open spec fn title_sequence(t: Seq<u8>) -> Seq<u8> {
    seq![ESC, TITLE_K] + t + seq![ESC, BACKSLASH]
}

/// A legacy title sequence never reaches rendering: stripping a text that
/// holds one leaves what stripping the text without it leaves. This holds
/// when the text before it starts no title itself, and the title text holds
/// no `ESC \`; the one other exception is an `ESC` before it that the text
/// after it would turn into a title start.
pub proof fn law_title_sequence_removed(a: Seq<u8>, t: Seq<u8>, b: Seq<u8>)
    requires
        forall|m: int| 0 <= m < a.len() ==> !(#[trigger] a[m] == ESC && m + 1 < a.len() && a[m + 1]
            == TITLE_K),
        forall|m: int| 0 <= m < t.len() ==> !(#[trigger] t[m] == ESC && m + 1 < t.len() && t[m + 1]
            == BACKSLASH),
        !(a.len() > 0 && a.last() == ESC && b.len() > 0 && b[0] == TITLE_K),
    ensures
        spec_strip_legacy_title_sequences(a + title_sequence(t) + b)
            == spec_strip_legacy_title_sequences(a + b),
{
    let o = title_sequence(t);
    let q = o + b;
    assert(a + o + b =~= a + q);
    lemma_strip_titles_plain_prefix(a, q, 0);
    lemma_strip_titles_shift(a, q, 0);
    let j = o.len() - 2;
    assert(q[0] == ESC && q[1] == TITLE_K);
    assert forall|m: int| 2 <= m < j implies !(#[trigger] q[m] == ESC && q[m + 1] == BACKSLASH) by {
        assert(q[m] == t[m - 2]);
        if m + 1 < j {
            assert(q[m + 1] == t[m - 1]);
        } else {
            assert(q[m + 1] == ESC);
        }
    }
    lemma_title_end_skip(q, 2, j);
    assert(q[j] == ESC && q[j + 1] == BACKSLASH);
    assert(title_end(q, 2) == o.len());
    lemma_strip_titles_shift(o, b, 0);
    lemma_strip_titles_plain_prefix(a, b, 0);
    lemma_strip_titles_shift(a, b, 0);
}

} // verus!
