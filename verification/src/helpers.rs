//! Byte-stream filters applied to what the shell prints, and the decisions
//! taken for the built-in commands typed inside a recorded session.

use vstd::prelude::*;

use crate::cli::Commands;
use crate::fix::{fix_count, fix_count_spec, Count};
use crate::escape::{
    find_osc_terminator, lemma_osc_terminator_bounds, lemma_osc_terminator_skip, osc_starts_at,
    osc_terminator, BEL, CR, ESC, FF, LBRACKET, LF, RBRACKET,
};
use crate::text::{push_words, split_whitespace_spec, strings_view, trim, trim_spec};

verus! {

/// What byte `i` of `s` becomes on a raw-mode terminal: a line feed that does
/// not already follow a carriage return gets one in front of it.
pub open spec fn tty_piece(s: Seq<u8>, i: int) -> Seq<u8> {
    if s[i] == LF && (i == 0 || s[i - 1] != CR) {
        seq![CR, LF]
    } else {
        seq![s[i]]
    }
}

/// The first `n` bytes of `s`, made safe for a raw-mode terminal.
pub open spec fn tty_prefix(s: Seq<u8>, n: int) -> Seq<u8>
    decreases n,
{
    if n <= 0 {
        Seq::empty()
    } else {
        tty_prefix(s, n - 1) + tty_piece(s, n - 1)
    }
}

/// `s` made safe for a raw-mode terminal.
pub open spec fn spec_normalize_for_tty(s: Seq<u8>) -> Seq<u8> {
    tty_prefix(s, s.len() as int)
}

/// Every line feed in `s` directly follows a carriage return.
pub open spec fn line_feeds_follow_returns(s: Seq<u8>) -> bool {
    forall|i: int| 0 <= i < s.len() && #[trigger] s[i] == LF ==> i > 0 && s[i - 1] == CR
}

/// Puts a carriage return in front of every line feed that lacks one, so that
/// text written to a terminal in raw mode starts each line at column zero.
pub fn normalize_for_tty(bytes: Vec<u8>) -> (res: Vec<u8>)
    ensures
        res@ == spec_normalize_for_tty(bytes@),
{
    let mut out: Vec<u8> = Vec::new();
    let mut i: usize = 0;
    while i < bytes.len()
        invariant
            i <= bytes.len(),
            out@ == tty_prefix(bytes@, i as int),
        decreases bytes.len() - i,
    {
        let ghost before = out@;
        if bytes[i] == LF {
            if i == 0 || bytes[i - 1] != CR {
                out.push(CR);
            }
            out.push(LF);
        } else {
            out.push(bytes[i]);
        }
        assert(out@ =~= before + tty_piece(bytes@, i as int));
        i += 1;
    }
    out
}

proof fn lemma_tty_prefix_last(s: Seq<u8>, n: int)
    requires
        0 < n <= s.len(),
    ensures
        tty_prefix(s, n).len() > 0,
        tty_prefix(s, n).last() == s[n - 1],
{
    assert(tty_prefix(s, n) == tty_prefix(s, n - 1) + tty_piece(s, n - 1));
}

proof fn lemma_tty_prefix_safe(s: Seq<u8>, n: int)
    requires
        0 <= n <= s.len(),
    ensures
        line_feeds_follow_returns(tty_prefix(s, n)),
    decreases n,
{
    if n > 0 {
        lemma_tty_prefix_safe(s, n - 1);
        let prev = tty_prefix(s, n - 1);
        let piece = tty_piece(s, n - 1);
        let cur = prev + piece;
        assert(tty_prefix(s, n) == cur);
        if n - 1 > 0 {
            lemma_tty_prefix_last(s, n - 1);
        }
        assert forall|i: int| 0 <= i < cur.len() && #[trigger] cur[i] == LF implies i > 0 && cur[i - 1]
            == CR by {
            if i < prev.len() {
                assert(cur[i] == prev[i]);
                assert(cur[i - 1] == prev[i - 1]);
            }
        }
    }
}

proof fn lemma_tty_prefix_identity(t: Seq<u8>, n: int)
    requires
        0 <= n <= t.len(),
        line_feeds_follow_returns(t),
    ensures
        tty_prefix(t, n) == t.take(n),
    decreases n,
{
    if n > 0 {
        lemma_tty_prefix_identity(t, n - 1);
        if t[n - 1] == LF {
            assert(n - 1 > 0 && t[n - 2] == CR);
        }
        assert(tty_piece(t, n - 1) == seq![t[n - 1]]);
        assert(t.take(n - 1) + seq![t[n - 1]] =~= t.take(n));
    }
}

/// On a raw-mode terminal every line feed of the normalized text follows a
/// carriage return.
pub proof fn law_normalized_lines_start_at_column_zero(s: Seq<u8>)
    ensures
        line_feeds_follow_returns(spec_normalize_for_tty(s)),
{
    lemma_tty_prefix_safe(s, s.len() as int);
}

/// Normalizing text that is already normalized changes nothing.
pub proof fn law_normalize_for_tty_idempotent(s: Seq<u8>)
    ensures
        spec_normalize_for_tty(spec_normalize_for_tty(s)) == spec_normalize_for_tty(s),
{
    let t = spec_normalize_for_tty(s);
    lemma_tty_prefix_safe(s, s.len() as int);
    lemma_tty_prefix_identity(t, t.len() as int);
    assert(t.take(t.len() as int) =~= t);
}

proof fn lemma_tty_prefix_of_concat_left(a: Seq<u8>, b: Seq<u8>, n: int)
    requires
        0 <= n <= a.len(),
    ensures
        tty_prefix(a + b, n) == tty_prefix(a, n),
    decreases n,
{
    if n > 0 {
        lemma_tty_prefix_of_concat_left(a, b, n - 1);
        assert((a + b)[n - 1] == a[n - 1]);
        if n - 1 > 0 {
            assert((a + b)[n - 2] == a[n - 2]);
        }
        assert(tty_piece(a + b, n - 1) == tty_piece(a, n - 1));
    }
}

proof fn lemma_tty_prefix_of_concat(a: Seq<u8>, b: Seq<u8>, k: int)
    requires
        0 <= k <= b.len(),
        !(a.len() > 0 && b.len() > 0 && a.last() == CR && b[0] == LF),
    ensures
        tty_prefix(a + b, a.len() + k) == tty_prefix(a, a.len() as int) + tty_prefix(b, k),
    decreases k,
{
    let s = a + b;
    if k == 0 {
        lemma_tty_prefix_of_concat_left(a, b, a.len() as int);
        assert(tty_prefix(a, a.len() as int) + Seq::<u8>::empty() =~= tty_prefix(
            a,
            a.len() as int,
        ));
    } else {
        lemma_tty_prefix_of_concat(a, b, k - 1);
        let i = a.len() + k - 1;
        assert(s[i] == b[k - 1]);
        if k - 1 > 0 {
            assert(s[i - 1] == b[k - 2]);
        } else if a.len() > 0 {
            assert(s[i - 1] == a.last());
        }
        assert(tty_piece(s, i) == tty_piece(b, k - 1));
        assert(tty_prefix(s, i + 1) == tty_prefix(s, i) + tty_piece(s, i));
        assert(tty_prefix(a, a.len() as int) + tty_prefix(b, k - 1) + tty_piece(b, k - 1)
            =~= tty_prefix(a, a.len() as int) + (tty_prefix(b, k - 1) + tty_piece(b, k - 1)));
    }
}

/// Normalizing a stream piece by piece gives the bytes that normalizing it
/// whole gives, unless a piece ends with a carriage return and the next one
/// starts with a line feed (then the line feed gets a second carriage
/// return).
pub proof fn law_normalize_for_tty_chunks(a: Seq<u8>, b: Seq<u8>)
    requires
        !(a.len() > 0 && b.len() > 0 && a.last() == CR && b[0] == LF),
    ensures
        spec_normalize_for_tty(a) + spec_normalize_for_tty(b) == spec_normalize_for_tty(a + b),
{
    lemma_tty_prefix_of_concat(a, b, b.len() as int);
}

/// A byte that ends a control sequence (`ESC [ ... final`).
pub open spec fn is_csi_final(b: u8) -> bool {
    0x40 <= b <= 0x7e
}

/// The position of the first control-sequence final byte at or after `k`.
pub open spec fn first_csi_final(s: Seq<u8>, k: int) -> Option<int>
    decreases s.len() - k,
{
    if k < 0 || k >= s.len() {
        None
    } else if is_csi_final(s[k]) {
        Some(k)
    } else {
        first_csi_final(s, k + 1)
    }
}

/// A control sequence with final byte `final_byte` and parameter bytes
/// `params` clears the screen or homes the cursor to the top-left corner.
pub open spec fn clears_screen(final_byte: u8, params: Seq<u8>) -> bool {
    final_byte == 0x4a || (final_byte == 0x48 && (params.len() == 0 || params =~= seq![
        0x31u8,
        0x3bu8,
        0x31u8,
    ] || params =~= seq![0x31u8]))
}

pub proof fn lemma_first_csi_final_bounds(s: Seq<u8>, k: int)
    ensures
        first_csi_final(s, k) matches Some(j) ==> k <= j < s.len() && 0 <= j && is_csi_final(s[j])
            && forall|m: int| k <= m < j ==> !is_csi_final(#[trigger] s[m]),
    decreases s.len() - k,
{
    if 0 <= k < s.len() && !is_csi_final(s[k]) {
        lemma_first_csi_final_bounds(s, k + 1);
    }
}

/// The bytes kept from position `i` of `s` on: form feeds, screen clears and
/// cursor-home sequences are removed, everything else is kept in order. The
/// scan stops at a control sequence that is still unfinished at the end: it
/// and what follows it are left for later (see `clear_pending_start`).
pub open spec fn strip_clear_from(s: Seq<u8>, i: int) -> Seq<u8>
    decreases s.len() - i,
{
    if i < 0 || i >= s.len() {
        Seq::empty()
    } else if s[i] == FF {
        strip_clear_from(s, i + 1)
    } else if s[i] == ESC && i + 1 < s.len() && s[i + 1] == LBRACKET {
        match first_csi_final(s, i + 2) {
            None => Seq::empty(),
            Some(j) => {
                proof {
                    lemma_first_csi_final_bounds(s, i + 2);
                }
                (if clears_screen(s[j], s.subrange(i + 2, j)) {
                    Seq::empty()
                } else {
                    s.subrange(i, j + 1)
                }) + strip_clear_from(s, j + 1)
            },
        }
    } else {
        seq![s[i]] + strip_clear_from(s, i + 1)
    }
}

/// The captured bytes of `s` with screen clears removed.
pub open spec fn spec_strip_clear_sequences(s: Seq<u8>) -> Seq<u8> {
    strip_clear_from(s, 0)
}

/// Where the unfinished control sequence at the end of `s` starts, when the
/// scan from position `i` meets one; the length of `s` otherwise.
pub open spec fn clear_pending_start(s: Seq<u8>, i: int) -> int
    decreases s.len() - i,
{
    if i < 0 || i >= s.len() {
        s.len() as int
    } else if s[i] == FF {
        clear_pending_start(s, i + 1)
    } else if s[i] == ESC && i + 1 < s.len() && s[i + 1] == LBRACKET {
        match first_csi_final(s, i + 2) {
            None => i,
            Some(j) => {
                proof {
                    lemma_first_csi_final_bounds(s, i + 2);
                }
                clear_pending_start(s, j + 1)
            },
        }
    } else {
        clear_pending_start(s, i + 1)
    }
}

/// The unfinished control sequence at the end of `s`, kept until the bytes
/// that finish it arrive; empty when there is none.
pub open spec fn spec_clear_pending(s: Seq<u8>) -> Seq<u8> {
    s.skip(clear_pending_start(s, 0))
}

proof fn lemma_first_csi_final_skip(s: Seq<u8>, k: int, j: int)
    requires
        0 <= k <= j,
        forall|m: int| k <= m < j && m < s.len() ==> !is_csi_final(#[trigger] s[m]),
    ensures
        first_csi_final(s, k) == first_csi_final(s, j),
    decreases j - k,
{
    if k < j && k < s.len() {
        lemma_first_csi_final_skip(s, k + 1, j);
    }
}

fn is_home_or_clear(pending: &Vec<u8>, start: usize, end: usize) -> (res: bool)
    requires
        start <= end < pending@.len(),
    ensures
        res == clears_screen(pending@[end as int], pending@.subrange(start as int, end as int)),
{
    let f = pending[end];
    if f == 0x4a {
        return true;
    }
    if f != 0x48 {
        return false;
    }
    let n = end - start;
    let ghost params = pending@.subrange(start as int, end as int);
    if n == 0 {
        return true;
    }
    if n == 1 {
        let r = pending[start] == 0x31;
        assert(r ==> params =~= seq![0x31u8]);
        assert(!r ==> params !== seq![0x31u8]) by {
            if params == seq![0x31u8] {
                assert(params[0] == pending@[start as int]);
            }
        }
        assert(params.len() != 3);
        return r;
    }
    if n == 3 {
        let r = pending[start] == 0x31 && pending[start + 1] == 0x3b && pending[start + 2] == 0x31;
        assert(r ==> params =~= seq![0x31u8, 0x3bu8, 0x31u8]);
        assert(!r ==> params !== seq![0x31u8, 0x3bu8, 0x31u8]) by {
            if params == seq![0x31u8, 0x3bu8, 0x31u8] {
                assert(params[0] == pending@[start as int]);
                assert(params[1] == pending@[start + 1]);
                assert(params[2] == pending@[start + 2]);
            }
        }
        return r;
    }
    assert(params.len() != 1 && params.len() != 3);
    false
}

/// Appends `chunk` to `pending` and returns the bytes to record: form feeds,
/// screen clears (`ESC [ ... J`) and cursor-home sequences (`ESC [ H`,
/// `ESC [ 1 H`, `ESC [ 1 ; 1 H`) are left out, so a `clear` in the shell does
/// not wipe the recorded session. A control sequence still unfinished at the
/// end waits in `pending`, from its `ESC` on, for the next chunk.
pub fn strip_clear_sequences_stream(pending: &mut Vec<u8>, chunk: &[u8]) -> (res: Vec<u8>)
    ensures
        res@ == spec_strip_clear_sequences(old(pending)@ + chunk@),
        final(pending)@ == spec_clear_pending(old(pending)@ + chunk@),
{
    pending.extend_from_slice(chunk);
    let ghost buf = pending@;
    assert(buf =~= old(pending)@ + chunk@) by {
        assert forall|k: int| 0 <= k < buf.len() implies buf[k] == (old(pending)@ + chunk@)[k] by {
            if k >= old(pending)@.len() {
                assert(cloned::<u8>(chunk@[k - old(pending)@.len()], buf[k]));
            }
        }
    }
    let mut out: Vec<u8> = Vec::new();
    let mut i: usize = 0;
    let len = pending.len();
    let mut keep_from: usize = len;
    while i < len
        invariant
            len == pending@.len(),
            pending@ == buf,
            i <= len,
            keep_from <= len,
            keep_from < len ==> i == len,
            out@ + strip_clear_from(buf, i as int) == strip_clear_from(buf, 0),
            clear_pending_start(buf, 0) == if keep_from < len {
                keep_from as int
            } else {
                clear_pending_start(buf, i as int)
            },
        decreases len - i,
    {
        if pending[i] == FF {
            i += 1;
            continue;
        }
        if pending[i] == ESC && i + 1 < len && pending[i + 1] == LBRACKET {
            let seq_start = i;
            let mut j = i + 2;
            while j < len && !(0x40 <= pending[j] && pending[j] <= 0x7e)
                invariant
                    len == pending@.len(),
                    pending@ == buf,
                    seq_start + 2 <= j <= len,
                    forall|m: int| seq_start + 2 <= m < j ==> !is_csi_final(#[trigger] buf[m]),
                decreases len - j,
            {
                j += 1;
            }
            proof {
                lemma_first_csi_final_skip(buf, seq_start + 2, j as int);
            }
            if j >= len {
                assert(strip_clear_from(buf, i as int) == Seq::<u8>::empty());
                assert(out@ + Seq::<u8>::empty() =~= out@);
                assert(strip_clear_from(buf, len as int) == Seq::<u8>::empty());
                assert(clear_pending_start(buf, i as int) == i);
                keep_from = seq_start;
                i = len;
                continue;
            }
            assert(first_csi_final(buf, j as int) == Some(j as int));
            let drop_seq = is_home_or_clear(pending, seq_start + 2, j);
            let ghost before = out@;
            if !drop_seq {
                let mut k = seq_start;
                while k <= j
                    invariant
                        len == pending@.len(),
                        pending@ == buf,
                        seq_start <= k <= j + 1,
                        j < len,
                        out@ == before + buf.subrange(seq_start as int, k as int),
                    decreases j + 1 - k,
                {
                    out.push(pending[k]);
                    assert(buf.subrange(seq_start as int, k + 1) =~= buf.subrange(
                        seq_start as int,
                        k as int,
                    ).push(buf[k as int]));
                    k += 1;
                }
            }
            assert(out@ + strip_clear_from(buf, j + 1) =~= before + strip_clear_from(buf, i as int));
            i = j + 1;
            continue;
        }
        let ghost before = out@;
        out.push(pending[i]);
        assert(out@ + strip_clear_from(buf, i + 1) =~= before + strip_clear_from(buf, i as int));
        i += 1;
    }
    assert(strip_clear_from(buf, i as int) == Seq::<u8>::empty());
    assert(out@ + Seq::<u8>::empty() =~= out@);
    let rest = pending.split_off(keep_from);
    *pending = rest;
    out
}

proof fn lemma_clear_pending_start_bounds(s: Seq<u8>, i: int)
    requires
        0 <= i,
    ensures
        i <= s.len() ==> i <= clear_pending_start(s, i) <= s.len(),
        i > s.len() ==> clear_pending_start(s, i) == s.len(),
    decreases s.len() - i,
{
    if i < s.len() {
        if s[i] == FF {
            lemma_clear_pending_start_bounds(s, i + 1);
        } else if s[i] == ESC && i + 1 < s.len() && s[i + 1] == LBRACKET {
            lemma_first_csi_final_bounds(s, i + 2);
            if let Some(j) = first_csi_final(s, i + 2) {
                lemma_clear_pending_start_bounds(s, j + 1);
            }
        } else {
            lemma_clear_pending_start_bounds(s, i + 1);
        }
    }
}

proof fn lemma_first_csi_final_shift(p: Seq<u8>, q: Seq<u8>, k: int)
    requires
        0 <= k,
    ensures
        first_csi_final(p + q, p.len() + k) == match first_csi_final(q, k) {
            Some(j) => Some(p.len() + j),
            None => None::<int>,
        },
    decreases q.len() - k,
{
    if k < q.len() {
        assert((p + q)[p.len() + k] == q[k]);
        if !is_csi_final(q[k]) {
            lemma_first_csi_final_shift(p, q, k + 1);
        }
    }
}

proof fn lemma_first_csi_final_prefix(a: Seq<u8>, b: Seq<u8>, k: int)
    requires
        first_csi_final(a, k) is Some,
    ensures
        first_csi_final(a + b, k) == first_csi_final(a, k),
    decreases a.len() - k,
{
    if 0 <= k < a.len() {
        assert((a + b)[k] == a[k]);
        if !is_csi_final(a[k]) {
            lemma_first_csi_final_prefix(a, b, k + 1);
        }
    }
}

/// Scanning `p + q` from inside `q` is scanning `q`.
proof fn lemma_strip_clear_shift(p: Seq<u8>, q: Seq<u8>, i: int)
    requires
        0 <= i,
    ensures
        strip_clear_from(p + q, p.len() + i) == strip_clear_from(q, i),
        clear_pending_start(p + q, p.len() + i) == p.len() + clear_pending_start(q, i),
    decreases q.len() - i,
{
    let s = p + q;
    let o = p.len() as int;
    if i < q.len() {
        assert(s[o + i] == q[i]);
        if i + 1 < q.len() {
            assert(s[o + i + 1] == q[i + 1]);
        }
        if q[i] == FF {
            lemma_strip_clear_shift(p, q, i + 1);
        } else if q[i] == ESC && i + 1 < q.len() && q[i + 1] == LBRACKET {
            lemma_first_csi_final_shift(p, q, i + 2);
            lemma_first_csi_final_bounds(q, i + 2);
            if let Some(j) = first_csi_final(q, i + 2) {
                lemma_strip_clear_shift(p, q, j + 1);
                assert(s.subrange(o + i + 2, o + j) =~= q.subrange(i + 2, j));
                assert(s.subrange(o + i, o + j + 1) =~= q.subrange(i, j + 1));
                assert(s[o + j] == q[j]);
            }
        } else {
            lemma_strip_clear_shift(p, q, i + 1);
        }
    }
}

/// Scanning `a + b` from position `i` of `a` goes as scanning `a` up to
/// where `a`'s scan stops, unless `a` ends with a lone `ESC`.
proof fn lemma_strip_clear_concat(a: Seq<u8>, b: Seq<u8>, i: int)
    requires
        0 <= i <= a.len(),
        !(a.len() > 0 && a.last() == ESC),
    ensures
        strip_clear_from(a + b, i) == strip_clear_from(a, i) + strip_clear_from(
            a + b,
            clear_pending_start(a, i),
        ),
        clear_pending_start(a + b, i) == clear_pending_start(a + b, clear_pending_start(a, i)),
    decreases a.len() - i,
{
    let s = a + b;
    if i == a.len() {
        assert(Seq::<u8>::empty() + strip_clear_from(s, i) =~= strip_clear_from(s, i));
    } else {
        assert(s[i] == a[i]);
        if i + 1 < a.len() {
            assert(s[i + 1] == a[i + 1]);
        }
        if a[i] == FF {
            lemma_strip_clear_concat(a, b, i + 1);
        } else if a[i] == ESC && i + 1 < a.len() && a[i + 1] == LBRACKET {
            lemma_first_csi_final_bounds(a, i + 2);
            match first_csi_final(a, i + 2) {
                None => {
                    assert(Seq::<u8>::empty() + strip_clear_from(s, i) =~= strip_clear_from(s, i));
                },
                Some(j) => {
                    lemma_first_csi_final_prefix(a, b, i + 2);
                    lemma_strip_clear_concat(a, b, j + 1);
                    assert(s.subrange(i + 2, j) =~= a.subrange(i + 2, j));
                    assert(s.subrange(i, j + 1) =~= a.subrange(i, j + 1));
                    assert(s[j] == a[j]);
                    let piece = if clears_screen(a[j], a.subrange(i + 2, j)) {
                        Seq::<u8>::empty()
                    } else {
                        a.subrange(i, j + 1)
                    };
                    let rest = strip_clear_from(s, clear_pending_start(a, j + 1));
                    assert(piece + (strip_clear_from(a, j + 1) + rest) =~= (piece + strip_clear_from(
                        a,
                        j + 1,
                    )) + rest);
                },
            }
        } else {
            if a[i] == ESC {
                assert(i + 1 < a.len());
            }
            lemma_strip_clear_concat(a, b, i + 1);
            let rest = strip_clear_from(s, clear_pending_start(a, i + 1));
            assert(seq![a[i]] + (strip_clear_from(a, i + 1) + rest) =~= (seq![a[i]]
                + strip_clear_from(a, i + 1)) + rest);
        }
    }
}

/// Filtering a stream chunk by chunk, with the unfinished control sequence
/// carried over in between, records the bytes that filtering it whole
/// records, and leaves the same bytes waiting; unless the first chunk ends
/// with a lone `ESC`, which is recorded before the next chunk could show that
/// it starts a control sequence.
pub proof fn law_clear_filter_chunking(a: Seq<u8>, b: Seq<u8>)
    requires
        !(a.len() > 0 && a.last() == ESC),
    ensures
        spec_strip_clear_sequences(a) + spec_strip_clear_sequences(spec_clear_pending(a) + b)
            == spec_strip_clear_sequences(a + b),
        spec_clear_pending(spec_clear_pending(a) + b) == spec_clear_pending(a + b),
{
    let u = clear_pending_start(a, 0);
    lemma_clear_pending_start_bounds(a, 0);
    let p = a.take(u);
    let q = a.skip(u) + b;
    assert(a + b =~= p + q);
    lemma_strip_clear_concat(a, b, 0);
    lemma_strip_clear_shift(p, q, 0);
    assert(p.len() == u);
    lemma_clear_pending_start_bounds(q, 0);
    let k = clear_pending_start(q, 0);
    assert((a + b).skip(u + k) =~= q.skip(k));
}

/// A recorded command and what it printed, as plain text.
pub struct CommandOutput {
    pub command: String,
    pub output: String,
}

/// How a built-in command typed inside the session was answered.
pub enum CommandExecution {
    /// Its whole reply, to be shown in place of the command's escape sequence.
    Buffered(Vec<u8>),
    /// Its reply was already written to the terminal while it arrived.
    Streamed,
}

/// One chunk of shell output after the built-in commands were taken out of
/// it: what goes to the terminal and what goes into the session record.
pub struct ProcessedPtyChunk {
    pub display: Vec<u8>,
    pub capture: Vec<u8>,
}

/// The bytes `<User session context>\n`, recorded in place of the (long)
/// reply of the `context` command.
pub open spec fn session_context_placeholder() -> Seq<u8> {
    seq![
        0x3cu8, 0x55u8, 0x73u8, 0x65u8, 0x72u8, 0x20u8, 0x73u8, 0x65u8, 0x73u8, 0x73u8, 0x69u8,
        0x6fu8, 0x6eu8, 0x20u8, 0x63u8, 0x6fu8, 0x6eu8, 0x74u8, 0x65u8, 0x78u8, 0x74u8, 0x3eu8,
        0x0au8,
    ]
}

/// The bytes `termfix error: `.
pub open spec fn error_prefix() -> Seq<u8> {
    seq![
        0x74u8, 0x65u8, 0x72u8, 0x6du8, 0x66u8, 0x69u8, 0x78u8, 0x20u8, 0x65u8, 0x72u8, 0x72u8,
        0x6fu8, 0x72u8, 0x3au8, 0x20u8,
    ]
}

/// The word `context`.
pub open spec fn context_word() -> Seq<char> {
    seq!['c', 'o', 'n', 't', 'e', 'x', 't']
}

/// The command text is the `context` subcommand, surrounding white space
/// aside.
pub open spec fn is_context_command_spec(command: Seq<char>) -> bool {
    trim_spec(command) == context_word()
}

/// Whether `command`, trimmed, is the word `context`.
pub fn is_context_command(command: &str) -> (res: bool)
    ensures
        res == is_context_command_spec(command@),
{
    let t = trim(command);
    let v = crate::text::chars_of(t.as_str());
    let word = ['c', 'o', 'n', 't', 'e', 'x', 't'];
    if v.len() != 7 {
        assert(context_word().len() == 7);
        return false;
    }
    let mut k: usize = 0;
    while k < 7
        invariant
            v@.len() == 7,
            v@ == t@,
            t@ == trim_spec(command@),
            0 <= k <= 7,
            word@ == context_word(),
            forall|m: int| 0 <= m < k ==> v@[m] == context_word()[m],
        decreases 7 - k,
    {
        if v[k] != word[k] {
            assert(v@[k as int] != context_word()[k as int]);
            return false;
        }
        k += 1;
    }
    assert(v@ =~= context_word());
    true
}

fn session_context_placeholder_bytes() -> (res: Vec<u8>)
    ensures
        res@ == session_context_placeholder(),
{
    vec![
        0x3cu8, 0x55u8, 0x73u8, 0x65u8, 0x72u8, 0x20u8, 0x73u8, 0x65u8, 0x73u8, 0x73u8, 0x69u8,
        0x6fu8, 0x6eu8, 0x20u8, 0x63u8, 0x6fu8, 0x6eu8, 0x74u8, 0x65u8, 0x78u8, 0x74u8, 0x3eu8,
        0x0au8,
    ]
}

fn error_prefix_bytes() -> (res: Vec<u8>)
    ensures
        res@ == error_prefix(),
{
    vec![
        0x74u8, 0x65u8, 0x72u8, 0x6du8, 0x66u8, 0x69u8, 0x78u8, 0x20u8, 0x65u8, 0x72u8, 0x72u8,
        0x6fu8, 0x72u8, 0x3au8, 0x20u8,
    ]
}

/// Appends `b` to `v`.
fn append_bytes(v: &mut Vec<u8>, b: &[u8])
    ensures
        final(v)@ == old(v)@ + b@,
{
    let mut k: usize = 0;
    while k < b.len()
        invariant
            k <= b@.len(),
            v@ == old(v)@ + b@.subrange(0, k as int),
        decreases b.len() - k,
    {
        v.push(b[k]);
        assert(b@.subrange(0, k + 1) =~= b@.subrange(0, k as int).push(b@[k as int]));
        k += 1;
    }
    assert(b@.subrange(0, b@.len() as int) =~= b@);
}

/// The error reply for a failed built-in command: `termfix error: `, the
/// message and a line feed, made safe for a raw-mode terminal.
pub open spec fn failure_reply(message: Seq<u8>) -> Seq<u8> {
    spec_normalize_for_tty(error_prefix() + message + seq![LF])
}

impl ProcessedPtyChunk {
    /// Nothing to show and nothing to record yet.
    pub fn new() -> (res: ProcessedPtyChunk)
        ensures
            res.display@ == Seq::<u8>::empty(),
            res.capture@ == Seq::<u8>::empty(),
    {
        ProcessedPtyChunk { display: Vec::new(), capture: Vec::new() }
    }

    /// Shell output that is not a built-in command: shown and recorded as it is.
    pub fn push_passthrough(&mut self, bytes: &[u8])
        ensures
            final(self).display@ == old(self).display@ + bytes@,
            final(self).capture@ == old(self).capture@ + bytes@,
    {
        append_bytes(&mut self.display, bytes);
        append_bytes(&mut self.capture, bytes);
    }

    /// Takes in how the built-in command `command` was answered. A buffered
    /// reply is shown; it is recorded too, except the reply of `context`,
    /// which is recorded as `<User session context>`. A streamed reply was
    /// already shown and recorded while it arrived.
    pub fn record_execution(&mut self, command: &str, execution: CommandExecution)
        ensures
            match execution {
                CommandExecution::Buffered(bytes) => {
                    &&& final(self).display@ == old(self).display@ + bytes@
                    &&& final(self).capture@ == old(self).capture@ + if is_context_command_spec(
                        command@,
                    ) {
                        spec_normalize_for_tty(session_context_placeholder())
                    } else {
                        bytes@
                    }
                },
                CommandExecution::Streamed => {
                    &&& final(self).display@ == old(self).display@
                    &&& final(self).capture@ == old(self).capture@
                },
            },
    {
        match execution {
            CommandExecution::Buffered(bytes) => {
                append_bytes(&mut self.display, bytes.as_slice());
                if is_context_command(command) {
                    let placeholder = normalize_for_tty(session_context_placeholder_bytes());
                    append_bytes(&mut self.capture, placeholder.as_slice());
                } else {
                    append_bytes(&mut self.capture, bytes.as_slice());
                }
            },
            CommandExecution::Streamed => {},
        }
    }

    /// Takes in a built-in command that failed with `message`: the error
    /// reply is shown and recorded.
    pub fn record_failure(&mut self, message: &[u8])
        ensures
            final(self).display@ == old(self).display@ + failure_reply(message@),
            final(self).capture@ == old(self).capture@ + failure_reply(message@),
    {
        let mut text = error_prefix_bytes();
        append_bytes(&mut text, message);
        text.push(LF);
        assert(text@ =~= error_prefix() + message@ + seq![LF]);
        let err = normalize_for_tty(text);
        append_bytes(&mut self.display, err.as_slice());
        append_bytes(&mut self.capture, err.as_slice());
    }
}

/// The bytes `1337;TERMFIX_CMD=` that open the body of the OSC sequence the
/// `termfix` shell function emits.
pub open spec fn termfix_command_prefix() -> Seq<u8> {
    seq![
        0x31u8, 0x33u8, 0x33u8, 0x37u8, 0x3bu8, 0x54u8, 0x45u8, 0x52u8, 0x4du8, 0x46u8, 0x49u8,
        0x58u8, 0x5fu8, 0x43u8, 0x4du8, 0x44u8, 0x3du8,
    ]
}

/// A piece of shell output, as the built-in command scan sees it.
pub enum PieceView {
    Passthrough(Seq<u8>),
    Command(Seq<u8>),
}

/// A piece of shell output: bytes to pass on, or the text of a built-in
/// command that the `termfix` shell function sent.
pub enum PtyPiece {
    Passthrough(Vec<u8>),
    Command(Vec<u8>),
}

impl View for PtyPiece {
    type V = PieceView;

    open spec fn view(&self) -> PieceView {
        match self {
            PtyPiece::Passthrough(b) => PieceView::Passthrough(b@),
            PtyPiece::Command(c) => PieceView::Command(c@),
        }
    }
}

pub open spec fn pieces_view(v: Seq<PtyPiece>) -> Seq<PieceView> {
    v.map_values(|p: PtyPiece| p@)
}

/// The bytes gathered so far, as a piece of their own when there are any.
pub open spec fn flush_pass(acc: Seq<u8>) -> Seq<PieceView> {
    if acc.len() > 0 {
        seq![PieceView::Passthrough(acc)]
    } else {
        Seq::empty()
    }
}

/// An OSC body is a built-in command.
pub open spec fn is_termfix_body(body: Seq<u8>) -> bool {
    body.len() >= 17 && body.take(17) == termfix_command_prefix()
}

/// The pieces of `s` from position `i` on, `acc` holding the bytes passed on
/// since the last command. Every OSC sequence whose body starts with
/// `1337;TERMFIX_CMD=` becomes a command piece holding the rest of the body;
/// other OSC sequences and all other bytes are passed on, adjacent ones in
/// one piece. An OSC sequence without terminator, and what follows it, are
/// left for later (see `termfix_pending_start`).
pub open spec fn termfix_pieces_from(s: Seq<u8>, i: int, acc: Seq<u8>) -> Seq<PieceView>
    decreases s.len() - i,
{
    if i < 0 || i >= s.len() {
        flush_pass(acc)
    } else if osc_starts_at(s, i) {
        match osc_terminator(s, i + 2) {
            None => flush_pass(acc),
            Some((e, t)) => {
                proof {
                    lemma_osc_terminator_bounds(s, i + 2);
                }
                let body = s.subrange(i + 2, e);
                if is_termfix_body(body) {
                    flush_pass(acc) + seq![PieceView::Command(body.skip(17))] + termfix_pieces_from(
                        s,
                        e + t,
                        Seq::empty(),
                    )
                } else {
                    termfix_pieces_from(s, e + t, acc + s.subrange(i, e + t))
                }
            },
        }
    } else {
        termfix_pieces_from(s, i + 1, acc.push(s[i]))
    }
}

/// The pieces of a buffer of shell output.
pub open spec fn spec_termfix_pieces(s: Seq<u8>) -> Seq<PieceView> {
    termfix_pieces_from(s, 0, Seq::empty())
}

/// Where the OSC sequence still unterminated at the end of `s` starts, when
/// the scan from position `i` meets one; the length of `s` otherwise.
pub open spec fn termfix_pending_start(s: Seq<u8>, i: int) -> int
    decreases s.len() - i,
{
    if i < 0 || i >= s.len() {
        s.len() as int
    } else if osc_starts_at(s, i) {
        match osc_terminator(s, i + 2) {
            None => i,
            Some((e, t)) => {
                proof {
                    lemma_osc_terminator_bounds(s, i + 2);
                }
                termfix_pending_start(s, e + t)
            },
        }
    } else {
        termfix_pending_start(s, i + 1)
    }
}

/// The OSC sequence still unterminated at the end of `s`, kept until its
/// terminator arrives; empty when there is none.
pub open spec fn spec_termfix_pending(s: Seq<u8>) -> Seq<u8> {
    s.skip(termfix_pending_start(s, 0))
}

fn termfix_body_at(s: &[u8], start: usize, end: usize) -> (res: bool)
    requires
        start <= end <= s@.len(),
    ensures
        res == is_termfix_body(s@.subrange(start as int, end as int)),
{
    let prefix: [u8; 17] = [
        0x31u8, 0x33u8, 0x33u8, 0x37u8, 0x3bu8, 0x54u8, 0x45u8, 0x52u8, 0x4du8, 0x46u8, 0x49u8,
        0x58u8, 0x5fu8, 0x43u8, 0x4du8, 0x44u8, 0x3du8,
    ];
    assert(prefix@ == termfix_command_prefix());
    let ghost body = s@.subrange(start as int, end as int);
    if end - start < 17 {
        return false;
    }
    let mut k: usize = 0;
    while k < 17
        invariant
            start + 17 <= end <= s@.len(),
            body == s@.subrange(start as int, end as int),
            prefix@ == termfix_command_prefix(),
            0 <= k <= 17,
            forall|m: int| 0 <= m < k ==> body[m] == termfix_command_prefix()[m],
        decreases 17 - k,
    {
        if s[start + k] != prefix[k] {
            assert(body.take(17)[k as int] != termfix_command_prefix()[k as int]);
            return false;
        }
        k += 1;
    }
    assert(body.take(17) =~= termfix_command_prefix());
    true
}

/// Copies `s[lo..hi]`.
fn copy_range(s: &[u8], lo: usize, hi: usize) -> (res: Vec<u8>)
    requires
        lo <= hi <= s@.len(),
    ensures
        res@ == s@.subrange(lo as int, hi as int),
{
    let mut out: Vec<u8> = Vec::new();
    let mut k = lo;
    while k < hi
        invariant
            lo <= k <= hi <= s@.len(),
            out@ == s@.subrange(lo as int, k as int),
        decreases hi - k,
    {
        out.push(s[k]);
        assert(s@.subrange(lo as int, k + 1) =~= s@.subrange(lo as int, k as int).push(s@[k as int]));
        k += 1;
    }
    out
}

/// Appends `chunk` to `pending` and splits it into pieces: runs of bytes to
/// pass on, and the built-in commands that the `termfix` shell function sent
/// as `ESC ] 1337;TERMFIX_CMD=<command>` followed by a bell or `ESC \`.
/// An OSC sequence still unterminated at the end waits in `pending`, from its
/// `ESC` on, for the next chunk.
pub fn scan_termfix_commands(pending: &mut Vec<u8>, chunk: &[u8]) -> (res: Vec<PtyPiece>)
    ensures
        pieces_view(res@) == spec_termfix_pieces(old(pending)@ + chunk@),
        final(pending)@ == spec_termfix_pending(old(pending)@ + chunk@),
{
    append_bytes(pending, chunk);
    let ghost s = pending@;
    let len = pending.len();
    let mut acc: Vec<u8> = Vec::new();
    let mut res: Vec<PtyPiece> = Vec::new();
    let mut i: usize = 0;
    let mut keep_from: usize = len;
    while i < len
        invariant
            len == s.len(),
            pending@ == s,
            i <= len,
            keep_from <= len,
            keep_from < len ==> i == len,
            pieces_view(res@) + termfix_pieces_from(s, i as int, acc@) == spec_termfix_pieces(s),
            termfix_pending_start(s, 0) == if keep_from < len {
                keep_from as int
            } else {
                termfix_pending_start(s, i as int)
            },
        decreases len - i,
    {
        let ghost found_before = pieces_view(res@);
        if pending[i] == ESC && i + 1 < len && pending[i + 1] == RBRACKET {
            proof {
                lemma_osc_terminator_bounds(s, i + 2);
            }
            match find_osc_terminator(pending.as_slice(), i + 2) {
                None => {
                    if acc.len() > 0 {
                        let mut taken: Vec<u8> = Vec::new();
                        std::mem::swap(&mut taken, &mut acc);
                        res.push(PtyPiece::Passthrough(taken));
                        assert(pieces_view(res@) =~= found_before + flush_pass(taken@));
                    } else {
                        assert(found_before + flush_pass(acc@) =~= found_before);
                    }
                    assert(acc@ =~= Seq::<u8>::empty());
                    assert(termfix_pending_start(s, i as int) == i);
                    keep_from = i;
                    i = len;
                },
                Some((end_idx, term_len)) => {
                    if termfix_body_at(pending.as_slice(), i + 2, end_idx) {
                        let ghost acc_before = acc@;
                        if acc.len() > 0 {
                            let mut taken: Vec<u8> = Vec::new();
                            std::mem::swap(&mut taken, &mut acc);
                            res.push(PtyPiece::Passthrough(taken));
                        }
                        let command = copy_range(pending.as_slice(), i + 2 + 17, end_idx);
                        assert(command@ =~= s.subrange(i + 2, end_idx as int).skip(17));
                        res.push(PtyPiece::Command(command));
                        assert(pieces_view(res@) =~= found_before + flush_pass(acc_before) + seq![
                            PieceView::Command(s.subrange(i + 2, end_idx as int).skip(17)),
                        ]);
                        acc.clear();
                    } else {
                        let seq_bytes = copy_range(pending.as_slice(), i, end_idx + term_len);
                        append_bytes(&mut acc, seq_bytes.as_slice());
                    }
                    i = end_idx + term_len;
                },
            }
        } else {
            acc.push(pending[i]);
            i += 1;
        }
    }
    let ghost found_before = pieces_view(res@);
    if acc.len() > 0 {
        let ghost a = acc@;
        res.push(PtyPiece::Passthrough(acc));
        assert(pieces_view(res@) =~= found_before + flush_pass(a));
    } else {
        assert(found_before + flush_pass(acc@) =~= found_before);
    }
    let rest = pending.split_off(keep_from);
    *pending = rest;
    res
}

/// The bytes `already active\r\n`.
pub open spec fn already_active_reply() -> Seq<u8> {
    seq![
        0x61u8, 0x6cu8, 0x72u8, 0x65u8, 0x61u8, 0x64u8, 0x79u8, 0x20u8, 0x61u8, 0x63u8, 0x74u8,
        0x69u8, 0x76u8, 0x65u8, 0x0du8, 0x0au8,
    ]
}

/// The bytes `active\r\n`.
pub open spec fn active_reply() -> Seq<u8> {
    seq![0x61u8, 0x63u8, 0x74u8, 0x69u8, 0x76u8, 0x65u8, 0x0du8, 0x0au8]
}

/// The bytes `Error\n`.
pub open spec fn missing_command_text() -> Seq<u8> {
    seq![0x45u8, 0x72u8, 0x72u8, 0x6fu8, 0x72u8, 0x0au8]
}

/// What to do for a built-in command typed inside a recorded session.
pub enum TermfixAction {
    /// Answer with these bytes.
    Reply(Vec<u8>),
    /// Render the recorded session and answer with it as JSON.
    ShowContext,
    /// Send the `count` most recent recorded commands, with the question
    /// `message`, to the diagnosis service and stream its answer to the
    /// terminal.
    StreamFix { count: Count, message: Option<String> },
}

/// Decides how to answer a built-in command once its command line has been
/// parsed: inside a session `start` answers `already active`, `status`
/// answers `active`, a command line without subcommand answers `Error`, and
/// `fix` sends the commands its options select (the last one by default)
/// with its message.
pub fn termfix_action(command: Option<Commands>) -> (res: TermfixAction)
    ensures
        match command {
            Some(Commands::Start) => res matches TermfixAction::Reply(b) && b@
                == already_active_reply(),
            Some(Commands::Status) => res matches TermfixAction::Reply(b) && b@ == active_reply(),
            Some(Commands::Context) => res is ShowContext,
            Some(Commands::Fix { message, count, all }) => res matches TermfixAction::StreamFix {
                count: c,
                message: m,
            } && c == fix_count_spec(count, all) && m == message,
            None => res matches TermfixAction::Reply(b) && b@ == spec_normalize_for_tty(
                missing_command_text(),
            ),
        },
{
    match command {
        Some(Commands::Start) => TermfixAction::Reply(
            vec![
                0x61u8, 0x6cu8, 0x72u8, 0x65u8, 0x61u8, 0x64u8, 0x79u8, 0x20u8, 0x61u8, 0x63u8,
                0x74u8, 0x69u8, 0x76u8, 0x65u8, 0x0du8, 0x0au8,
            ],
        ),
        Some(Commands::Status) => TermfixAction::Reply(
            vec![0x61u8, 0x63u8, 0x74u8, 0x69u8, 0x76u8, 0x65u8, 0x0du8, 0x0au8],
        ),
        Some(Commands::Context) => TermfixAction::ShowContext,
        Some(Commands::Fix { message, count, all }) => TermfixAction::StreamFix {
            count: fix_count(count, all),
            message,
        },
        None => TermfixAction::Reply(
            normalize_for_tty(vec![0x45u8, 0x72u8, 0x72u8, 0x6fu8, 0x72u8, 0x0au8]),
        ),
    }
}

/// The reply to `context`: the JSON text of the recorded commands followed
/// by `\r\n`, made safe for a raw-mode terminal.
pub fn context_reply(json: &[u8]) -> (res: Vec<u8>)
    ensures
        res@ == spec_normalize_for_tty(json@ + seq![CR, LF]),
{
    let mut text: Vec<u8> = Vec::new();
    append_bytes(&mut text, json);
    text.push(CR);
    text.push(LF);
    assert(text@ =~= json@ + seq![CR, LF]);
    normalize_for_tty(text)
}

/// The reply to a built-in command line that does not parse: the parser's
/// message followed by a line feed, made safe for a raw-mode terminal.
pub fn parse_error_reply(message: &[u8]) -> (res: Vec<u8>)
    ensures
        res@ == spec_normalize_for_tty(message@ + seq![LF]),
{
    let mut text: Vec<u8> = Vec::new();
    append_bytes(&mut text, message);
    text.push(LF);
    assert(text@ =~= message@ + seq![LF]);
    normalize_for_tty(text)
}

/// The argument list a built-in command is parsed from: the program's own
/// name, then the white-space separated words of what was typed after
/// `termfix`.
pub fn command_arguments(program: &str, command: &str) -> (res: Vec<String>)
    ensures
        strings_view(res@) == seq![program@] + split_whitespace_spec(command@),
{
    let mut args: Vec<String> = Vec::new();
    args.push(program.to_string());
    assert(strings_view(args@) =~= seq![program@]);
    push_words(&mut args, command);
    args
}

proof fn lemma_plain_strip_from(s: Seq<u8>, i: int)
    requires
        0 <= i <= s.len(),
        forall|k: int| 0 <= k < s.len() ==> #[trigger] s[k] != FF && s[k] != ESC,
    ensures
        strip_clear_from(s, i) == s.subrange(i, s.len() as int),
    decreases s.len() - i,
{
    if i < s.len() {
        lemma_plain_strip_from(s, i + 1);
        assert(seq![s[i]] + s.subrange(i + 1, s.len() as int) =~= s.subrange(i, s.len() as int));
    } else {
        assert(s.subrange(i, s.len() as int) =~= Seq::<u8>::empty());
    }
}

/// Output that holds no form feed and no escape sequence is recorded exactly
/// as the shell printed it: the clear filter only removes what clears the
/// screen.
pub proof fn law_plain_text_survives_clear_filter(s: Seq<u8>)
    requires
        forall|k: int| 0 <= k < s.len() ==> #[trigger] s[k] != FF && s[k] != ESC,
    ensures
        spec_strip_clear_sequences(s) == s,
{
    lemma_plain_strip_from(s, 0);
    assert(s.subrange(0, s.len() as int) =~= s);
}

proof fn lemma_plain_pieces_from(s: Seq<u8>, i: int, acc: Seq<u8>)
    requires
        0 <= i <= s.len(),
        forall|k: int| 0 <= k < s.len() ==> #[trigger] s[k] != ESC,
    ensures
        termfix_pieces_from(s, i, acc) == flush_pass(acc + s.subrange(i, s.len() as int)),
    decreases s.len() - i,
{
    if i < s.len() {
        lemma_plain_pieces_from(s, i + 1, acc.push(s[i]));
        assert(acc.push(s[i]) + s.subrange(i + 1, s.len() as int) =~= acc + s.subrange(
            i,
            s.len() as int,
        ));
    } else {
        assert(acc + s.subrange(i, s.len() as int) =~= acc);
    }
}

/// Shell output without escape sequences holds no built-in command: all of
/// it is passed on, in one piece.
pub proof fn law_plain_output_passes_through(s: Seq<u8>)
    requires
        forall|k: int| 0 <= k < s.len() ==> #[trigger] s[k] != ESC,
    ensures
        spec_termfix_pieces(s) == flush_pass(s),
{
    lemma_plain_pieces_from(s, 0, Seq::empty());
    assert(Seq::<u8>::empty() + s.subrange(0, s.len() as int) =~= s);
}

/// The sequence the `termfix` shell function emits for `command`:
/// `ESC ] 1337;TERMFIX_CMD=<command> BEL`.
pub open spec fn termfix_command_sequence(command: Seq<u8>) -> Seq<u8> {
    seq![ESC, RBRACKET] + termfix_command_prefix() + command + seq![BEL]
}

/// A built-in command sent by the shell function comes out as that command
/// alone: none of its bytes are passed on to the terminal or the record.
pub proof fn law_termfix_command_not_passed_through(command: Seq<u8>)
    requires
        forall|k: int| 0 <= k < command.len() ==> #[trigger] command[k] != BEL && command[k] != ESC,
    ensures
        spec_termfix_pieces(termfix_command_sequence(command)) == seq![PieceView::Command(command)],
{
    let s = termfix_command_sequence(command);
    let e = s.len() - 1;
    assert(s[e] == BEL);
    assert forall|m: int| 2 <= m < e && m < s.len() implies s[m] != BEL && !(#[trigger] s[m] == ESC
        && m + 1 < s.len() && s[m + 1] == crate::escape::BACKSLASH) by {
        if m < 19 {
            assert(s[m] == termfix_command_prefix()[m - 2]);
        } else {
            assert(s[m] == command[m - 19]);
        }
    }
    lemma_osc_terminator_skip(s, 2, e);
    assert(osc_terminator(s, e) == Some((e, 1int)));
    assert(osc_starts_at(s, 0));
    let body = s.subrange(2, e);
    assert(body.take(17) =~= termfix_command_prefix());
    assert(body.skip(17) =~= command);
    assert(termfix_pieces_from(s, e + 1, Seq::empty()) == flush_pass(Seq::<u8>::empty()));
    assert(flush_pass(Seq::<u8>::empty()) + seq![PieceView::Command(command)] + Seq::<
        PieceView,
    >::empty() =~= seq![PieceView::Command(command)]);
}

/// A built-in command whose sequence arrives in two reads, split anywhere
/// after its `ESC ]`, is held back whole by the first read (nothing is passed
/// on) and comes out as that command alone in the second read, leaving
/// nothing pending.
pub proof fn law_split_termfix_command_runs_whole(command: Seq<u8>, k: int)
    requires
        forall|m: int| 0 <= m < command.len() ==> #[trigger] command[m] != BEL && command[m] != ESC,
        2 <= k < termfix_command_sequence(command).len(),
    ensures
        spec_termfix_pieces(termfix_command_sequence(command).take(k)) == Seq::<PieceView>::empty(),
        spec_termfix_pending(termfix_command_sequence(command).take(k)) == termfix_command_sequence(
            command,
        ).take(k),
        spec_termfix_pieces(
            spec_termfix_pending(termfix_command_sequence(command).take(k))
                + termfix_command_sequence(command).skip(k),
        ) == seq![PieceView::Command(command)],
        spec_termfix_pending(
            spec_termfix_pending(termfix_command_sequence(command).take(k))
                + termfix_command_sequence(command).skip(k),
        ) == Seq::<u8>::empty(),
{
    let full = termfix_command_sequence(command);
    let t = full.take(k);
    let e = full.len() - 1;
    assert forall|m: int| 2 <= m < e implies full[m] != BEL && full[m] != ESC by {
        if m < 19 {
            assert(full[m] == termfix_command_prefix()[m - 2]);
        } else {
            assert(full[m] == command[m - 19]);
        }
    }
    assert forall|m: int| 2 <= m < k && m < t.len() implies t[m] != BEL && !(#[trigger] t[m] == ESC
        && m + 1 < t.len() && t[m + 1] == crate::escape::BACKSLASH) by {
        assert(t[m] == full[m]);
    }
    lemma_osc_terminator_skip(t, 2, k);
    assert(t[0] == full[0] && t[1] == full[1]);
    assert(osc_starts_at(t, 0));
    assert(osc_terminator(t, 2) is None);
    assert(flush_pass(Seq::<u8>::empty()) =~= Seq::<PieceView>::empty());
    assert(t.skip(0) =~= t);
    assert(t + full.skip(k) =~= full);
    law_termfix_command_not_passed_through(command);
    assert forall|m: int| 2 <= m < e && m < full.len() implies full[m] != BEL && !(
    #[trigger] full[m] == ESC && m + 1 < full.len() && full[m + 1] == crate::escape::BACKSLASH) by {}
    lemma_osc_terminator_skip(full, 2, e);
    assert(full[e] == BEL);
    assert(osc_terminator(full, e) == Some((e, 1int)));
    assert(osc_starts_at(full, 0));
    assert(osc_terminator(full, 2) == Some((e, 1int)));
    assert(termfix_pending_start(full, e + 1) == full.len());
    assert(termfix_pending_start(full, 0) == full.len());
    assert(full.skip(full.len() as int) =~= Seq::<u8>::empty());
}

/// Bytes passed on, one piece per byte.
pub open spec fn byte_units(b: Seq<u8>) -> Seq<PieceView> {
    Seq::new(b.len(), |k: int| PieceView::Passthrough(seq![b[k]]))
}

/// A piece as single-byte passthrough pieces, or the command itself.
pub open spec fn piece_units(p: PieceView) -> Seq<PieceView> {
    match p {
        PieceView::Passthrough(b) => byte_units(b),
        PieceView::Command(c) => seq![PieceView::Command(c)],
    }
}

/// The pieces with every passthrough piece cut into single bytes: what is
/// shown and run, in order, whatever way the bytes were grouped.
pub open spec fn piece_units_seq(ps: Seq<PieceView>) -> Seq<PieceView>
    decreases ps.len(),
{
    if ps.len() == 0 {
        Seq::empty()
    } else {
        piece_units_seq(ps.drop_last()) + piece_units(ps.last())
    }
}

proof fn lemma_piece_units_concat(x: Seq<PieceView>, y: Seq<PieceView>)
    ensures
        piece_units_seq(x + y) == piece_units_seq(x) + piece_units_seq(y),
    decreases y.len(),
{
    if y.len() == 0 {
        assert(x + y =~= x);
        assert(piece_units_seq(x) + Seq::<PieceView>::empty() =~= piece_units_seq(x));
    } else {
        assert((x + y).drop_last() =~= x + y.drop_last());
        lemma_piece_units_concat(x, y.drop_last());
        assert((x + y).last() == y.last());
        assert(piece_units_seq(x) + piece_units_seq(y.drop_last()) + piece_units(y.last())
            =~= piece_units_seq(x) + (piece_units_seq(y.drop_last()) + piece_units(y.last())));
    }
}

proof fn lemma_byte_units_concat(a: Seq<u8>, b: Seq<u8>)
    ensures
        byte_units(a + b) == byte_units(a) + byte_units(b),
{
    assert(byte_units(a + b) =~= byte_units(a) + byte_units(b));
}

proof fn lemma_flush_units(acc: Seq<u8>)
    ensures
        piece_units_seq(flush_pass(acc)) == byte_units(acc),
{
    if acc.len() > 0 {
        let one = seq![PieceView::Passthrough(acc)];
        assert(one.drop_last() =~= Seq::<PieceView>::empty());
        assert(piece_units_seq(Seq::<PieceView>::empty()) == Seq::<PieceView>::empty());
        assert(one.last() == PieceView::Passthrough(acc));
        assert(piece_units_seq(one) == piece_units_seq(one.drop_last()) + piece_units(one.last()));
        assert(Seq::<PieceView>::empty() + byte_units(acc) =~= byte_units(acc));
    } else {
        assert(byte_units(acc) =~= Seq::<PieceView>::empty());
        assert(flush_pass(acc) == Seq::<PieceView>::empty());
        assert(piece_units_seq(Seq::<PieceView>::empty()) == Seq::<PieceView>::empty());
    }
}

/// The bytes gathered so far come first, one unit per byte.
proof fn lemma_pieces_acc_units(s: Seq<u8>, i: int, acc: Seq<u8>)
    ensures
        piece_units_seq(termfix_pieces_from(s, i, acc)) == byte_units(acc) + piece_units_seq(
            termfix_pieces_from(s, i, Seq::empty()),
        ),
    decreases s.len() - i,
{
    lemma_flush_units(acc);
    lemma_flush_units(Seq::<u8>::empty());
    assert(byte_units(Seq::<u8>::empty()) =~= Seq::<PieceView>::empty());
    if i < 0 || i >= s.len() {
        assert(byte_units(acc) + Seq::<PieceView>::empty() =~= byte_units(acc));
    } else if osc_starts_at(s, i) {
        lemma_osc_terminator_bounds(s, i + 2);
        match osc_terminator(s, i + 2) {
            None => {
                assert(byte_units(acc) + Seq::<PieceView>::empty() =~= byte_units(acc));
            },
            Some((e, t)) => {
                let body = s.subrange(i + 2, e);
                let next = e + t;
                if is_termfix_body(body) {
                    let cmd = seq![PieceView::Command(body.skip(17))];
                    let rest = termfix_pieces_from(s, next, Seq::empty());
                    lemma_piece_units_concat(flush_pass(acc) + cmd, rest);
                    lemma_piece_units_concat(flush_pass(acc), cmd);
                    lemma_piece_units_concat(flush_pass(Seq::<u8>::empty()) + cmd, rest);
                    lemma_piece_units_concat(flush_pass(Seq::<u8>::empty()), cmd);
                    assert(byte_units(acc) + (Seq::<PieceView>::empty() + piece_units_seq(cmd)
                        + piece_units_seq(rest)) =~= byte_units(acc) + piece_units_seq(cmd)
                        + piece_units_seq(rest));
                } else {
                    let seg = s.subrange(i, next);
                    lemma_pieces_acc_units(s, next, acc + seg);
                    lemma_pieces_acc_units(s, next, Seq::<u8>::empty() + seg);
                    assert(Seq::<u8>::empty() + seg =~= seg);
                    lemma_byte_units_concat(acc, seg);
                    assert(byte_units(acc) + byte_units(seg) + piece_units_seq(
                        termfix_pieces_from(s, next, Seq::empty()),
                    ) =~= byte_units(acc) + (byte_units(seg) + piece_units_seq(
                        termfix_pieces_from(s, next, Seq::empty()),
                    )));
                }
            },
        }
    } else {
        lemma_pieces_acc_units(s, i + 1, acc.push(s[i]));
        lemma_pieces_acc_units(s, i + 1, Seq::<u8>::empty().push(s[i]));
        assert(acc.push(s[i]) =~= acc + seq![s[i]]);
        assert(Seq::<u8>::empty().push(s[i]) =~= seq![s[i]]);
        lemma_byte_units_concat(acc, seq![s[i]]);
        assert(byte_units(acc) + byte_units(seq![s[i]]) + piece_units_seq(
            termfix_pieces_from(s, i + 1, Seq::empty()),
        ) =~= byte_units(acc) + (byte_units(seq![s[i]]) + piece_units_seq(
            termfix_pieces_from(s, i + 1, Seq::empty()),
        )));
    }
}

proof fn lemma_termfix_pieces_shift(p: Seq<u8>, q: Seq<u8>, k: int, acc: Seq<u8>)
    requires
        0 <= k,
    ensures
        termfix_pieces_from(p + q, p.len() + k, acc) == termfix_pieces_from(q, k, acc),
        termfix_pending_start(p + q, p.len() + k) == p.len() + termfix_pending_start(q, k),
    decreases q.len() - k,
{
    let s = p + q;
    let o = p.len() as int;
    if k < q.len() {
        assert(s[o + k] == q[k]);
        if k + 1 < q.len() {
            assert(s[o + k + 1] == q[k + 1]);
        }
        if osc_starts_at(q, k) {
            crate::escape::lemma_osc_terminator_shift(p, q, k + 2);
            lemma_osc_terminator_bounds(q, k + 2);
            if let Some((e, t)) = osc_terminator(q, k + 2) {
                let next = e + t;
                assert(s.subrange(o + k + 2, o + e) =~= q.subrange(k + 2, e));
                assert(s.subrange(o + k, o + next) =~= q.subrange(k, next));
                lemma_termfix_pieces_shift(p, q, next, Seq::empty());
                lemma_termfix_pieces_shift(p, q, next, acc + q.subrange(k, next));
            }
        } else {
            assert(!osc_starts_at(s, o + k));
            lemma_termfix_pieces_shift(p, q, k + 1, acc.push(q[k]));
        }
    }
}

proof fn lemma_termfix_pieces_concat(a: Seq<u8>, b: Seq<u8>, i: int)
    requires
        0 <= i <= a.len(),
        !(a.len() > 0 && a.last() == ESC && b.len() > 0 && b[0] == RBRACKET),
    ensures
        piece_units_seq(termfix_pieces_from(a + b, i, Seq::empty())) == piece_units_seq(
            termfix_pieces_from(a, i, Seq::empty()),
        ) + piece_units_seq(termfix_pieces_from(a + b, termfix_pending_start(a, i), Seq::empty())),
        termfix_pending_start(a + b, i) == termfix_pending_start(
            a + b,
            termfix_pending_start(a, i),
        ),
    decreases a.len() - i,
{
    let s = a + b;
    lemma_flush_units(Seq::<u8>::empty());
    assert(byte_units(Seq::<u8>::empty()) =~= Seq::<PieceView>::empty());
    if i == a.len() {
        assert(Seq::<PieceView>::empty() + piece_units_seq(termfix_pieces_from(s, i, Seq::empty()))
            =~= piece_units_seq(termfix_pieces_from(s, i, Seq::empty())));
    } else {
        assert(s[i] == a[i]);
        if i + 1 < a.len() {
            assert(s[i + 1] == a[i + 1]);
        }
        if osc_starts_at(a, i) {
            assert(osc_starts_at(s, i));
            lemma_osc_terminator_bounds(a, i + 2);
            match osc_terminator(a, i + 2) {
                None => {
                    assert(Seq::<PieceView>::empty() + piece_units_seq(
                        termfix_pieces_from(s, i, Seq::empty()),
                    ) =~= piece_units_seq(termfix_pieces_from(s, i, Seq::empty())));
                },
                Some((e, t)) => {
                    crate::escape::lemma_osc_terminator_prefix(a, b, i + 2);
                    let next = e + t;
                    assert(s.subrange(i + 2, e) =~= a.subrange(i + 2, e));
                    assert(s.subrange(i, next) =~= a.subrange(i, next));
                    lemma_termfix_pieces_concat(a, b, next);
                    let body = a.subrange(i + 2, e);
                    let tail = piece_units_seq(
                        termfix_pieces_from(s, termfix_pending_start(a, next), Seq::empty()),
                    );
                    if is_termfix_body(body) {
                        let cmd = seq![PieceView::Command(body.skip(17))];
                        let ra = termfix_pieces_from(a, next, Seq::empty());
                        let rs = termfix_pieces_from(s, next, Seq::empty());
                        lemma_piece_units_concat(flush_pass(Seq::<u8>::empty()) + cmd, ra);
                        lemma_piece_units_concat(flush_pass(Seq::<u8>::empty()) + cmd, rs);
                        lemma_piece_units_concat(flush_pass(Seq::<u8>::empty()), cmd);
                        assert(piece_units_seq(cmd) + (piece_units_seq(ra) + tail) =~= (
                        piece_units_seq(cmd) + piece_units_seq(ra)) + tail);
                        assert(Seq::<PieceView>::empty() + piece_units_seq(cmd) =~= piece_units_seq(
                            cmd,
                        ));
                    } else {
                        let seg = a.subrange(i, next);
                        lemma_pieces_acc_units(a, next, seg);
                        lemma_pieces_acc_units(s, next, seg);
                        assert(Seq::<u8>::empty() + seg =~= seg);
                        assert(byte_units(seg) + (piece_units_seq(
                            termfix_pieces_from(a, next, Seq::empty()),
                        ) + tail) =~= (byte_units(seg) + piece_units_seq(
                            termfix_pieces_from(a, next, Seq::empty()),
                        )) + tail);
                    }
                },
            }
        } else {
            assert(!osc_starts_at(s, i));
            lemma_termfix_pieces_concat(a, b, i + 1);
            lemma_pieces_acc_units(a, i + 1, seq![a[i]]);
            lemma_pieces_acc_units(s, i + 1, seq![a[i]]);
            assert(Seq::<u8>::empty().push(a[i]) =~= seq![a[i]]);
            let tail = piece_units_seq(
                termfix_pieces_from(s, termfix_pending_start(a, i + 1), Seq::empty()),
            );
            assert(byte_units(seq![a[i]]) + (piece_units_seq(
                termfix_pieces_from(a, i + 1, Seq::empty()),
            ) + tail) =~= (byte_units(seq![a[i]]) + piece_units_seq(
                termfix_pieces_from(a, i + 1, Seq::empty()),
            )) + tail);
        }
    }
}

proof fn lemma_termfix_pending_start_bounds(s: Seq<u8>, i: int)
    requires
        0 <= i,
    ensures
        i <= s.len() ==> i <= termfix_pending_start(s, i) <= s.len(),
        i > s.len() ==> termfix_pending_start(s, i) == s.len(),
    decreases s.len() - i,
{
    if i < s.len() {
        if osc_starts_at(s, i) {
            lemma_osc_terminator_bounds(s, i + 2);
            if let Some((e, t)) = osc_terminator(s, i + 2) {
                lemma_termfix_pending_start_bounds(s, e + t);
            }
        } else {
            lemma_termfix_pending_start_bounds(s, i + 1);
        }
    }
}

/// Scanning shell output chunk by chunk, with the unterminated OSC sequence
/// carried over in between, shows the same bytes and runs the same commands
/// in the same order as scanning it whole, and leaves the same bytes
/// waiting; the one exception is a first chunk that ends with an `ESC` whose
/// `]` opens the next chunk.
pub proof fn law_termfix_scan_chunking(a: Seq<u8>, b: Seq<u8>)
    requires
        !(a.len() > 0 && a.last() == ESC && b.len() > 0 && b[0] == RBRACKET),
    ensures
        piece_units_seq(spec_termfix_pieces(a)) + piece_units_seq(
            spec_termfix_pieces(spec_termfix_pending(a) + b),
        ) == piece_units_seq(spec_termfix_pieces(a + b)),
        spec_termfix_pending(spec_termfix_pending(a) + b) == spec_termfix_pending(a + b),
{
    let u = termfix_pending_start(a, 0);
    lemma_termfix_pending_start_bounds(a, 0);
    let p = a.take(u);
    let q = a.skip(u) + b;
    assert(a + b =~= p + q);
    lemma_termfix_pieces_concat(a, b, 0);
    lemma_termfix_pieces_shift(p, q, 0, Seq::empty());
    assert(p.len() == u);
    lemma_termfix_pending_start_bounds(q, 0);
    let k = termfix_pending_start(q, 0);
    assert((a + b).skip(u + k) =~= q.skip(k));
}

/// The control sequence `ESC [ params final_byte`.
pub open spec fn control_sequence(params: Seq<u8>, final_byte: u8) -> Seq<u8> {
    seq![ESC, LBRACKET] + params + seq![final_byte]
}

proof fn lemma_control_sequence_step(params: Seq<u8>, f: u8, b: Seq<u8>)
    requires
        forall|m: int| 0 <= m < params.len() ==> !(0x40 <= #[trigger] params[m] <= 0x7e),
        0x40 <= f <= 0x7e,
    ensures
        ({
            let c = control_sequence(params, f);
            &&& strip_clear_from(c + b, 0) == (if clears_screen(f, params) {
                Seq::<u8>::empty()
            } else {
                c
            }) + strip_clear_from(b, 0)
            &&& clear_pending_start(c + b, 0) == c.len() + clear_pending_start(b, 0)
        }),
{
    let c = control_sequence(params, f);
    let s = c + b;
    let j = c.len() - 1;
    assert(s[0] == ESC && s[1] == LBRACKET);
    assert forall|m: int| 2 <= m < j && m < c.len() implies !is_csi_final(#[trigger] c[m]) by {
        assert(c[m] == params[m - 2]);
    }
    lemma_first_csi_final_skip(c, 2, j);
    assert(c[j] == f);
    assert(first_csi_final(c, j) == Some(j));
    lemma_first_csi_final_prefix(c, b, 2);
    assert(s.subrange(2, j) =~= params);
    assert(s.subrange(0, j + 1) =~= c);
    assert(s[j] == f);
    lemma_strip_clear_shift(c, b, 0);
}

/// Only screen clears (`ESC [ ... J`) and cursor-home sequences (`ESC [ H`,
/// `ESC [ 1 H`, `ESC [ 1 ; 1 H`) are taken out of the record: any other
/// complete control sequence (erase in line, colours, cursor moves) is
/// recorded byte for byte, with what comes before and after it filtered as
/// it would be on its own. This holds where the text before it leaves no
/// control sequence unfinished and does not end with a lone `ESC`.
pub proof fn law_only_clears_leave_the_record(a: Seq<u8>, params: Seq<u8>, f: u8, b: Seq<u8>)
    requires
        !(a.len() > 0 && a.last() == ESC),
        spec_clear_pending(a).len() == 0,
        forall|m: int| 0 <= m < params.len() ==> !(0x40 <= #[trigger] params[m] <= 0x7e),
        0x40 <= f <= 0x7e,
    ensures
        spec_strip_clear_sequences(a + control_sequence(params, f) + b)
            == spec_strip_clear_sequences(a) + (if f == 0x4a || (f == 0x48 && (params.len() == 0
            || params == seq![0x31u8] || params == seq![0x31u8, 0x3bu8, 0x31u8])) {
            Seq::<u8>::empty()
        } else {
            control_sequence(params, f)
        }) + spec_strip_clear_sequences(b),
        spec_clear_pending(a + control_sequence(params, f) + b) == spec_clear_pending(b),
{
    let c = control_sequence(params, f);
    let q = c + b;
    assert(a + c + b =~= a + q);
    lemma_clear_pending_start_bounds(a, 0);
    assert(clear_pending_start(a, 0) == a.len());
    lemma_strip_clear_concat(a, q, 0);
    lemma_strip_clear_shift(a, q, 0);
    lemma_control_sequence_step(params, f, b);
    assert(clears_screen(f, params) == (f == 0x4a || (f == 0x48 && (params.len() == 0 || params
        == seq![0x31u8] || params == seq![0x31u8, 0x3bu8, 0x31u8])))) by {
        if params =~= seq![0x31u8] {
        }
        if params =~= seq![0x31u8, 0x3bu8, 0x31u8] {
        }
    }
    let piece = if clears_screen(f, params) {
        Seq::<u8>::empty()
    } else {
        c
    };
    assert(spec_strip_clear_sequences(a) + (piece + spec_strip_clear_sequences(b))
        =~= spec_strip_clear_sequences(a) + piece + spec_strip_clear_sequences(b));
    lemma_clear_pending_start_bounds(b, 0);
    assert((a + q).skip(a.len() + c.len() + clear_pending_start(b, 0)) =~= b.skip(
        clear_pending_start(b, 0),
    ));
}

/// The OSC sequence `ESC ] body` closed by `terminator`.
pub open spec fn terminated_osc(body: Seq<u8>, terminator: Seq<u8>) -> Seq<u8> {
    seq![ESC, RBRACKET] + body + terminator
}

proof fn lemma_other_osc_step(body: Seq<u8>, term: Seq<u8>, b: Seq<u8>, acc: Seq<u8>)
    requires
        forall|m: int| 0 <= m < body.len() ==> #[trigger] body[m] != BEL && body[m] != ESC,
        !(body.len() >= 17 && body.take(17) == termfix_command_prefix()),
        term == seq![BEL] || term == seq![ESC, crate::escape::BACKSLASH],
    ensures
        ({
            let o = terminated_osc(body, term);
            &&& termfix_pieces_from(o + b, 0, acc) == termfix_pieces_from(
                o + b,
                o.len() as int,
                acc + o,
            )
            &&& termfix_pending_start(o + b, 0) == termfix_pending_start(o + b, o.len() as int)
        }),
{
    let o = terminated_osc(body, term);
    let s = o + b;
    let e = 2 + body.len() as int;
    assert(s[0] == ESC && s[1] == RBRACKET);
    assert(osc_starts_at(s, 0));
    assert forall|m: int| 2 <= m < e && m < s.len() implies s[m] != BEL && !(#[trigger] s[m] == ESC
        && m + 1 < s.len() && s[m + 1] == crate::escape::BACKSLASH) by {
        assert(s[m] == body[m - 2]);
    }
    lemma_osc_terminator_skip(s, 2, e);
    if term == seq![BEL] {
        assert(s[e] == BEL);
        assert(osc_terminator(s, e) == Some((e, 1int)));
    } else {
        assert(s[e] == ESC && s[e + 1] == crate::escape::BACKSLASH);
        assert(osc_terminator(s, e) == Some((e, 2int)));
    }
    assert(s.subrange(2, e) =~= body);
    assert(s.subrange(0, o.len() as int) =~= o);
}

/// An OSC sequence that is not a built-in command (a window title, a
/// working-directory report, a prompt mark) is passed on whole, to the
/// terminal and to the record, whichever terminator (bell or `ESC \`) closes
/// it: alone it is one passthrough piece, and inside a stream it is shown
/// byte for byte between what comes before and after it. This holds where
/// the text before it leaves no OSC sequence unterminated.
pub proof fn law_other_osc_passed_on_whole(a: Seq<u8>, body: Seq<u8>, term: Seq<u8>, b: Seq<u8>)
    requires
        forall|m: int| 0 <= m < body.len() ==> #[trigger] body[m] != BEL && body[m] != ESC,
        !(body.len() >= 17 && body.take(17) == termfix_command_prefix()),
        term == seq![BEL] || term == seq![ESC, crate::escape::BACKSLASH],
        spec_termfix_pending(a).len() == 0,
    ensures
        spec_termfix_pieces(terminated_osc(body, term)) == seq![
            PieceView::Passthrough(terminated_osc(body, term)),
        ],
        spec_termfix_pending(terminated_osc(body, term)) == Seq::<u8>::empty(),
        piece_units_seq(spec_termfix_pieces(a + terminated_osc(body, term) + b)) == piece_units_seq(
            spec_termfix_pieces(a),
        ) + byte_units(terminated_osc(body, term)) + piece_units_seq(spec_termfix_pieces(b)),
        spec_termfix_pending(a + terminated_osc(body, term) + b) == spec_termfix_pending(b),
{
    let o = terminated_osc(body, term);
    let q = o + b;
    lemma_other_osc_step(body, term, Seq::<u8>::empty(), Seq::empty());
    assert(o + Seq::<u8>::empty() =~= o);
    assert(Seq::<u8>::empty() + o =~= o);
    assert(o.skip(o.len() as int) =~= Seq::<u8>::empty());
    lemma_other_osc_step(body, term, b, Seq::empty());
    assert(a + o + b =~= a + q);
    lemma_termfix_pending_start_bounds(a, 0);
    assert(termfix_pending_start(a, 0) == a.len());
    lemma_termfix_pieces_concat(a, q, 0);
    lemma_termfix_pieces_shift(a, q, 0, Seq::empty());
    lemma_pieces_acc_units(q, o.len() as int, o);
    lemma_termfix_pieces_shift(o, b, 0, Seq::empty());
    assert(piece_units_seq(spec_termfix_pieces(a)) + (byte_units(o) + piece_units_seq(
        spec_termfix_pieces(b),
    )) =~= piece_units_seq(spec_termfix_pieces(a)) + byte_units(o) + piece_units_seq(
        spec_termfix_pieces(b),
    ));
    lemma_termfix_pending_start_bounds(b, 0);
    assert((a + q).skip(a.len() + o.len() + termfix_pending_start(b, 0)) =~= b.skip(
        termfix_pending_start(b, 0),
    ));
}

} // verus!
