//! Control bytes and the operating-system-command (OSC) escape sequences that
//! the shell hooks use to mark where commands start and end.

use vstd::prelude::*;

verus! {

/// Bell, one of the two OSC terminators.
pub const BEL: u8 = 0x07;

pub const LF: u8 = 0x0a;

pub const FF: u8 = 0x0c;

pub const CR: u8 = 0x0d;

pub const ESC: u8 = 0x1b;

pub const LBRACKET: u8 = 0x5b;

pub const BACKSLASH: u8 = 0x5c;

pub const RBRACKET: u8 = 0x5d;

/// An OSC sequence (`ESC ]`) starts at position `i` of `s`.
pub open spec fn osc_starts_at(s: Seq<u8>, i: int) -> bool {
    0 <= i && i + 1 < s.len() && s[i] == ESC && s[i + 1] == RBRACKET
}

/// The first OSC terminator at or after `k`: its position and its length
/// (1 for a bell, 2 for `ESC \`).
pub open spec fn osc_terminator(s: Seq<u8>, k: int) -> Option<(int, int)>
    decreases s.len() - k,
{
    if k < 0 || k >= s.len() {
        None
    } else if s[k] == BEL {
        Some((k, 1))
    } else if s[k] == ESC && k + 1 < s.len() && s[k + 1] == BACKSLASH {
        Some((k, 2))
    } else {
        osc_terminator(s, k + 1)
    }
}

pub proof fn lemma_osc_terminator_bounds(s: Seq<u8>, k: int)
    ensures
        osc_terminator(s, k) matches Some((e, t)) ==> 0 <= k <= e && e + t <= s.len() && (t == 1
            || t == 2),
    decreases s.len() - k,
{
    if 0 <= k < s.len() && s[k] != BEL && !(s[k] == ESC && k + 1 < s.len() && s[k + 1]
        == BACKSLASH) {
        lemma_osc_terminator_bounds(s, k + 1);
    }
}

pub proof fn lemma_osc_terminator_skip(s: Seq<u8>, k: int, j: int)
    requires
        0 <= k <= j,
        forall|m: int|
            k <= m < j && m < s.len() ==> s[m] != BEL && !(#[trigger] s[m] == ESC && m + 1
                < s.len() && s[m + 1] == BACKSLASH),
    ensures
        osc_terminator(s, k) == osc_terminator(s, j),
    decreases j - k,
{
    if k < j && k < s.len() {
        lemma_osc_terminator_skip(s, k + 1, j);
    }
}

/// When no terminator is found from `k` on, none of those positions holds one.
pub proof fn lemma_osc_terminator_none(s: Seq<u8>, k: int)
    requires
        0 <= k,
        osc_terminator(s, k) is None,
    ensures
        forall|m: int|
            k <= m < s.len() ==> s[m] != BEL && !(#[trigger] s[m] == ESC && m + 1 < s.len() && s[m
                + 1] == BACKSLASH),
    decreases s.len() - k,
{
    if k < s.len() {
        lemma_osc_terminator_none(s, k + 1);
    }
}

/// Looking for a terminator in `p + q` from inside `q` is looking in `q`.
pub proof fn lemma_osc_terminator_shift(p: Seq<u8>, q: Seq<u8>, k: int)
    requires
        0 <= k,
    ensures
        osc_terminator(p + q, p.len() + k) == match osc_terminator(q, k) {
            Some((e, t)) => Some((p.len() + e, t)),
            None => None::<(int, int)>,
        },
    decreases q.len() - k,
{
    if k < q.len() {
        assert((p + q)[p.len() + k] == q[k]);
        if k + 1 < q.len() {
            assert((p + q)[p.len() + k + 1] == q[k + 1]);
        }
        if !(q[k] == BEL) && !(q[k] == ESC && k + 1 < q.len() && q[k + 1] == BACKSLASH) {
            lemma_osc_terminator_shift(p, q, k + 1);
        }
    }
}

/// A terminator found in `a` is the one found in `a + b`.
pub proof fn lemma_osc_terminator_prefix(a: Seq<u8>, b: Seq<u8>, k: int)
    requires
        osc_terminator(a, k) is Some,
    ensures
        osc_terminator(a + b, k) == osc_terminator(a, k),
    decreases a.len() - k,
{
    if 0 <= k < a.len() {
        assert((a + b)[k] == a[k]);
        if k + 1 < a.len() {
            assert((a + b)[k + 1] == a[k + 1]);
        }
        if !(a[k] == BEL) && !(a[k] == ESC && k + 1 < a.len() && a[k + 1] == BACKSLASH) {
            lemma_osc_terminator_bounds(a, k + 1);
            lemma_osc_terminator_prefix(a, b, k + 1);
        }
    }
}

/// Finds the end of an OSC sequence whose body starts at `from`.
pub fn find_osc_terminator(s: &[u8], from: usize) -> (res: Option<(usize, usize)>)
    ensures
        match res {
            Some((e, t)) => osc_terminator(s@, from as int) == Some((e as int, t as int)),
            None => osc_terminator(s@, from as int) is None,
        },
{
    let len = s.len();
    let mut k = from;
    while k < len
        invariant
            len == s@.len(),
            from <= k,
            osc_terminator(s@, from as int) == osc_terminator(s@, k as int),
        decreases len - k,
    {
        if s[k] == BEL {
            return Some((k, 1));
        }
        if s[k] == ESC && k + 1 < len && s[k + 1] == BACKSLASH {
            return Some((k, 2));
        }
        proof {
            lemma_osc_terminator_skip(s@, k as int, k + 1);
        }
        k += 1;
    }
    None
}

} // verus!
