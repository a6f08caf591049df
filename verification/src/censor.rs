//! The streaming censor engine: canonicalizes its input, advances a set of
//! in-flight matches against the phrase trie while tolerating separators and
//! homoglyph substitutions, holds completed flagged matches pending until no
//! overlapping safe match can cancel them, and emits the input with committed
//! matches censored.
//!
//! Every step of the engine is specified by a spec-level transition function
//! over the state view `StV`; the executable methods prove that they compute
//! exactly those transitions, so the whole pass is a mathematical function of
//! the input text and configuration.

use vstd::prelude::*;

use crate::canon::{
    canonicalize, chars_of, lower_of, lower_seq, lowercase_char, spec_canon, spec_skippable,
    skippable_char, string_from_chars,
};
use crate::mtch::{spec_combine, spec_same_key, spec_scale, Match, NO_END, NO_LAST};
use crate::trie::{spec_child, spec_lookup, trie_wf, Trie, TrieNode};
use crate::typ::{Type, ANY_BITS, INAPPROPRIATE_BITS, MILD_BITS, MODERATE_BITS, OFFENSIVE_BITS, PROFANE_BITS, SAFE_BITS, SEVERE_BITS, SPAM_BITS};

verus! {

/// The streaming profanity censor.  Configure it, then call `censor`,
/// `analyze` or `censor_and_analyze` exactly once.
pub struct Censor {
    /// Phrases to detect, with their types.
    pub trie: Trie,
    /// Homoglyph and leet substitutions applied during matching.
    pub replacements: Vec<(char, Vec<char>)>,
    /// Characters dropped from the canonical stream.
    pub banned: Vec<char>,
    /// Censor words whose scaled type meets this threshold.
    pub censor_threshold: Type,
    /// Also censor the first character when the scaled type meets this.
    pub censor_first_character_threshold: Type,
    /// The character that replaces censored characters.
    pub censor_replacement: char,
    /// Disable false-positive suppression and the safe signal.
    pub ignore_false_positives: bool,
    /// Do not count replacement characters in the input as self-censoring.
    pub ignore_self_censoring: bool,
    /// The raw input characters.
    pub text: Vec<char>,
    /// Whether canonicalization has run; set by the first processing call.
    pub started: bool,
    /// The canonical form of the input.
    pub canon: Vec<char>,
    /// The canonical characters, censored in place as matches commit.
    pub buf: Vec<char>,
    /// Characters emitted so far.
    pub out: Vec<char>,
    /// Next canonical position to emit.
    pub spy: usize,
    /// Number of canonical characters the matcher has consumed.
    pub consumed: usize,
    /// The match frontier.
    pub matches: Vec<Match>,
    /// Completed flagged matches that may yet be cancelled.
    pub pending_commit: Vec<Match>,
    /// Whether the previous character was a separator.
    pub separate: bool,
    /// The previous (lowercased) character, if any.
    pub last: Option<char>,
    /// The last canonical position matched against.
    pub last_pos: usize,
    /// Accumulated detection types.
    pub typ: Type,
    /// Spam counters, saturating at the byte maximum.
    pub uppercase: u8,
    pub repetitions: u8,
    pub gibberish: u8,
    pub repl_count: u8,
    pub self_censoring: u8,
    /// Whether a whitelisted phrase covers the input so far.
    pub safe: bool,
    /// Whether the trailing synthetic separator has been processed.
    pub space_appended: bool,
    /// Whether all processing has completed.
    pub done: bool,
}

/// The engine state, as mathematical values.
#[verifier::ext_equal]
pub struct StV {
    pub canon: Seq<char>,
    pub buf: Seq<char>,
    pub out: Seq<char>,
    pub spy: int,
    pub consumed: int,
    pub matches: Seq<Match>,
    pub pending: Seq<Match>,
    pub separate: bool,
    pub last: Option<char>,
    pub last_pos: int,
    pub typ: u32,
    pub uppercase: u8,
    pub repetitions: u8,
    pub gibberish: u8,
    pub repl_count: u8,
    pub self_censoring: u8,
    pub safe: bool,
    pub started: bool,
    pub space_appended: bool,
    pub done: bool,
}

/// The configuration, fixed during a pass.
#[verifier::ext_equal]
pub struct CfgV {
    pub trie: Seq<NodeV>,
    pub repl: Seq<(char, Seq<char>)>,
    pub ignore_false_positives: bool,
    pub ignore_self_censoring: bool,
    pub censor_threshold: u32,
    pub first_char_threshold: u32,
    pub censor_replacement: char,
}

/// One trie node, as mathematical values.
#[verifier::ext_equal]
pub struct NodeV {
    pub children: Seq<(char, usize)>,
    pub word: bool,
    pub typ: u32,
}

/// The mathematical content of a trie arena.
pub open spec fn trie_view(nodes: Seq<TrieNode>) -> Seq<NodeV> {
    Seq::new(
        nodes.len(),
        |i: int|
            NodeV { children: nodes[i].children@, word: nodes[i].word, typ: nodes[i].typ.bits },
    )
}

/// The mathematical content of a replacement table.
pub open spec fn repl_view(table: Seq<(char, Vec<char>)>) -> Seq<(char, Seq<char>)> {
    Seq::new(table.len(), |i: int| (table[i].0, table[i].1@))
}

/// The child of node `n` along character `c`, if any.
pub open spec fn spec_child_v(nodes: Seq<NodeV>, n: int, c: char) -> Option<usize>
    recommends
        0 <= n < nodes.len(),
{
    crate::trie::spec_child_in(nodes[n].children, c)
}

/// Well-formedness of a trie's content: the root exists and every child
/// edge points strictly forward.
pub open spec fn trie_v_wf(nodes: Seq<NodeV>) -> bool {
    &&& nodes.len() >= 1
    &&& forall|i: int, j: int|
        0 <= i < nodes.len() && 0 <= j < nodes[i].children.len() ==> i
            < #[trigger] nodes[i].children[j].1 < nodes.len()
}

/// The view of a well-formed arena is well-formed, and its child edges are
/// the arena's.
pub proof fn lemma_trie_view_wf(nodes: Seq<TrieNode>)
    requires
        trie_wf(nodes),
    ensures
        trie_v_wf(trie_view(nodes)),
        forall|n: int, c: char|
            0 <= n < nodes.len() ==> #[trigger] spec_child_v(trie_view(nodes), n, c) == spec_child(
                nodes,
                n,
                c,
            ),
{
}

/// In a well-formed content view, child edges stay inside the arena and
/// point strictly forward.
pub proof fn lemma_child_v_bound(nodes: Seq<NodeV>, n: int, c: char)
    requires
        trie_v_wf(nodes),
        0 <= n < nodes.len(),
        spec_child_v(nodes, n, c) is Some,
    ensures
        n < spec_child_v(nodes, n, c).unwrap() < nodes.len(),
{
    crate::trie::lemma_child_in_mem(nodes[n].children, c);
}

/// The accumulator of one advance pass over the match frontier.
#[verifier::ext_equal]
pub struct Adv {
    pub matches: Seq<Match>,
    pub pending: Seq<Match>,
    pub safe: bool,
    pub drain_start: Option<int>,
    pub safety_end: int,
}

impl Censor {
    /// The engine state of this censor.
    pub open spec fn st(&self) -> StV {
        StV {
            canon: self.canon@,
            buf: self.buf@,
            out: self.out@,
            spy: self.spy as int,
            consumed: self.consumed as int,
            matches: self.matches@,
            pending: self.pending_commit@,
            separate: self.separate,
            last: self.last,
            last_pos: self.last_pos as int,
            typ: self.typ.bits,
            uppercase: self.uppercase,
            repetitions: self.repetitions,
            gibberish: self.gibberish,
            repl_count: self.repl_count,
            self_censoring: self.self_censoring,
            safe: self.safe,
            started: self.started,
            space_appended: self.space_appended,
            done: self.done,
        }
    }

    /// The configuration of this censor.
    pub open spec fn cfg(&self) -> CfgV {
        CfgV {
            trie: trie_view(self.trie.nodes@),
            repl: repl_view(self.replacements@),
            ignore_false_positives: self.ignore_false_positives,
            ignore_self_censoring: self.ignore_self_censoring,
            censor_threshold: self.censor_threshold.bits,
            first_char_threshold: self.censor_first_character_threshold.bits,
            censor_replacement: self.censor_replacement,
        }
    }
}

/// The smaller of two mathematical integers.
pub open spec fn min_i(a: int, b: int) -> int {
    if a <= b {
        a
    } else {
        b
    }
}

/// A byte counter increased with saturation.
pub open spec fn sat8(a: u8, n: int) -> u8 {
    if a + n > 255 {
        255u8
    } else {
        (a + n) as u8
    }
}

/// ASCII uppercase letters.
pub open spec fn spec_is_upper(c: char) -> bool {
    65 <= (c as u32) && (c as u32) <= 90
}

/// ASCII lowercase letters.
pub open spec fn spec_is_lower(c: char) -> bool {
    97 <= (c as u32) && (c as u32) <= 122
}

/// ASCII decimal digits.
pub open spec fn spec_is_digit(c: char) -> bool {
    48 <= (c as u32) && (c as u32) <= 57
}

/// The home row of a QWERTY keyboard; runs of these count as gibberish.
pub open spec fn spec_home_row(c: char) -> bool {
    c == 'a' || c == 's' || c == 'd' || c == 'f' || c == 'j' || c == 'k' || c == 'l' || c == ';'
}

/// The first index in the frontier holding this key, if any.
pub open spec fn spec_find_key(s: Seq<Match>, m: Match) -> Option<int>
    decreases s.len(),
{
    if s.len() == 0 {
        None
    } else if spec_same_key(s.first(), m) {
        Some(0)
    } else {
        match spec_find_key(s.drop_first(), m) {
            Some(i) => Some(i + 1),
            None => None,
        }
    }
}

/// Inserting into the frontier: merge with the entry of the same key, or
/// append.
pub open spec fn spec_insert(s: Seq<Match>, m: Match) -> Seq<Match> {
    match spec_find_key(s, m) {
        Some(i) => s.update(i, spec_combine(s[i], m)),
        None => s.push(m),
    }
}

/// The replacement string of a character, if the table has one.
pub open spec fn spec_repl_of(table: Seq<(char, Seq<char>)>, c: char) -> Option<Seq<char>>
    decreases table.len(),
{
    if table.len() == 0 {
        None
    } else if table.first().0 == c {
        Some(table.first().1)
    } else {
        spec_repl_of(table.drop_first(), c)
    }
}

/// One frontier match advanced over one character: the tolerance step keeps
/// the match alive across skippable or repeated characters, and the descent
/// step follows a trie edge, recording terminals.
pub open spec fn spec_advance_one(
    trie: Seq<NodeV>,
    ignore_fp: bool,
    skip: bool,
    raw_c: char,
    pos0: int,
    c: char,
    acc: Adv,
    m: Match,
) -> Adv {
    let acc1 = Adv { safety_end: min_i(acc.safety_end, m.start as int), ..acc };
    let acc2 = if (skip || c == m.last) && m.start as int != pos0 {
        let undo = Match {
            spaces: sat8(
                m.spaces,
                if (c == ' ' || c != raw_c) && skip && c != '\'' {
                    1
                } else {
                    0
                },
            ),
            ..m
        };
        Adv { matches: spec_insert(acc1.matches, undo), ..acc1 }
    } else {
        acc1
    };
    match spec_child_v(trie, m.node as int, c) {
        None => acc2,
        Some(nx) => {
            let next_m = Match {
                node: nx,
                spaces: sat8(
                    m.spaces,
                    if c != raw_c && skip && c != '\'' {
                        1
                    } else {
                        0
                    },
                ),
                last: c,
                ..m
            };
            let node = trie[nx as int];
            let safe2 = if node.word && node.typ & SAFE_BITS != 0 && next_m.start == 0
                && next_m.spaces == 0 && !ignore_fp {
                true
            } else {
                acc2.safe
            };
            let pending2 = if node.word && node.typ & ANY_BITS != 0 {
                acc2.pending.push(Match { end: pos0 as usize, ..next_m })
            } else {
                acc2.pending
            };
            let drain2 = if node.word && node.typ & ANY_BITS == 0 && next_m.spaces == 0
                && !ignore_fp {
                match acc2.drain_start {
                    Some(d) => Some(min_i(d, next_m.start as int)),
                    None => Some(next_m.start as int),
                }
            } else {
                acc2.drain_start
            };
            Adv {
                matches: spec_insert(acc2.matches, next_m),
                pending: pending2,
                safe: safe2,
                drain_start: drain2,
                safety_end: acc2.safety_end,
            }
        },
    }
}

/// The whole frontier advanced over one character, in order.
pub open spec fn spec_advance_list(
    trie: Seq<NodeV>,
    ignore_fp: bool,
    skip: bool,
    raw_c: char,
    pos0: int,
    c: char,
    tmp: Seq<Match>,
    i: int,
    acc: Adv,
) -> Adv
    decreases tmp.len() - i,
{
    if i < 0 || i >= tmp.len() {
        acc
    } else {
        spec_advance_list(
            trie,
            ignore_fp,
            skip,
            raw_c,
            pos0,
            c,
            tmp,
            i + 1,
            spec_advance_one(trie, ignore_fp, skip, raw_c, pos0, c, acc, tmp[i]),
        )
    }
}

/// The frontier advanced over every character of the replacement expansion.
/// Each expansion character advances the same saved frontier.
pub open spec fn spec_advance_chars(
    trie: Seq<NodeV>,
    ignore_fp: bool,
    skip: bool,
    raw_c: char,
    pos0: int,
    cs: Seq<char>,
    j: int,
    tmp: Seq<Match>,
    acc: Adv,
) -> Adv
    decreases cs.len() - j,
{
    if j < 0 || j >= cs.len() {
        acc
    } else {
        spec_advance_chars(
            trie,
            ignore_fp,
            skip,
            raw_c,
            pos0,
            cs,
            j + 1,
            tmp,
            spec_advance_list(trie, ignore_fp, skip, raw_c, pos0, cs[j], tmp, 0, acc),
        )
    }
}

/// Committing one pending match: accumulate its scaled type, and censor its
/// span when the scaled type meets the censor threshold, preserving the
/// first character unless the first-character threshold is also met.
pub open spec fn spec_commit_one(cfg: CfgV, m: Match, typ: u32, buf: Seq<char>) -> (u32, Seq<char>) {
    let scaled = spec_scale(cfg.trie[m.node as int].typ, m.spaces);
    let typ2 = typ | scaled;
    let buf2 = if scaled & cfg.censor_threshold != 0 {
        let from: int = if scaled & cfg.first_char_threshold == cfg.first_char_threshold {
            m.start as int
        } else {
            m.start as int + 1
        };
        Seq::new(
            buf.len(),
            |i: int|
                if from <= i && i <= m.end as int {
                    cfg.censor_replacement
                } else {
                    buf[i]
                },
        )
    } else {
        buf
    };
    (typ2, buf2)
}

/// The pending list filtered after one step: entries past the cancellation
/// point are dropped, entries no live match can still cancel are committed,
/// and the rest are kept.
pub open spec fn spec_retain(
    cfg: CfgV,
    pending: Seq<Match>,
    i: int,
    ds: Option<int>,
    se: int,
    typ: u32,
    buf: Seq<char>,
    kept: Seq<Match>,
) -> (Seq<Match>, u32, Seq<char>)
    decreases pending.len() - i,
{
    if i < 0 || i >= pending.len() {
        (kept, typ, buf)
    } else {
        let p = pending[i];
        if ds is Some && p.start as int >= ds.unwrap() {
            spec_retain(cfg, pending, i + 1, ds, se, typ, buf, kept)
        } else if (p.end as int) < se {
            let r = spec_commit_one(cfg, p, typ, buf);
            spec_retain(cfg, pending, i + 1, ds, se, r.0, r.1, kept)
        } else {
            spec_retain(cfg, pending, i + 1, ds, se, typ, buf, kept.push(p))
        }
    }
}

/// The smallest start position among pending matches, folded left.
pub open spec fn spec_min_start(pending: Seq<Match>, i: int, acc: int) -> int
    decreases pending.len() - i,
{
    if i < 0 || i >= pending.len() {
        acc
    } else {
        spec_min_start(pending, i + 1, min_i(acc, pending[i].start as int))
    }
}

/// ASCII uppercase characters in `buf[i..j]`.
pub open spec fn spec_count_upper(buf: Seq<char>, i: int, j: int) -> int
    decreases j - i,
{
    if i >= j {
        0
    } else {
        spec_count_upper(buf, i, j - 1) + if spec_is_upper(buf[j - 1]) {
            1int
        } else {
            0int
        }
    }
}

/// With no SAFE-typed terminal in the trie, one advance step cannot raise
/// the safe flag.
proof fn lemma_advance_one_keeps_safe(
    trie: Seq<NodeV>,
    ifp: bool,
    skip: bool,
    raw_c: char,
    p0: int,
    c: char,
    acc: Adv,
    m: Match,
)
    requires
        trie_v_wf(trie),
        spec_trie_safe_free(trie),
        m.node < trie.len(),
    ensures
        spec_advance_one(trie, ifp, skip, raw_c, p0, c, acc, m).safe == acc.safe,
{
    match spec_child_v(trie, m.node as int, c) {
        None => {},
        Some(nx) => {
            lemma_child_v_bound(trie, m.node as int, c);
            assert(trie[nx as int].typ & SAFE_BITS == 0);
        },
    }
}

/// With no SAFE-typed terminal in the trie, advancing the whole frontier
/// cannot raise the safe flag.
proof fn lemma_advance_list_keeps_safe(
    trie: Seq<NodeV>,
    ifp: bool,
    skip: bool,
    raw_c: char,
    p0: int,
    c: char,
    tmp: Seq<Match>,
    i: int,
    acc: Adv,
)
    requires
        trie_v_wf(trie),
        spec_trie_safe_free(trie),
        forall|k: int| 0 <= k < tmp.len() ==> (#[trigger] tmp[k]).node < trie.len(),
    ensures
        spec_advance_list(trie, ifp, skip, raw_c, p0, c, tmp, i, acc).safe == acc.safe,
    decreases tmp.len() - i,
{
    if 0 <= i < tmp.len() {
        lemma_advance_one_keeps_safe(trie, ifp, skip, raw_c, p0, c, acc, tmp[i]);
        lemma_advance_list_keeps_safe(
            trie,
            ifp,
            skip,
            raw_c,
            p0,
            c,
            tmp,
            i + 1,
            spec_advance_one(trie, ifp, skip, raw_c, p0, c, acc, tmp[i]),
        );
    }
}

/// With no SAFE-typed terminal in the trie, a whole expansion pass cannot
/// raise the safe flag.
proof fn lemma_advance_chars_keeps_safe(
    trie: Seq<NodeV>,
    ifp: bool,
    skip: bool,
    raw_c: char,
    p0: int,
    cs: Seq<char>,
    j: int,
    tmp: Seq<Match>,
    acc: Adv,
)
    requires
        trie_v_wf(trie),
        spec_trie_safe_free(trie),
        forall|k: int| 0 <= k < tmp.len() ==> (#[trigger] tmp[k]).node < trie.len(),
    ensures
        spec_advance_chars(trie, ifp, skip, raw_c, p0, cs, j, tmp, acc).safe == acc.safe,
    decreases cs.len() - j,
{
    if 0 <= j < cs.len() {
        lemma_advance_list_keeps_safe(trie, ifp, skip, raw_c, p0, cs[j], tmp, 0, acc);
        lemma_advance_chars_keeps_safe(
            trie,
            ifp,
            skip,
            raw_c,
            p0,
            cs,
            j + 1,
            tmp,
            spec_advance_list(trie, ifp, skip, raw_c, p0, cs[j], tmp, 0, acc),
        );
    }
}

/// The uppercase count of a range is between zero and the range's width.
pub proof fn lemma_count_upper_bounds(buf: Seq<char>, i: int, j: int)
    ensures
        0 <= spec_count_upper(buf, i, j),
        i <= j ==> spec_count_upper(buf, i, j) <= j - i,
    decreases j - i,
{
    if i < j {
        lemma_count_upper_bounds(buf, i, j - 1);
    }
}

/// Every buffer character is either the canonical character or the censor
/// replacement.
pub open spec fn buf_shape(buf: Seq<char>, canon: Seq<char>, repl: char) -> bool {
    buf.len() == canon.len() && forall|i: int|
        0 <= i < buf.len() ==> #[trigger] buf[i] == canon[i] || buf[i] == repl
}

/// Settling the pending list keeps the buffer's shape, never shrinks it,
/// keeps the kept entries within range, and cannot introduce spam bits when
/// the trie has none.
pub proof fn lemma_retain_props(
    cfg: CfgV,
    pending: Seq<Match>,
    i: int,
    ds: Option<int>,
    se: int,
    typ: u32,
    buf: Seq<char>,
    kept: Seq<Match>,
    canon: Seq<char>,
)
    requires
        buf_shape(buf, canon, cfg.censor_replacement),
        spec_trie_spam_free(cfg.trie) ==> typ & SPAM_BITS == 0,
        typ & SAFE_BITS == 0,
        forall|k: int| 0 <= k < pending.len() ==> (#[trigger] pending[k]).node < cfg.trie.len(),
    ensures
        ({
            let r = spec_retain(cfg, pending, i, ds, se, typ, buf, kept);
            &&& buf_shape(r.2, canon, cfg.censor_replacement)
            &&& (spec_trie_spam_free(cfg.trie) ==> r.1 & SPAM_BITS == 0)
            &&& r.1 & SAFE_BITS == 0
        }),
    decreases pending.len() - i,
{
    if 0 <= i < pending.len() {
        let p = pending[i];
        if ds is Some && p.start as int >= ds.unwrap() {
            lemma_retain_props(cfg, pending, i + 1, ds, se, typ, buf, kept, canon);
        } else if (p.end as int) < se {
            let r = spec_commit_one(cfg, p, typ, buf);
            lemma_commit_props(cfg, p, typ, buf, canon);
            lemma_retain_props(cfg, pending, i + 1, ds, se, r.0, r.1, kept, canon);
        } else {
            lemma_retain_props(cfg, pending, i + 1, ds, se, typ, buf, kept.push(p), canon);
        }
    }
}

/// One commit keeps the buffer's shape and cannot introduce spam bits when
/// the trie has none.
pub proof fn lemma_commit_props(cfg: CfgV, p: Match, typ: u32, buf: Seq<char>, canon: Seq<char>)
    requires
        buf_shape(buf, canon, cfg.censor_replacement),
        spec_trie_spam_free(cfg.trie) ==> typ & SPAM_BITS == 0,
        typ & SAFE_BITS == 0,
        p.node < cfg.trie.len(),
    ensures
        ({
            let r = spec_commit_one(cfg, p, typ, buf);
            &&& buf_shape(r.1, canon, cfg.censor_replacement)
            &&& (spec_trie_spam_free(cfg.trie) ==> r.0 & SPAM_BITS == 0)
            &&& r.0 & SAFE_BITS == 0
        }),
{
    let scaled = spec_scale(cfg.trie[p.node as int].typ, p.spaces);
    if spec_trie_spam_free(cfg.trie) {
        assert(cfg.trie[p.node as int].typ & SPAM_BITS == 0);
        crate::mtch::lemma_scale_spam_free(cfg.trie[p.node as int].typ, p.spaces);
        let a = typ;
        let b = scaled;
        assert((a | b) & 0b0_111_000_000_000_000_000u32 == 0) by (bit_vector)
            requires
                a & 0b0_111_000_000_000_000_000u32 == 0,
                b & 0b0_111_000_000_000_000_000u32 == 0,
        ;
    }
    crate::mtch::lemma_scale_no_safe(cfg.trie[p.node as int].typ, p.spaces);
    let a2 = typ;
    let b2 = scaled;
    assert((a2 | b2) & 0b1_000_000_000_000_000_000u32 == 0) by (bit_vector)
        requires
            a2 & 0b1_000_000_000_000_000_000u32 == 0,
            b2 & 0b1_000_000_000_000_000_000u32 == 0,
    ;
}

/// Pending matches whose terminal sat at the previous position gain the
/// trailing-separator flag.
pub open spec fn spec_mark_after(pending: Seq<Match>, last_pos: int) -> Seq<Match> {
    Seq::new(
        pending.len(),
        |i: int|
            if pending[i].end as int == last_pos {
                Match { space_after: true, ..pending[i] }
            } else {
                pending[i]
            },
    )
}

/// The characters a raw character expands to for matching: its replacement
/// string if the table has one, else the character itself.
pub open spec fn spec_cs(cfg: CfgV, raw_c: char) -> Seq<char> {
    match spec_repl_of(cfg.repl, raw_c) {
        Some(s) => s,
        None => seq![raw_c],
    }
}

/// The safe, self-censoring and spam scoring computed after the pass.
pub open spec fn spec_score(st: StV, cfg: CfgV) -> u32 {
    let safe_bits: u32 = if st.safe {
        SAFE_BITS
    } else {
        0u32
    };
    if st.last_pos < 6 {
        safe_bits
    } else {
        let total = min_i(st.last_pos + 6, 65535);
        let g2 = st.gibberish / 2;
        let spam_sig = if st.uppercase >= st.repetitions && st.uppercase >= g2 && st.uppercase
            >= st.repl_count {
            st.uppercase as int
        } else if st.repetitions >= g2 && st.repetitions >= st.repl_count {
            st.repetitions as int
        } else if g2 >= st.repl_count {
            g2 as int
        } else {
            st.repl_count as int
        };
        let percent_spam = 100 * spam_sig / total;
        let percent_self = 100 * (st.self_censoring as int) / total;
        let spam_bits: u32 = if percent_spam >= 70 && st.last_pos >= 20 {
            SPAM_BITS & SEVERE_BITS
        } else if percent_spam >= 50 && st.last_pos >= 10 {
            SPAM_BITS & MODERATE_BITS
        } else if percent_spam >= 30 {
            SPAM_BITS & MILD_BITS
        } else {
            0u32
        };
        let self_bits: u32 = if !cfg.ignore_self_censoring && percent_self > 20 {
            PROFANE_BITS & MILD_BITS
        } else {
            0u32
        };
        safe_bits | spam_bits | self_bits
    }
}

/// No terminal in the trie carries spam bits; true of every trie built from
/// the weight-file rules, which never assign spam.
pub open spec fn spec_trie_spam_free(nodes: Seq<NodeV>) -> bool {
    forall|i: int| 0 <= i < nodes.len() ==> #[trigger] nodes[i].typ & SPAM_BITS == 0
}

/// No terminal in the trie carries the SAFE bit; true of a trie built
/// without any entry from the safe list.
pub open spec fn spec_trie_safe_free(nodes: Seq<NodeV>) -> bool {
    forall|i: int| 0 <= i < nodes.len() ==> #[trigger] nodes[i].typ & SAFE_BITS == 0
}

/// An `Option<usize>` position as a mathematical one.
pub open spec fn opt_int(o: Option<usize>) -> Option<int> {
    match o {
        Some(p) => Some(p as int),
        None => None,
    }
}


/// The bookkeeping before the frontier advances on one raw character: the
/// safety reset, the spam counters, the fresh seed, the separator flag, and
/// the trailing-separator marks on pending matches.
#[verifier::opaque]
pub open spec fn spec_prepare(st: StV, cfg: CfgV, raw_c: char, pos: Option<int>) -> StV {
    let safe1 = if !st.space_appended && raw_c != '!' && raw_c != '.' && raw_c != '?' {
        false
    } else {
        st.safe
    };
    let skip = spec_skippable(raw_c);
    let repl = spec_repl_of(cfg.repl, raw_c);
    let self_censoring1 = if (!st.separate || st.last == Some(cfg.censor_replacement)) && raw_c
        == cfg.censor_replacement {
        sat8(st.self_censoring, 1)
    } else {
        st.self_censoring
    };
    let repetitions1 = if st.last is Some && raw_c == st.last.unwrap() {
        sat8(st.repetitions, 1)
    } else {
        st.repetitions
    };
    let repl_count1 = if st.last is Some && repl is Some && !spec_is_lower(raw_c) && !(
    spec_is_digit(raw_c) && spec_is_digit(st.last.unwrap())) {
        sat8(st.repl_count, 1)
    } else {
        st.repl_count
    };
    let gibberish1 = if st.last is Some && spec_home_row(raw_c) && spec_home_row(st.last.unwrap()) {
        sat8(st.gibberish, 1)
    } else {
        st.gibberish
    };
    let matches1 = if pos is Some && !(skip && repl is None) {
        spec_insert(
            st.matches,
            Match {
                node: 0,
                start: pos.unwrap() as usize,
                end: NO_END,
                last: NO_LAST,
                space_before: st.separate,
                space_after: false,
                spaces: 0,
            },
        )
    } else {
        st.matches
    };
    let pending1 = if skip {
        spec_mark_after(st.pending, st.last_pos)
    } else {
        st.pending
    };
    StV {
        safe: safe1,
        self_censoring: self_censoring1,
        repetitions: repetitions1,
        repl_count: repl_count1,
        gibberish: gibberish1,
        last: Some(raw_c),
        matches: matches1,
        separate: skip,
        pending: pending1,
        ..st
    }
}

/// The engine's whole transition on one lowercased (or substituted)
/// character at canonical position `pos`: the bookkeeping, the frontier
/// advance, the pending settlement, and the emission of everything no live
/// or pending match still covers.
#[verifier::opaque]
pub open spec fn spec_process_raw(st: StV, cfg: CfgV, raw_c: char, pos: Option<int>) -> StV {
    let st1 = spec_prepare(st, cfg, raw_c, pos);
    let p0: int = match pos {
        Some(p) => p,
        None => 0,
    };
    let acc = spec_advance_chars(
        cfg.trie,
        cfg.ignore_false_positives,
        spec_skippable(raw_c),
        raw_c,
        p0,
        spec_cs(cfg, raw_c),
        0,
        st1.matches,
        Adv {
            matches: Seq::empty(),
            pending: st1.pending,
            safe: st1.safe,
            drain_start: None,
            safety_end: usize::MAX as int,
        },
    );
    let last_pos1: int = match pos {
        Some(p) => p + 1,
        None => st1.last_pos,
    };
    let ret = spec_retain(
        cfg,
        acc.pending,
        0,
        acc.drain_start,
        acc.safety_end,
        st1.typ,
        st1.buf,
        Seq::empty(),
    );
    let limit: int = match pos {
        Some(p) => p + 1,
        None => 0,
    };
    let bound0 = min_i(limit, min_i(acc.safety_end, spec_min_start(ret.0, 0, usize::MAX as int)));
    let bound = if bound0 < st1.spy {
        st1.spy
    } else {
        bound0
    };
    StV {
        matches: acc.matches,
        safe: acc.safe,
        pending: ret.0,
        typ: ret.1,
        buf: ret.2,
        last_pos: last_pos1,
        out: st1.out + ret.2.subrange(st1.spy, bound),
        spy: bound,
        uppercase: sat8(st1.uppercase, spec_count_upper(ret.2, st1.spy, bound)),
        ..st1
    }
}

/// The transition over the lowercase expansion of one canonical character;
/// every expansion character carries the same position.
pub open spec fn spec_expand(st: StV, cfg: CfgV, cs: Seq<char>, j: int, pos: Option<int>) -> StV
    decreases cs.len() - j,
{
    if j < 0 || j >= cs.len() {
        st
    } else {
        spec_expand(spec_process_raw(st, cfg, cs[j], pos), cfg, cs, j + 1, pos)
    }
}

/// The transition on one canonical character: its lowercase expansion,
/// character by character, then the consume cursor moves.
pub open spec fn spec_step(st: StV, cfg: CfgV) -> StV {
    let st2 = spec_expand(st, cfg, lower_of(st.canon[st.consumed]), 0, Some(st.consumed));
    StV { consumed: st.consumed + 1, ..st2 }
}

/// `n` consecutive canonical characters consumed.
pub open spec fn spec_run(st: StV, cfg: CfgV, n: int) -> StV
    decreases n,
{
    if n <= 0 {
        st
    } else {
        spec_step(spec_run(st, cfg, n - 1), cfg)
    }
}

/// Every remaining pending match committed, in order.
pub open spec fn spec_commit_all(
    cfg: CfgV,
    pending: Seq<Match>,
    i: int,
    typ: u32,
    buf: Seq<char>,
) -> (u32, Seq<char>)
    decreases pending.len() - i,
{
    if i < 0 || i >= pending.len() {
        (typ, buf)
    } else {
        let r = spec_commit_one(cfg, pending[i], typ, buf);
        spec_commit_all(cfg, pending, i + 1, r.0, r.1)
    }
}

/// End of input: one synthetic trailing separator flushes the matcher,
/// every still-pending match commits, and the rest of the buffer is
/// emitted.
pub open spec fn spec_finish(st: StV, cfg: CfgV) -> StV {
    let st1 = if st.space_appended {
        st
    } else {
        let pos: Option<int> = if st.canon.len() > 0 {
            Some(st.canon.len() - 1)
        } else {
            None
        };
        spec_process_raw(StV { space_appended: true, ..st }, cfg, ' ', pos)
    };
    let r = spec_commit_all(cfg, st1.pending, 0, st1.typ, st1.buf);
    StV {
        pending: Seq::empty(),
        typ: r.0,
        buf: r.1,
        out: st1.out + r.1.subrange(st1.spy, r.1.len() as int),
        spy: r.1.len() as int,
        uppercase: sat8(st1.uppercase, spec_count_upper(r.1, st1.spy, r.1.len() as int)),
        done: true,
        ..st1
    }
}

/// The state after the whole pass, from any state a public call can leave.
pub open spec fn spec_complete(st: StV, cfg: CfgV) -> StV {
    if st.done {
        st
    } else {
        spec_finish(spec_run(st, cfg, st.canon.len() - st.consumed), cfg)
    }
}

/// The analysis mask of a state: the accumulated types joined with the
/// safe, self-censoring and spam scoring.
pub open spec fn spec_analysis(st: StV, cfg: CfgV) -> u32 {
    st.typ | spec_score(st, cfg)
}

/// The state of a censor right after canonicalization.
pub open spec fn spec_started(c: &Censor) -> StV {
    StV {
        started: true,
        canon: spec_canon(c.text@, c.banned@),
        buf: spec_canon(c.text@, c.banned@),
        ..c.st()
    }
}

/// The state a censor processes from: its own state once processing has
/// begun, the canonicalized state before.
pub open spec fn spec_ready(c: &Censor) -> StV {
    if c.started {
        c.st()
    } else {
        spec_started(c)
    }
}

/// The state of a censor that has not started processing: nothing
/// canonicalized, nothing consumed, nothing emitted, nothing counted.
pub open spec fn spec_blank() -> StV {
    StV {
        canon: Seq::empty(),
        buf: Seq::empty(),
        out: Seq::empty(),
        spy: 0,
        consumed: 0,
        matches: Seq::empty(),
        pending: Seq::empty(),
        separate: true,
        last: None,
        last_pos: usize::MAX as int,
        typ: 0,
        uppercase: 0,
        repetitions: 0,
        gibberish: 0,
        repl_count: 0,
        self_censoring: 0,
        safe: false,
        started: false,
        space_appended: false,
        done: false,
    }
}

/// A fresh censor's state over the given text, right after
/// canonicalization with no banned characters.
pub open spec fn spec_fresh(text: Seq<char>) -> StV {
    StV {
        started: true,
        canon: spec_canon(text, Seq::empty()),
        buf: spec_canon(text, Seq::empty()),
        ..spec_blank()
    }
}

/// The content of a trie holding no phrase: a lone non-terminal root.
pub open spec fn spec_default_trie() -> Seq<NodeV> {
    seq![NodeV { children: Seq::empty(), word: false, typ: 0u32 }]
}

/// The default configuration: an empty phrase trie, no substitutions, the
/// inappropriate censor threshold, the severe-offensive first-character
/// threshold, and '*' as the replacement.
pub open spec fn spec_default_cfg() -> CfgV {
    CfgV {
        trie: spec_default_trie(),
        repl: Seq::empty(),
        ignore_false_positives: false,
        ignore_self_censoring: false,
        censor_threshold: INAPPROPRIATE_BITS,
        first_char_threshold: OFFENSIVE_BITS & SEVERE_BITS,
        censor_replacement: '*',
    }
}

/// What a whole default pass emits for the given text.
pub open spec fn spec_default_censored(text: Seq<char>) -> Seq<char> {
    spec_complete(spec_fresh(text), spec_default_cfg()).out
}

/// What a whole default pass reports for the given text.
pub open spec fn spec_default_analysis(text: Seq<char>) -> u32 {
    spec_analysis(spec_complete(spec_fresh(text), spec_default_cfg()), spec_default_cfg())
}

/// The internal consistency of a censor between processing steps.
pub open spec fn censor_wf(c: &Censor) -> bool {
    &&& trie_wf(c.trie.nodes@)
    &&& c.buf@.len() == c.canon@.len()
    &&& c.consumed <= c.canon@.len()
    &&& c.spy <= c.buf@.len()
    &&& c.out@.len() == c.spy
    &&& forall|i: int|
        0 <= i < c.buf@.len() ==> #[trigger] c.buf@[i] == c.canon@[i] || c.buf@[i]
            == c.censor_replacement
    &&& forall|i: int|
        0 <= i < c.out@.len() ==> #[trigger] c.out@[i] == c.canon@[i] || c.out@[i]
            == c.censor_replacement
    &&& forall|i: int|
        0 <= i < c.matches@.len() ==> (#[trigger] c.matches@[i]).node < c.trie.nodes@.len()
            && c.matches@[i].start < c.canon@.len()
    &&& forall|i: int|
        0 <= i < c.pending_commit@.len() ==> (#[trigger] c.pending_commit@[i]).node
            < c.trie.nodes@.len() && c.pending_commit@[i].end < c.buf@.len()
            && c.pending_commit@[i].start < c.buf@.len()
    &&& (c.canon@.len() == 0 ==> c.matches@.len() == 0 && c.pending_commit@.len() == 0)
    &&& (spec_trie_spam_free(trie_view(c.trie.nodes@)) ==> c.typ.bits & SPAM_BITS == 0)
    &&& c.typ.bits & SAFE_BITS == 0
    &&& (spec_trie_safe_free(trie_view(c.trie.nodes@)) ==> !c.safe)
    &&& (c.last_pos <= c.canon@.len() || c.last_pos == usize::MAX)
    &&& (!c.started ==> c.canon@.len() == 0 && c.buf@.len() == 0 && c.out@.len() == 0 && c.spy
        == 0 && c.consumed == 0 && c.typ.bits == 0 && !c.safe && !c.done && !c.space_appended)
}

/// A byte counter increased by one, saturating.
fn sat_inc(a: u8) -> (r: u8)
    ensures
        r == sat8(a, 1),
{
    if a == 255 {
        255
    } else {
        a + 1
    }
}

/// A byte counter increased with saturation.
fn sat_add(a: u8, b: u8) -> (r: u8)
    ensures
        r == sat8(a, b as int),
{
    if a > 255 - b {
        255
    } else {
        a + b
    }
}

/// ASCII uppercase test.
fn is_upper_char(c: char) -> (r: bool)
    ensures
        r == spec_is_upper(c),
{
    let u = c as u32;
    65 <= u && u <= 90
}

/// ASCII lowercase test.
fn is_lower_char(c: char) -> (r: bool)
    ensures
        r == spec_is_lower(c),
{
    let u = c as u32;
    97 <= u && u <= 122
}

/// ASCII digit test.
fn is_digit_char(c: char) -> (r: bool)
    ensures
        r == spec_is_digit(c),
{
    let u = c as u32;
    48 <= u && u <= 57
}

/// QWERTY home-row test.
fn home_row_char(c: char) -> (r: bool)
    ensures
        r == spec_home_row(c),
{
    c == 'a' || c == 's' || c == 'd' || c == 'f' || c == 'j' || c == 'k' || c == 'l' || c == ';'
}

/// A key match at the first matching index is the find result.
proof fn lemma_find_key_at(s: Seq<Match>, m: Match, i: int)
    requires
        0 <= i < s.len(),
        spec_same_key(s[i], m),
        forall|k: int| 0 <= k < i ==> !spec_same_key(s[k], m),
    ensures
        spec_find_key(s, m) == Some(i),
    decreases i,
{
    if i > 0 {
        lemma_find_key_at(s.drop_first(), m, i - 1);
    }
}

/// Without a key match anywhere there is no find result.
proof fn lemma_find_key_none(s: Seq<Match>, m: Match)
    requires
        forall|k: int| 0 <= k < s.len() ==> !spec_same_key(s[k], m),
    ensures
        spec_find_key(s, m) is None,
    decreases s.len(),
{
    if s.len() > 0 {
        lemma_find_key_none(s.drop_first(), m);
    }
}

/// Inserts a candidate into the frontier, merging it with an existing entry
/// of the same identity key.
fn insert_match(v: &mut Vec<Match>, m: Match)
    ensures
        final(v)@ == spec_insert(old(v)@, m),
{
    let mut i: usize = 0;
    while i < v.len()
        invariant
            i <= v@.len(),
            v@ == old(v)@,
            forall|k: int| 0 <= k < i ==> !spec_same_key(v@[k], m),
        decreases v@.len() - i,
    {
        if v[i].same_key(&m) {
            let c = v[i].combine(&m);
            proof {
                lemma_find_key_at(v@, m, i as int);
            }
            v[i] = c;
            return ;
        }
        i += 1;
    }
    proof {
        lemma_find_key_none(v@, m);
    }
    v.push(m);
}

/// A replacement at the first matching index is the table's answer.
proof fn lemma_repl_at(table: Seq<(char, Seq<char>)>, c: char, i: int)
    requires
        0 <= i < table.len(),
        table[i].0 == c,
        forall|k: int| 0 <= k < i ==> table[k].0 != c,
    ensures
        spec_repl_of(table, c) == Some(table[i].1),
    decreases i,
{
    if i > 0 {
        lemma_repl_at(table.drop_first(), c, i - 1);
    }
}

/// Without a matching entry the table has no answer.
proof fn lemma_repl_none(table: Seq<(char, Seq<char>)>, c: char)
    requires
        forall|k: int| 0 <= k < table.len() ==> table[k].0 != c,
    ensures
        spec_repl_of(table, c) is None,
    decreases table.len(),
{
    if table.len() > 0 {
        lemma_repl_none(table.drop_first(), c);
    }
}

/// A fresh copy of a character list.
fn copy_chars(v: &Vec<char>) -> (r: Vec<char>)
    ensures
        r@ == v@,
{
    let mut out: Vec<char> = Vec::new();
    let mut i: usize = 0;
    while i < v.len()
        invariant
            i <= v@.len(),
            out@ == v@.take(i as int),
        decreases v@.len() - i,
    {
        out.push(v[i]);
        proof {
            assert(v@.take(i + 1) =~= v@.take(i as int).push(v@[i as int]));
        }
        i += 1;
    }
    proof {
        assert(v@.take(v@.len() as int) == v@);
    }
    out
}

/// The replacement expansion of a character, if the table has one.
fn replacement_of(table: &Vec<(char, Vec<char>)>, c: char) -> (r: Option<Vec<char>>)
    ensures
        match spec_repl_of(repl_view(table@), c) {
            Some(s) => r is Some && r.unwrap()@ == s,
            None => r is None,
        },
{
    let mut i: usize = 0;
    while i < table.len()
        invariant
            i <= table@.len(),
            forall|k: int| 0 <= k < i ==> table@[k].0 != c,
        decreases table@.len() - i,
    {
        if table[i].0 == c {
            proof {
                lemma_repl_at(repl_view(table@), c, i as int);
            }
            return Some(copy_chars(&table[i].1));
        }
        i += 1;
    }
    proof {
        lemma_repl_none(repl_view(table@), c);
    }
    None
}

/// Two censors that agree on everything except the accumulated type and
/// the canonical buffer.
pub open spec fn same_but_typ_buf(a: &Censor, b: &Censor) -> bool {
    &&& a.cfg() == b.cfg()
    &&& a.trie.nodes@ == b.trie.nodes@
    &&& a.text@ == b.text@
    &&& a.banned@ == b.banned@
    &&& a.canon@ == b.canon@
    &&& a.out@ == b.out@
    &&& a.spy == b.spy
    &&& a.consumed == b.consumed
    &&& a.matches@ == b.matches@
    &&& a.pending_commit@ == b.pending_commit@
    &&& a.separate == b.separate
    &&& a.last == b.last
    &&& a.last_pos == b.last_pos
    &&& a.uppercase == b.uppercase
    &&& a.repetitions == b.repetitions
    &&& a.gibberish == b.gibberish
    &&& a.repl_count == b.repl_count
    &&& a.self_censoring == b.self_censoring
    &&& a.safe == b.safe
    &&& a.started == b.started
    &&& a.space_appended == b.space_appended
    &&& a.done == b.done
}

impl Censor {
    /// Commits one pending match: records its scaled type and censors its
    /// span in the buffer when the thresholds say so.
    fn do_commit(&mut self, p: Match)
        requires
            trie_wf(old(self).trie.nodes@),
            p.node < old(self).trie.nodes@.len(),
            p.start < old(self).buf@.len(),
            p.end < old(self).buf@.len(),
        ensures
            (final(self).typ.bits, final(self).buf@) == spec_commit_one(
                old(self).cfg(),
                p,
                old(self).typ.bits,
                old(self).buf@,
            ),
            final(self).cfg() == old(self).cfg(),
            final(self).trie.nodes@ == old(self).trie.nodes@,
            final(self).st() == (StV {
                typ: final(self).typ.bits,
                buf: final(self).buf@,
                ..old(self).st()
            }),
            final(self).text@ == old(self).text@,
            final(self).banned@ == old(self).banned@,
    {
        let blen = self.buf.len();
        assert(p.start < blen && p.end < blen);
        let node_bits = self.trie.nodes[p.node].typ.bits;
        let scaled = crate::mtch::scale_typ(node_bits, p.spaces);
        self.typ = Type { bits: self.typ.bits | scaled };
        if scaled & self.censor_threshold.bits != 0 {
            let from: usize = if scaled & self.censor_first_character_threshold.bits
                == self.censor_first_character_threshold.bits {
                p.start
            } else {
                p.start + 1
            };
            let ghost buf0 = self.buf@;
            let mut k: usize = from;
            while k <= p.end
                invariant
                    from <= k,
                    k <= p.end + 1 || k == from,
                    p.end < blen,
                    blen == buf0.len(),
                    same_but_typ_buf(self, old(self)),
                    self.typ.bits == old(self).typ.bits | scaled,
                    self.buf@.len() == buf0.len(),
                    forall|i: int|
                        0 <= i < buf0.len() ==> #[trigger] self.buf@[i] == (if from <= i < k {
                            self.censor_replacement
                        } else {
                            buf0[i]
                        }),
                    self.censor_replacement == old(self).censor_replacement,
                decreases p.end + 1 - k,
            {
                self.buf[k] = self.censor_replacement;
                k += 1;
            }
            proof {
                assert(self.buf@ =~= Seq::new(
                    buf0.len(),
                    |i: int|
                        if from <= i && i <= p.end as int {
                            old(self).censor_replacement
                        } else {
                            buf0[i]
                        },
                ));
            }
        }
    }

    /// Advances the saved frontier over the expansion characters of one raw
    /// character, building the next frontier, extending the pending list,
    /// setting the safe flag, and reporting the cancellation point and the
    /// safety bound.
    #[verifier::rlimit(100)]
    fn advance_frontier(&mut self, raw_c: char, pos: Option<usize>, skip: bool, repl: &Option<Vec<char>>) -> (r: (
        Option<usize>,
        usize,
    ))
        requires
            trie_wf(old(self).trie.nodes@),
            old(self).buf@.len() == old(self).canon@.len(),
            skip == spec_skippable(raw_c),
            match repl {
                Some(v) => spec_repl_of(old(self).cfg().repl, raw_c) == Some(v@),
                None => spec_repl_of(old(self).cfg().repl, raw_c) is None,
            },
            match pos {
                Some(p) => p < old(self).canon@.len(),
                None => old(self).matches@.len() == 0,
            },
            forall|i: int|
                0 <= i < old(self).matches@.len() ==> (#[trigger] old(self).matches@[i]).node < old(self).trie.nodes@.len() && old(self).matches@[i].start < old(self).canon@.len(),
            forall|i: int|
                0 <= i < old(self).pending_commit@.len() ==> (#[trigger] old(self).pending_commit@[i]).node < old(self).trie.nodes@.len() && old(self).pending_commit@[i].end < old(self).buf@.len() && old(self).pending_commit@[i].start < old(self).buf@.len(),
        ensures
            ({
                let p0: int = match pos {
                    Some(p) => p as int,
                    None => 0,
                };
                let acc = spec_advance_chars(
                    old(self).cfg().trie,
                    old(self).cfg().ignore_false_positives,
                    skip,
                    raw_c,
                    p0,
                    spec_cs(old(self).cfg(), raw_c),
                    0,
                    old(self).matches@,
                    Adv {
                        matches: Seq::empty(),
                        pending: old(self).pending_commit@,
                        safe: old(self).safe,
                        drain_start: None,
                        safety_end: usize::MAX as int,
                    },
                );
                &&& final(self).matches@ == acc.matches
                &&& final(self).pending_commit@ == acc.pending
                &&& final(self).safe == acc.safe
                &&& opt_int(r.0) == acc.drain_start
                &&& r.1 as int == acc.safety_end
            }),
            final(self).cfg() == old(self).cfg(),
            final(self).trie.nodes@ == old(self).trie.nodes@,
            final(self).text@ == old(self).text@,
            final(self).banned@ == old(self).banned@,
            final(self).canon@ == old(self).canon@,
            final(self).buf@ == old(self).buf@,
            final(self).out@ == old(self).out@,
            final(self).spy == old(self).spy,
            final(self).consumed == old(self).consumed,
            final(self).typ == old(self).typ,
            final(self).separate == old(self).separate,
            final(self).last == old(self).last,
            final(self).last_pos == old(self).last_pos,
            final(self).uppercase == old(self).uppercase,
            final(self).repetitions == old(self).repetitions,
            final(self).gibberish == old(self).gibberish,
            final(self).repl_count == old(self).repl_count,
            final(self).self_censoring == old(self).self_censoring,
            final(self).started == old(self).started,
            final(self).space_appended == old(self).space_appended,
            final(self).done == old(self).done,
            forall|i: int|
                0 <= i < final(self).matches@.len() ==> (#[trigger] final(self).matches@[i]).node < final(self).trie.nodes@.len() && final(self).matches@[i].start < final(self).canon@.len(),
            forall|i: int|
                0 <= i < final(self).pending_commit@.len() ==> (#[trigger] final(self).pending_commit@[i]).node < final(self).trie.nodes@.len() && final(self).pending_commit@[i].end < final(self).buf@.len() && final(self).pending_commit@[i].start < final(self).buf@.len(),
    {
        let ghost nodes0 = self.trie.nodes@;
        let ghost trie0 = trie_view(nodes0);
        let ghost matches1 = self.matches@;
        let ghost cs: Seq<char> = spec_cs(self.cfg(), raw_c);
        let ghost acc0 = Adv {
            matches: Seq::empty(),
            pending: self.pending_commit@,
            safe: self.safe,
            drain_start: None,
            safety_end: usize::MAX as int,
        };
        let clen = self.canon.len();
        let p0: usize = match pos {
            Some(p) => p,
            None => 0,
        };
        let ifp = self.ignore_false_positives;
        let mut new_matches: Vec<Match> = Vec::new();
        let mut safe_flag = self.safe;
        let mut drain_start: Option<usize> = None;
        let mut safety_end: usize = usize::MAX;
        let cs_len: usize = match repl {
            Some(v) => v.len(),
            None => 1,
        };
        let mut j: usize = 0;
        while j < cs_len
            invariant
                j <= cs.len(),
                cs_len == cs.len(),
                trie_wf(self.trie.nodes@),
                self.trie.nodes@ == nodes0,
                trie0 == trie_view(nodes0),
                ifp == self.ignore_false_positives,
                match pos {
                    Some(p) => p < clen && p == p0,
                    None => matches1.len() == 0 && p0 == 0,
                },
                match repl {
                    Some(v) => cs == v@,
                    None => cs =~= seq![raw_c],
                },
                self.matches@ == matches1,
                clen == self.canon@.len(),
                self.buf@.len() == self.canon@.len(),
                forall|i: int|
                    0 <= i < matches1.len() ==> (#[trigger] matches1[i]).node < trie0.len() && matches1[i].start < clen,
                forall|i: int|
                    0 <= i < new_matches@.len() ==> (#[trigger] new_matches@[i]).node < trie0.len() && new_matches@[i].start < clen,
                forall|i: int|
                    0 <= i < self.pending_commit@.len() ==> (#[trigger] self.pending_commit@[i]).node < trie0.len() && self.pending_commit@[i].end < self.buf@.len() && self.pending_commit@[i].start < self.buf@.len(),
                spec_advance_chars(trie0, ifp, skip, raw_c, p0 as int, cs, 0, matches1, acc0)
                    == spec_advance_chars(
                    trie0,
                    ifp,
                    skip,
                    raw_c,
                    p0 as int,
                    cs,
                    j as int,
                    matches1,
                    Adv {
                        matches: new_matches@,
                        pending: self.pending_commit@,
                        safe: safe_flag,
                        drain_start: opt_int(drain_start),
                        safety_end: safety_end as int,
                    },
                ),
                self.cfg() == old(self).cfg(),
                self.trie.nodes@ == old(self).trie.nodes@,
                self.text@ == old(self).text@,
                self.banned@ == old(self).banned@,
                self.canon@ == old(self).canon@,
                self.buf@ == old(self).buf@,
                self.out@ == old(self).out@,
                self.spy == old(self).spy,
                self.consumed == old(self).consumed,
                self.typ == old(self).typ,
                self.separate == old(self).separate,
                self.last == old(self).last,
                self.last_pos == old(self).last_pos,
                self.uppercase == old(self).uppercase,
                self.repetitions == old(self).repetitions,
                self.gibberish == old(self).gibberish,
                self.repl_count == old(self).repl_count,
                self.self_censoring == old(self).self_censoring,
                self.safe == old(self).safe,
                self.started == old(self).started,
                self.space_appended == old(self).space_appended,
                self.done == old(self).done,
            decreases cs.len() - j,
        {
            let c: char = match repl {
                Some(v) => v[j],
                None => raw_c,
            };
            let ghost acc_j = Adv {
                matches: new_matches@,
                pending: self.pending_commit@,
                safe: safe_flag,
                drain_start: opt_int(drain_start),
                safety_end: safety_end as int,
            };
            let mut idx: usize = 0;
            while idx < self.matches.len()
                invariant
                    idx <= matches1.len(),
                    c == cs[j as int],
                    0 <= j < cs.len(),
                    trie_wf(self.trie.nodes@),
                    self.trie.nodes@ == nodes0,
                    trie0 == trie_view(nodes0),
                    ifp == self.ignore_false_positives,
                    match pos {
                        Some(p) => p < clen && p == p0,
                        None => matches1.len() == 0 && p0 == 0,
                    },
                    self.matches@ == matches1,
                    clen == self.canon@.len(),
                    self.buf@.len() == self.canon@.len(),
                    forall|i: int|
                        0 <= i < matches1.len() ==> (#[trigger] matches1[i]).node < trie0.len() && matches1[i].start < clen,
                    forall|i: int|
                        0 <= i < new_matches@.len() ==> (#[trigger] new_matches@[i]).node < trie0.len() && new_matches@[i].start < clen,
                    forall|i: int|
                        0 <= i < self.pending_commit@.len() ==> (#[trigger] self.pending_commit@[i]).node < trie0.len() && self.pending_commit@[i].end < self.buf@.len() && self.pending_commit@[i].start < self.buf@.len(),
                    spec_advance_list(trie0, ifp, skip, raw_c, p0 as int, c, matches1, 0, acc_j)
                        == spec_advance_list(
                        trie0,
                        ifp,
                        skip,
                        raw_c,
                        p0 as int,
                        c,
                        matches1,
                        idx as int,
                        Adv {
                            matches: new_matches@,
                            pending: self.pending_commit@,
                            safe: safe_flag,
                            drain_start: opt_int(drain_start),
                            safety_end: safety_end as int,
                        },
                    ),
                    self.cfg() == old(self).cfg(),
                    self.trie.nodes@ == old(self).trie.nodes@,
                self.trie.nodes@ == old(self).trie.nodes@,
                    self.text@ == old(self).text@,
                    self.banned@ == old(self).banned@,
                    self.canon@ == old(self).canon@,
                    self.buf@ == old(self).buf@,
                    self.out@ == old(self).out@,
                    self.spy == old(self).spy,
                    self.consumed == old(self).consumed,
                    self.typ == old(self).typ,
                    self.separate == old(self).separate,
                    self.last == old(self).last,
                    self.last_pos == old(self).last_pos,
                    self.uppercase == old(self).uppercase,
                    self.repetitions == old(self).repetitions,
                    self.gibberish == old(self).gibberish,
                    self.repl_count == old(self).repl_count,
                    self.self_censoring == old(self).self_censoring,
                    self.safe == old(self).safe,
                    self.started == old(self).started,
                    self.space_appended == old(self).space_appended,
                    self.done == old(self).done,
                decreases matches1.len() - idx,
            {
                let m = self.matches[idx];
                advance_one_exec(
                    &self.trie,
                    ifp,
                    skip,
                    raw_c,
                    p0,
                    c,
                    m,
                    &mut new_matches,
                    &mut self.pending_commit,
                    &mut safe_flag,
                    &mut drain_start,
                    &mut safety_end,
                    Ghost(clen as int),
                );
                idx += 1;
            }
            j += 1;
        }
        self.matches = new_matches;
        self.safe = safe_flag;
        (drain_start, safety_end)
    }

    /// Filters the pending list after one step: cancelled entries are
    /// dropped, entries past the safety bound commit, the rest stay.
    fn retain_pending(&mut self, ds: Option<usize>, se: usize)
        requires
            trie_wf(old(self).trie.nodes@),
            forall|i: int|
                0 <= i < old(self).pending_commit@.len() ==> (#[trigger] old(self).pending_commit@[i]).node < old(self).trie.nodes@.len() && old(self).pending_commit@[i].end < old(self).buf@.len() && old(self).pending_commit@[i].start
                    < old(self).buf@.len(),
        ensures
            (final(self).pending_commit@, final(self).typ.bits, final(self).buf@) == spec_retain(
                old(self).cfg(),
                old(self).pending_commit@,
                0,
                opt_int(ds),
                se as int,
                old(self).typ.bits,
                old(self).buf@,
                Seq::empty(),
            ),
            final(self).cfg() == old(self).cfg(),
            final(self).trie.nodes@ == old(self).trie.nodes@,
            final(self).text@ == old(self).text@,
            final(self).banned@ == old(self).banned@,
            final(self).canon@ == old(self).canon@,
            final(self).out@ == old(self).out@,
            final(self).spy == old(self).spy,
            final(self).consumed == old(self).consumed,
            final(self).matches@ == old(self).matches@,
            final(self).separate == old(self).separate,
            final(self).last == old(self).last,
            final(self).last_pos == old(self).last_pos,
            final(self).uppercase == old(self).uppercase,
            final(self).repetitions == old(self).repetitions,
            final(self).gibberish == old(self).gibberish,
            final(self).repl_count == old(self).repl_count,
            final(self).self_censoring == old(self).self_censoring,
            final(self).safe == old(self).safe,
            final(self).started == old(self).started,
            final(self).space_appended == old(self).space_appended,
            final(self).done == old(self).done,
            final(self).buf@.len() == old(self).buf@.len(),
            forall|i: int|
                0 <= i < final(self).pending_commit@.len() ==> (#[trigger] final(self).pending_commit@[i]).node < final(self).trie.nodes@.len() && final(self).pending_commit@[i].end < final(self).buf@.len() && final(self).pending_commit@[i].start < final(self).buf@.len(),
    {
        let ghost cfgv = self.cfg();
        let ghost pend2 = self.pending_commit@;
        let ghost typ0 = self.typ.bits;
        let ghost buf0 = self.buf@;
        let mut kept: Vec<Match> = Vec::new();
        let mut i: usize = 0;
        while i < self.pending_commit.len()
            invariant
                i <= pend2.len(),
                self.pending_commit@ == pend2,
                trie_wf(self.trie.nodes@),
                self.cfg() == cfgv,
                self.trie.nodes@ == old(self).trie.nodes@,
                self.buf@.len() == buf0.len(),
                forall|k: int|
                    0 <= k < pend2.len() ==> (#[trigger] pend2[k]).node < self.trie.nodes@.len()
                        && pend2[k].end < self.buf@.len() && pend2[k].start < self.buf@.len(),
                forall|k: int|
                    0 <= k < kept@.len() ==> (#[trigger] kept@[k]).node < self.trie.nodes@.len()
                        && kept@[k].end < self.buf@.len() && kept@[k].start < self.buf@.len(),
                spec_retain(cfgv, pend2, 0, opt_int(ds), se as int, typ0, buf0, Seq::empty())
                    == spec_retain(
                    cfgv,
                    pend2,
                    i as int,
                    opt_int(ds),
                    se as int,
                    self.typ.bits,
                    self.buf@,
                    kept@,
                ),
                self.text@ == old(self).text@,
                self.banned@ == old(self).banned@,
                self.canon@ == old(self).canon@,
                self.out@ == old(self).out@,
                self.spy == old(self).spy,
                self.consumed == old(self).consumed,
                self.matches@ == old(self).matches@,
                self.separate == old(self).separate,
                self.last == old(self).last,
                self.last_pos == old(self).last_pos,
                self.uppercase == old(self).uppercase,
                self.repetitions == old(self).repetitions,
                self.gibberish == old(self).gibberish,
                self.repl_count == old(self).repl_count,
                self.self_censoring == old(self).self_censoring,
                self.safe == old(self).safe,
                self.started == old(self).started,
                self.space_appended == old(self).space_appended,
                self.done == old(self).done,
            decreases pend2.len() - i,
        {
            let p = self.pending_commit[i];
            let drop_it = match ds {
                Some(d) => p.start >= d,
                None => false,
            };
            if drop_it {
            } else if p.end < se {
                self.do_commit(p);
            } else {
                kept.push(p);
            }
            i += 1;
        }
        self.pending_commit = kept;
    }

    /// Emits every canonical character that no live or pending match still
    /// covers, counting emitted uppercase characters.
    fn emit_ready(&mut self, limit: usize, se: usize)
        requires
            limit <= old(self).buf@.len(),
            old(self).spy <= old(self).buf@.len(),
        ensures
            ({
                let mp = spec_min_start(old(self).pending_commit@, 0, usize::MAX as int);
                let b0 = min_i(limit as int, min_i(se as int, mp));
                let b = if b0 < old(self).spy as int {
                    old(self).spy as int
                } else {
                    b0
                };
                &&& final(self).out@ == old(self).out@ + old(self).buf@.subrange(
                    old(self).spy as int,
                    b,
                )
                &&& final(self).uppercase == sat8(
                    old(self).uppercase,
                    spec_count_upper(old(self).buf@, old(self).spy as int, b),
                )
                &&& final(self).spy as int == b
            }),
            final(self).cfg() == old(self).cfg(),
            final(self).trie.nodes@ == old(self).trie.nodes@,
            final(self).text@ == old(self).text@,
            final(self).banned@ == old(self).banned@,
            final(self).canon@ == old(self).canon@,
            final(self).buf@ == old(self).buf@,
            final(self).consumed == old(self).consumed,
            final(self).matches@ == old(self).matches@,
            final(self).pending_commit@ == old(self).pending_commit@,
            final(self).separate == old(self).separate,
            final(self).last == old(self).last,
            final(self).last_pos == old(self).last_pos,
            final(self).typ == old(self).typ,
            final(self).repetitions == old(self).repetitions,
            final(self).gibberish == old(self).gibberish,
            final(self).repl_count == old(self).repl_count,
            final(self).self_censoring == old(self).self_censoring,
            final(self).safe == old(self).safe,
            final(self).started == old(self).started,
            final(self).space_appended == old(self).space_appended,
            final(self).done == old(self).done,
    {
        let ghost pend3 = self.pending_commit@;
        let mut mp: usize = usize::MAX;
        let mut i2: usize = 0;
        while i2 < self.pending_commit.len()
            invariant
                i2 <= pend3.len(),
                self.pending_commit@ == pend3,
                spec_min_start(pend3, 0, usize::MAX as int) == spec_min_start(
                    pend3,
                    i2 as int,
                    mp as int,
                ),
                *self == *old(self),
            decreases pend3.len() - i2,
        {
            let s = self.pending_commit[i2].start;
            if s < mp {
                mp = s;
            }
            i2 += 1;
        }
        let mut bound: usize = limit;
        if se < bound {
            bound = se;
        }
        if mp < bound {
            bound = mp;
        }
        let ghost out0 = self.out@;
        let ghost up0 = self.uppercase;
        let ghost spy0 = self.spy as int;
        while self.spy < bound
            invariant
                bound <= self.buf@.len(),
                0 <= spy0,
                spy0 <= self.spy,
                self.spy <= bound || self.spy as int == spy0,
                self.out@ == out0 + self.buf@.subrange(spy0, self.spy as int),
                self.uppercase == sat8(up0, spec_count_upper(self.buf@, spy0, self.spy as int)),
                self.cfg() == old(self).cfg(),
                self.trie.nodes@ == old(self).trie.nodes@,
                self.text@ == old(self).text@,
                self.banned@ == old(self).banned@,
                self.canon@ == old(self).canon@,
                self.buf@ == old(self).buf@,
                self.consumed == old(self).consumed,
                self.matches@ == old(self).matches@,
                self.pending_commit@ == old(self).pending_commit@,
                self.separate == old(self).separate,
                self.last == old(self).last,
                self.last_pos == old(self).last_pos,
                self.typ == old(self).typ,
                self.repetitions == old(self).repetitions,
                self.gibberish == old(self).gibberish,
                self.repl_count == old(self).repl_count,
                self.self_censoring == old(self).self_censoring,
                self.safe == old(self).safe,
                self.started == old(self).started,
                self.space_appended == old(self).space_appended,
                self.done == old(self).done,
            decreases bound - self.spy,
        {
            let ch = self.buf[self.spy];
            if is_upper_char(ch) {
                self.uppercase = sat_inc(self.uppercase);
            }
            self.out.push(ch);
            proof {
                lemma_count_upper_bounds(self.buf@, spy0, self.spy as int);
                lemma_count_upper_bounds(self.buf@, spy0, self.spy + 1);
                assert(spec_count_upper(self.buf@, spy0, self.spy + 1) == spec_count_upper(
                    self.buf@,
                    spy0,
                    self.spy as int,
                ) + (if spec_is_upper(self.buf@[self.spy as int]) {
                    1int
                } else {
                    0int
                }));
                assert(self.buf@.subrange(spy0, self.spy + 1) =~= self.buf@.subrange(
                    spy0,
                    self.spy as int,
                ).push(self.buf@[self.spy as int]));
                assert(self.out@ =~= out0 + self.buf@.subrange(spy0, self.spy + 1));
            }
            self.spy += 1;
        }
    }

    /// The per-character bookkeeping before the frontier advances: the
    /// safety reset, the spam counters, the fresh seed candidate, the
    /// separator flag, and the trailing-separator marks on pending matches.
    /// Returns whether the character is skippable and its replacement
    /// expansion.
    #[verifier::rlimit(100)]
    fn prepare_char(&mut self, raw_c: char, pos: Option<usize>) -> (r: (bool, Option<Vec<char>>))
        requires
            censor_wf(old(self)),
            match pos {
                Some(p) => p < old(self).canon@.len(),
                None => old(self).matches@.len() == 0,
            },
        ensures
            r.0 == spec_skippable(raw_c),
            match r.1 {
                Some(v) => spec_repl_of(old(self).cfg().repl, raw_c) == Some(v@),
                None => spec_repl_of(old(self).cfg().repl, raw_c) is None,
            },
            final(self).cfg() == old(self).cfg(),
            final(self).trie.nodes@ == old(self).trie.nodes@,
            final(self).text@ == old(self).text@,
            final(self).banned@ == old(self).banned@,
            final(self).canon@ == old(self).canon@,
            final(self).buf@ == old(self).buf@,
            final(self).out@ == old(self).out@,
            final(self).spy == old(self).spy,
            final(self).consumed == old(self).consumed,
            final(self).typ == old(self).typ,
            final(self).started == old(self).started,
            final(self).done == old(self).done,
            final(self).space_appended == old(self).space_appended,
            final(self).last_pos == old(self).last_pos,
            final(self).safe ==> old(self).safe,
            final(self).st() == spec_prepare(old(self).st(), old(self).cfg(), raw_c, opt_int(pos)),
            pos is None ==> final(self).matches@ == old(self).matches@,
            forall|i: int|
                0 <= i < final(self).matches@.len() ==> (#[trigger] final(self).matches@[i]).node
                    < final(self).trie.nodes@.len() && final(self).matches@[i].start < final(self).canon@.len(),
            forall|i: int|
                0 <= i < final(self).pending_commit@.len() ==> (#[trigger] final(self).pending_commit@[i]).node
                    < final(self).trie.nodes@.len() && final(self).pending_commit@[i].end
                    < final(self).buf@.len() && final(self).pending_commit@[i].start < final(self).buf@.len(),
    {
        let ghost st0 = self.st();
        let ghost cfgv = self.cfg();
        let clen = self.canon.len();

        // Liveness reset: safety persists only across trailing punctuation.
        if !self.space_appended && raw_c != '!' && raw_c != '.' && raw_c != '?' {
            self.safe = false;
        }
        let skip = skippable_char(raw_c);
        let repl = replacement_of(&self.replacements, raw_c);

        // Counters.
        let last_is_repl = match self.last {
            Some(l) => l == self.censor_replacement,
            None => false,
        };
        if (!self.separate || last_is_repl) && raw_c == self.censor_replacement {
            self.self_censoring = sat_inc(self.self_censoring);
        }
        match self.last {
            Some(l) => {
                if raw_c == l {
                    self.repetitions = sat_inc(self.repetitions);
                }
                if repl.is_some() && !is_lower_char(raw_c) && !(is_digit_char(raw_c)
                    && is_digit_char(l)) {
                    self.repl_count = sat_inc(self.repl_count);
                }
                if home_row_char(raw_c) && home_row_char(l) {
                    self.gibberish = sat_inc(self.gibberish);
                }
            },
            None => {},
        }
        self.last = Some(raw_c);

        // Seed a candidate at every word-interior character.
        match pos {
            Some(p) => {
                if !(skip && repl.is_none()) {
                    let seed = Match {
                        node: 0,
                        start: p,
                        end: NO_END,
                        last: NO_LAST,
                        space_before: self.separate,
                        space_after: false,
                        spaces: 0,
                    };
                    let ghost before = self.matches@;
                    insert_match(&mut self.matches, seed);
                    proof {
                        lemma_insert_ok(before, seed, self.trie.nodes@.len() as int, clen as int);
                    }
                }
            },
            None => {},
        }
        self.separate = skip;

        // Pending matches ending at the previous position saw a separator.
        if self.separate {
            let ghost pend0 = self.pending_commit@;
            let mut np: Vec<Match> = Vec::new();
            let mut i: usize = 0;
            while i < self.pending_commit.len()
                invariant
                    i <= pend0.len(),
                    self.pending_commit@ == pend0,
                    self.last_pos == old(self).last_pos,
                    np@ == spec_mark_after(pend0, self.last_pos as int).take(i as int),
                    forall|k: int|
                        0 <= k < pend0.len() ==> (#[trigger] pend0[k]).node
                            < self.trie.nodes@.len() && pend0[k].end < self.buf@.len()
                            && pend0[k].start < self.buf@.len(),
                    trie_wf(self.trie.nodes@),
                    self.cfg() == cfgv,
                self.trie.nodes@ == old(self).trie.nodes@,
                    self.buf@ == old(self).buf@,
                decreases pend0.len() - i,
            {
                let p = self.pending_commit[i];
                let q = if p.end == self.last_pos {
                    Match { space_after: true, ..p }
                } else {
                    p
                };
                np.push(q);
                proof {
                    assert(spec_mark_after(pend0, self.last_pos as int).take(i + 1)
                        =~= spec_mark_after(pend0, self.last_pos as int).take(i as int).push(q));
                }
                i += 1;
            }
            proof {
                assert(spec_mark_after(pend0, self.last_pos as int).take(pend0.len() as int)
                    == spec_mark_after(pend0, self.last_pos as int));
                assert(forall|k: int|
                    0 <= k < np@.len() ==> (#[trigger] np@[k]).node < self.trie.nodes@.len()
                        && np@[k].end < self.buf@.len() && np@[k].start < self.buf@.len());
            }
            self.pending_commit = np;
        }

        proof {
            reveal(spec_prepare);
            assert(self.st() =~= spec_prepare(st0, cfgv, raw_c, opt_int(pos)));
        }
        (skip, repl)
    }

    /// Processes one lowercased (or substituted) character of the canonical
    /// stream at position `pos`: resets the safety flag, updates the spam
    /// counters, seeds a fresh candidate, advances the frontier, settles the
    /// pending list and emits whatever is no longer covered.
    #[verifier::rlimit(100)]
    fn process_raw(&mut self, raw_c: char, pos: Option<usize>)
        requires
            censor_wf(old(self)),
            old(self).started,
            match pos {
                Some(p) => p < old(self).canon@.len(),
                None => old(self).matches@.len() == 0,
            },
        ensures
            censor_wf(final(self)),
            final(self).started,
            final(self).cfg() == old(self).cfg(),
            final(self).trie.nodes@ == old(self).trie.nodes@,
            final(self).text@ == old(self).text@,
            final(self).banned@ == old(self).banned@,
            final(self).canon@ == old(self).canon@,
            final(self).consumed == old(self).consumed,
            final(self).done == old(self).done,
            final(self).space_appended == old(self).space_appended,
            final(self).spy >= old(self).spy,
            final(self).st() == spec_process_raw(
                old(self).st(),
                old(self).cfg(),
                raw_c,
                opt_int(pos),
            ),
    {
        let ghost st0 = self.st();
        let ghost cfgv = self.cfg();
        let (skip, repl) = self.prepare_char(raw_c, pos);
        // Advance the frontier, then settle the pending list and emit.
        let ghost pre_adv = self.st();
        let clen0 = self.canon.len();
        let (ds, se) = self.advance_frontier(raw_c, pos, skip, &repl);
        match pos {
            Some(p) => {
                assert(p < clen0);
                self.last_pos = p + 1;
            },
            None => {},
        }
        let ghost pend_a = self.pending_commit@;
        let ghost typ_a = self.typ.bits;
        let ghost buf_a = self.buf@;
        self.retain_pending(ds, se);
        proof {
            lemma_retain_props(
                cfgv,
                pend_a,
                0,
                opt_int(ds),
                se as int,
                typ_a,
                buf_a,
                Seq::empty(),
                self.canon@,
            );
        }
        let clen = self.canon.len();
        let limit: usize = match pos {
            Some(p) => p + 1,
            None => 0,
        };
        self.emit_ready(limit, se);
        proof {
            if spec_trie_safe_free(cfgv.trie) {
                let p0s: int = match opt_int(pos) {
                    Some(p) => p,
                    None => 0,
                };
                lemma_advance_chars_keeps_safe(
                    cfgv.trie,
                    cfgv.ignore_false_positives,
                    skip,
                    raw_c,
                    p0s,
                    spec_cs(cfgv, raw_c),
                    0,
                    pre_adv.matches,
                    Adv {
                        matches: Seq::empty(),
                        pending: pre_adv.pending,
                        safe: pre_adv.safe,
                        drain_start: None,
                        safety_end: usize::MAX as int,
                    },
                );
                assert(!self.safe);
            }
            if self.canon@.len() == 0 {
                assert(pre_adv.matches =~= Seq::<Match>::empty());
                lemma_advance_chars_empty(
                    cfgv.trie,
                    cfgv.ignore_false_positives,
                    skip,
                    raw_c,
                    0,
                    spec_cs(cfgv, raw_c),
                    0,
                    Adv {
                        matches: Seq::empty(),
                        pending: pre_adv.pending,
                        safe: pre_adv.safe,
                        drain_start: None,
                        safety_end: usize::MAX as int,
                    },
                );
                assert(self.matches@.len() == 0);
            }
            assert forall|i: int|
                0 <= i < self.out@.len() implies #[trigger] self.out@[i] == self.canon@[i]
                || self.out@[i] == self.censor_replacement by {
                if i < old(self).out@.len() {
                    assert(old(self).out@[i] == old(self).canon@[i] || old(self).out@[i] == old(
                        self,
                    ).censor_replacement);
                } else {
                    assert(self.out@[i] == self.buf@[i]);
                    assert(self.buf@[i] == self.canon@[i] || self.buf@[i]
                        == self.censor_replacement);
                }
            }
            assert(censor_wf(self));
            reveal(spec_process_raw);
            assert(self.st() =~= spec_process_raw(st0, cfgv, raw_c, opt_int(pos)));
        }
    }
}

/// Advancing an empty frontier changes nothing.
pub proof fn lemma_advance_chars_empty(
    trie: Seq<NodeV>,
    ifp: bool,
    skip: bool,
    raw_c: char,
    p0: int,
    cs: Seq<char>,
    j: int,
    acc: Adv,
)
    ensures
        spec_advance_chars(trie, ifp, skip, raw_c, p0, cs, j, Seq::empty(), acc) == acc,
    decreases cs.len() - j,
{
    if 0 <= j < cs.len() {
        assert(spec_advance_list(trie, ifp, skip, raw_c, p0, cs[j], Seq::empty(), 0, acc) == acc);
        lemma_advance_chars_empty(trie, ifp, skip, raw_c, p0, cs, j + 1, acc);
    }
}

/// One frontier match advanced over one character, operating on the live
/// accumulator pieces; computes exactly the advance transition.
#[verifier::rlimit(100)]
fn advance_one_exec(
    trie: &Trie,
    ifp: bool,
    skip: bool,
    raw_c: char,
    p0: usize,
    c: char,
    m: Match,
    new_matches: &mut Vec<Match>,
    pending: &mut Vec<Match>,
    safe_flag: &mut bool,
    drain_start: &mut Option<usize>,
    safety_end: &mut usize,
    clen: Ghost<int>,
)
    requires
        trie_wf(trie.nodes@),
        m.node < trie.nodes@.len(),
        m.start < clen@,
        p0 < clen@,
        forall|i: int|
            0 <= i < old(new_matches)@.len() ==> (#[trigger] old(new_matches)@[i]).node < trie.nodes@.len() && old(new_matches)@[i].start < clen@,
        forall|i: int|
            0 <= i < old(pending)@.len() ==> (#[trigger] old(pending)@[i]).node < trie.nodes@.len() && old(pending)@[i].end < clen@ && old(pending)@[i].start < clen@,
    ensures
        (Adv {
            matches: final(new_matches)@,
            pending: final(pending)@,
            safe: *final(safe_flag),
            drain_start: opt_int(*final(drain_start)),
            safety_end: *final(safety_end) as int,
        }) == spec_advance_one(
            trie_view(trie.nodes@),
            ifp,
            skip,
            raw_c,
            p0 as int,
            c,
            Adv {
                matches: old(new_matches)@,
                pending: old(pending)@,
                safe: *old(safe_flag),
                drain_start: opt_int(*old(drain_start)),
                safety_end: *old(safety_end) as int,
            },
            m,
        ),
        forall|i: int|
            0 <= i < final(new_matches)@.len() ==> (#[trigger] final(new_matches)@[i]).node < trie.nodes@.len() && final(new_matches)@[i].start < clen@,
        forall|i: int|
            0 <= i < final(pending)@.len() ==> (#[trigger] final(pending)@[i]).node < trie.nodes@.len() && final(pending)@[i].end < clen@ && final(pending)@[i].start < clen@,
{
    let ghost prev = Adv {
        matches: new_matches@,
        pending: pending@,
        safe: *safe_flag,
        drain_start: opt_int(*drain_start),
        safety_end: *safety_end as int,
    };
    if m.start < *safety_end {
        *safety_end = m.start;
    }
    if (skip || c == m.last) && m.start != p0 {
        let inc: u8 = if (c == ' ' || c != raw_c) && skip && c != '\'' {
            1
        } else {
            0
        };
        let undo = Match { spaces: sat_add(m.spaces, inc), ..m };
        let ghost before = new_matches@;
        insert_match(new_matches, undo);
        proof {
            lemma_insert_ok(before, undo, trie.nodes@.len() as int, clen@);
        }
    }
    match trie.child_of(m.node, c) {
        None => {},
        Some(nx) => {
            proof {
                crate::trie::lemma_child_bound(trie.nodes@, m.node as int, c);
            }
            let inc2: u8 = if c != raw_c && skip && c != '\'' {
                1
            } else {
                0
            };
            let next_m = Match { node: nx, spaces: sat_add(m.spaces, inc2), last: c, ..m };
            let node_word = trie.nodes[nx].word;
            let node_bits = trie.nodes[nx].typ.bits;
            if node_word {
                if node_bits & SAFE_BITS != 0 && next_m.start == 0 && next_m.spaces == 0 && !ifp {
                    *safe_flag = true;
                }
                if node_bits & ANY_BITS != 0 {
                    pending.push(Match { end: p0, ..next_m });
                } else if next_m.spaces == 0 && !ifp {
                    *drain_start = Some(
                        match *drain_start {
                            Some(d) => if d <= next_m.start {
                                d
                            } else {
                                next_m.start
                            },
                            None => next_m.start,
                        },
                    );
                }
            }
            let ghost before2 = new_matches@;
            insert_match(new_matches, next_m);
            proof {
                lemma_insert_ok(before2, next_m, trie.nodes@.len() as int, clen@);
            }
        },
    }
    proof {
        let cur = Adv {
            matches: new_matches@,
            pending: pending@,
            safe: *safe_flag,
            drain_start: opt_int(*drain_start),
            safety_end: *safety_end as int,
        };
        assert(cur =~= spec_advance_one(trie_view(trie.nodes@), ifp, skip, raw_c, p0 as int, c, prev, m));
    }
}

/// Elements inserted into a frontier of in-range matches stay in range.
proof fn lemma_insert_ok(s: Seq<Match>, m: Match, tlen: int, clen: int)
    requires
        forall|i: int| 0 <= i < s.len() ==> (#[trigger] s[i]).node < tlen && s[i].start < clen,
        m.node < tlen,
        m.start < clen,
    ensures
        forall|i: int|
            0 <= i < spec_insert(s, m).len() ==> (#[trigger] spec_insert(s, m)[i]).node < tlen
                && spec_insert(s, m)[i].start < clen,
{
    match spec_find_key(s, m) {
        Some(k) => {
            lemma_find_key_in_range(s, m);
        },
        None => {},
    }
}

/// A found key index lies inside the frontier.
proof fn lemma_find_key_in_range(s: Seq<Match>, m: Match)
    requires
        spec_find_key(s, m) is Some,
    ensures
        0 <= spec_find_key(s, m).unwrap() < s.len(),
        spec_same_key(s[spec_find_key(s, m).unwrap()], m),
    decreases s.len(),
{
    if s.len() > 0 && !spec_same_key(s.first(), m) {
        lemma_find_key_in_range(s.drop_first(), m);
    }
}


impl Censor {
    /// A censor over the given characters, with an empty phrase trie and
    /// default options.
    pub fn new(text: Vec<char>) -> (c: Censor)
        ensures
            censor_wf(&c),
            !c.started,
            c.text@ == text@,
            c.banned@.len() == 0,
            c.cfg().repl.len() == 0,
            c.cfg().trie.len() == 1,
            c.cfg().trie[0].typ == 0,
            !c.cfg().trie[0].word,
            c.cfg().censor_threshold == INAPPROPRIATE_BITS,
            c.cfg().first_char_threshold == (OFFENSIVE_BITS & SEVERE_BITS),
            c.cfg().censor_replacement == '*',
            !c.cfg().ignore_false_positives,
            !c.cfg().ignore_self_censoring,
            c.st() == spec_blank(),
            c.cfg() == spec_default_cfg(),
    {
        let c = Censor {
            trie: Trie::new(),
            replacements: Vec::new(),
            banned: Vec::new(),
            censor_threshold: Type::inappropriate(),
            censor_first_character_threshold: Type::offensive().intersect(Type::severe()),
            censor_replacement: '*',
            ignore_false_positives: false,
            ignore_self_censoring: false,
            text,
            started: false,
            canon: Vec::new(),
            buf: Vec::new(),
            out: Vec::new(),
            spy: 0,
            consumed: 0,
            matches: Vec::new(),
            pending_commit: Vec::new(),
            separate: true,
            last: None,
            last_pos: usize::MAX,
            typ: Type::none(),
            uppercase: 0,
            repetitions: 0,
            gibberish: 0,
            repl_count: 0,
            self_censoring: 0,
            safe: false,
            space_appended: false,
            done: false,
        };
        proof {
            assert(0u32 & 0b0_111_000_000_000_000_000u32 == 0) by (bit_vector);
            assert(0u32 & 0b1_000_000_000_000_000_000u32 == 0) by (bit_vector);
            assert(censor_wf(&c));
            assert(c.st() =~= spec_blank());
            assert(trie_view(c.trie.nodes@)[0].children =~= Seq::<(char, usize)>::empty());
            assert(trie_view(c.trie.nodes@) =~= spec_default_trie());
            assert(repl_view(c.replacements@) =~= Seq::<(char, Seq<char>)>::empty());
            assert(c.cfg() =~= spec_default_cfg());
        }
        c
    }

    /// A censor over the characters of a string.
    pub fn from_str(s: &str) -> (c: Censor)
        ensures
            censor_wf(&c),
            !c.started,
            c.text@ == s@,
            c.banned@.len() == 0,
            c.cfg().repl.len() == 0,
            c.cfg().trie.len() == 1,
            c.cfg().trie[0].typ == 0,
            !c.cfg().trie[0].word,
            c.cfg().censor_threshold == INAPPROPRIATE_BITS,
            c.cfg().first_char_threshold == (OFFENSIVE_BITS & SEVERE_BITS),
            c.cfg().censor_replacement == '*',
            !c.cfg().ignore_false_positives,
            !c.cfg().ignore_self_censoring,
            c.st() == spec_blank(),
            c.cfg() == spec_default_cfg(),
    {
        Censor::new(chars_of(s))
    }

    /// Resets the censor with new text, keeping the configured options, the
    /// trie, the replacement table and the banned characters.
    pub fn reset(&mut self, text: Vec<char>)
        requires
            censor_wf(old(self)),
        ensures
            censor_wf(final(self)),
            !final(self).started,
            final(self).text@ == text@,
            final(self).cfg() == old(self).cfg(),
            final(self).trie.nodes@ == old(self).trie.nodes@,
            final(self).banned@ == old(self).banned@,
            final(self).st() == spec_blank(),
    {
        self.text = text;
        self.started = false;
        self.canon = Vec::new();
        self.buf = Vec::new();
        self.out = Vec::new();
        self.spy = 0;
        self.consumed = 0;
        self.matches = Vec::new();
        self.pending_commit = Vec::new();
        self.separate = true;
        self.last = None;
        self.last_pos = usize::MAX;
        self.typ = Type::none();
        self.uppercase = 0;
        self.repetitions = 0;
        self.gibberish = 0;
        self.repl_count = 0;
        self.self_censoring = 0;
        self.safe = false;
        self.space_appended = false;
        self.done = false;
        proof {
            assert(0u32 & 0b0_111_000_000_000_000_000u32 == 0) by (bit_vector);
            assert(0u32 & 0b1_000_000_000_000_000_000u32 == 0) by (bit_vector);
            assert(censor_wf(self));
        }
    }

    /// Selects the threshold a word's scaled type must meet to be censored.
    pub fn with_censor_threshold(self, censor_threshold: Type) -> (r: Censor)
        requires
            censor_wf(&self),
        ensures
            censor_wf(&r),
            r.cfg() == (CfgV { censor_threshold: censor_threshold.bits, ..self.cfg() }),
            r.st() == self.st(),
            r.text@ == self.text@,
            r.banned@ == self.banned@,
    {
        Censor { censor_threshold, ..self }
    }

    /// Also censor words like "sh*t" inside "push it": fewer false
    /// negatives, more false positives, and no safe signal.
    pub fn with_ignore_false_positives(self, ignore_false_positives: bool) -> (r: Censor)
        requires
            censor_wf(&self),
        ensures
            censor_wf(&r),
            r.cfg() == (CfgV { ignore_false_positives, ..self.cfg() }),
            r.st() == self.st(),
            r.text@ == self.text@,
            r.banned@ == self.banned@,
    {
        Censor { ignore_false_positives, ..self }
    }

    /// Do not count instances of the replacement character in the input as
    /// self-censoring.
    pub fn with_ignore_self_censoring(self, ignore_self_censoring: bool) -> (r: Censor)
        requires
            censor_wf(&self),
        ensures
            censor_wf(&r),
            r.cfg() == (CfgV { ignore_self_censoring, ..self.cfg() }),
            r.st() == self.st(),
            r.text@ == self.text@,
            r.banned@ == self.banned@,
    {
        Censor { ignore_self_censoring, ..self }
    }

    /// Censor every character, instead of all but the first, when a word's
    /// scaled type meets this threshold.
    pub fn with_censor_first_character_threshold(self, censor_first_character_threshold: Type) -> (r:
        Censor)
        requires
            censor_wf(&self),
        ensures
            censor_wf(&r),
            r.cfg() == (CfgV {
                first_char_threshold: censor_first_character_threshold.bits,
                ..self.cfg()
            }),
            r.st() == self.st(),
            r.text@ == self.text@,
            r.banned@ == self.banned@,
    {
        Censor { censor_first_character_threshold, ..self }
    }

    /// Sets the character that replaces censored characters.
    pub fn with_censor_replacement(self, censor_replacement: char) -> (r: Censor)
        requires
            censor_wf(&self),
            !self.started,
        ensures
            censor_wf(&r),
            !r.started,
            r.cfg() == (CfgV { censor_replacement, ..self.cfg() }),
            r.st() == self.st(),
            r.text@ == self.text@,
            r.banned@ == self.banned@,
    {
        Censor { censor_replacement, ..self }
    }

    /// Canonicalizes the input; the first step of any processing.
    fn start(&mut self)
        requires
            censor_wf(old(self)),
            !old(self).started,
        ensures
            censor_wf(final(self)),
            final(self).started,
            !final(self).done,
            !final(self).space_appended,
            final(self).consumed == 0,
            final(self).canon@ == spec_canon(old(self).text@, old(self).banned@),
            final(self).cfg() == old(self).cfg(),
            final(self).trie.nodes@ == old(self).trie.nodes@,
            final(self).text@ == old(self).text@,
            final(self).banned@ == old(self).banned@,
            final(self).st() == spec_started(old(self)),
    {
        let c = canonicalize(&self.text, &self.banned);
        let b = copy_chars(&c);
        self.canon = c;
        self.buf = b;
        self.started = true;
        proof {
            assert(censor_wf(self));
            assert(self.st() =~= spec_started(old(self)));
        }
    }

    /// Processes the next canonical character through the matcher.
    fn step(&mut self)
        requires
            censor_wf(old(self)),
            old(self).started,
            old(self).consumed < old(self).canon@.len(),
        ensures
            censor_wf(final(self)),
            final(self).started,
            final(self).consumed == old(self).consumed + 1,
            final(self).canon@ == old(self).canon@,
            final(self).cfg() == old(self).cfg(),
            final(self).trie.nodes@ == old(self).trie.nodes@,
            final(self).text@ == old(self).text@,
            final(self).banned@ == old(self).banned@,
            final(self).done == old(self).done,
            final(self).space_appended == old(self).space_appended,
            final(self).st() == spec_step(old(self).st(), old(self).cfg()),
            final(self).last_pos == old(self).consumed + 1,
    {
        let ghost st0 = self.st();
        let ghost cfgv = self.cfg();
        let pos = self.consumed;
        let c = self.canon[pos];
        let expansion = lowercase_char(c);
        let mut j: usize = 0;
        while j < expansion.len()
            invariant
                censor_wf(self),
                self.started,
                j <= expansion@.len(),
                self.consumed == pos,
                pos < self.canon@.len(),
                expansion@ == lower_of(st0.canon[pos as int]),
                j > 0 ==> self.last_pos == pos + 1,
                cfgv == old(self).cfg(),
                st0 == old(self).st(),
                spec_expand(st0, cfgv, expansion@, 0, Some(pos as int)) == spec_expand(
                    self.st(),
                    cfgv,
                    expansion@,
                    j as int,
                    Some(pos as int),
                ),
                self.canon@ == old(self).canon@,
                self.cfg() == old(self).cfg(),
                self.trie.nodes@ == old(self).trie.nodes@,
                self.text@ == old(self).text@,
                self.banned@ == old(self).banned@,
                self.done == old(self).done,
                self.space_appended == old(self).space_appended,
            decreases expansion@.len() - j,
        {
            self.process_raw(expansion[j], Some(pos));
            proof {
                reveal(spec_process_raw);
                assert(self.last_pos == pos + 1);
            }
            j += 1;
        }
        proof {
            assert(spec_expand(st0, cfgv, expansion@, 0, Some(pos as int)) == self.st());
            assert(expansion@.len() >= 1);
        }
        let n = self.canon.len();
        assert(pos < n);
        self.consumed = pos + 1;
        proof {
            assert(self.st() =~= spec_step(st0, cfgv));
        }
    }

    /// Flushes the matcher with one synthetic trailing separator, commits
    /// every remaining pending match, and emits the rest of the buffer.
    fn finish(&mut self)
        requires
            censor_wf(old(self)),
            old(self).started,
            old(self).consumed == old(self).canon@.len(),
        ensures
            censor_wf(final(self)),
            final(self).started,
            final(self).done,
            final(self).spy == final(self).buf@.len(),
            final(self).out@.len() == final(self).canon@.len(),
            final(self).canon@ == old(self).canon@,
            final(self).cfg() == old(self).cfg(),
            final(self).trie.nodes@ == old(self).trie.nodes@,
            final(self).text@ == old(self).text@,
            final(self).banned@ == old(self).banned@,
            final(self).st() == spec_finish(old(self).st(), old(self).cfg()),
            old(self).canon@.len() > 0 && !old(self).space_appended ==> final(self).last_pos
                == old(self).canon@.len(),
            old(self).canon@.len() == 0 || old(self).space_appended ==> final(self).last_pos
                == old(self).last_pos,
    {
        let ghost st0 = self.st();
        let ghost cfgv = self.cfg();
        if !self.space_appended {
            self.space_appended = true;
            if self.canon.len() > 0 {
                let p = self.canon.len() - 1;
                self.process_raw(' ', Some(p));
            } else {
                self.process_raw(' ', None);
            }
        }
        proof {
            if !st0.space_appended {
                reveal(spec_process_raw);
                reveal(spec_prepare);
                if st0.canon.len() > 0 {
                    assert(self.last_pos == st0.canon.len());
                } else {
                    assert(self.last_pos == st0.last_pos);
                }
            }
        }
        let ghost st1 = self.st();
        let ghost pend1 = self.pending_commit@;
        let ghost typ1 = self.typ.bits;
        let ghost buf1 = self.buf@;
        let mut i: usize = 0;
        while i < self.pending_commit.len()
            invariant
                censor_wf(self),
                self.started,
                i <= pend1.len(),
                self.pending_commit@ == pend1,
                self.canon@ == old(self).canon@,
                self.cfg() == cfgv,
                self.trie.nodes@ == old(self).trie.nodes@,
                cfgv == old(self).cfg(),
                self.text@ == old(self).text@,
                self.banned@ == old(self).banned@,
                self.st() == (StV { typ: self.typ.bits, buf: self.buf@, ..st1 }),
                spec_commit_all(cfgv, pend1, 0, typ1, buf1) == spec_commit_all(
                    cfgv,
                    pend1,
                    i as int,
                    self.typ.bits,
                    self.buf@,
                ),
            decreases pend1.len() - i,
        {
            let p = self.pending_commit[i];
            let ghost typ_b = self.typ.bits;
            let ghost buf_b = self.buf@;
            self.do_commit(p);
            proof {
                lemma_commit_props(cfgv, p, typ_b, buf_b, self.canon@);
                assert(censor_wf(self));
            }
            i += 1;
        }
        self.pending_commit = Vec::new();
        let ghost r = spec_commit_all(cfgv, pend1, 0, typ1, buf1);
        let ghost out1 = self.out@;
        let ghost spy1 = self.spy as int;
        let ghost up1 = self.uppercase;
        while self.spy < self.buf.len()
            invariant
                censor_wf(self),
                self.started,
                self.pending_commit@.len() == 0,
                self.canon@ == old(self).canon@,
                self.cfg() == old(self).cfg(),
                self.trie.nodes@ == old(self).trie.nodes@,
                self.text@ == old(self).text@,
                self.banned@ == old(self).banned@,
                0 <= spy1 <= self.spy,
                self.out@ == out1 + self.buf@.subrange(spy1, self.spy as int),
                self.uppercase == sat8(up1, spec_count_upper(self.buf@, spy1, self.spy as int)),
                self.st() == (StV {
                    pending: Seq::empty(),
                    typ: r.0,
                    buf: r.1,
                    out: self.out@,
                    spy: self.spy as int,
                    uppercase: self.uppercase,
                    ..st1
                }),
            decreases self.buf@.len() - self.spy,
        {
            let ghost pre_out = self.out@;
            let ch = self.buf[self.spy];
            if is_upper_char(ch) {
                self.uppercase = sat_inc(self.uppercase);
            }
            self.out.push(ch);
            proof {
                lemma_count_upper_bounds(self.buf@, spy1, self.spy as int);
                lemma_count_upper_bounds(self.buf@, spy1, self.spy + 1);
                assert(spec_count_upper(self.buf@, spy1, self.spy + 1) == spec_count_upper(
                    self.buf@,
                    spy1,
                    self.spy as int,
                ) + (if spec_is_upper(self.buf@[self.spy as int]) {
                    1int
                } else {
                    0int
                }));
                assert(self.buf@.subrange(spy1, self.spy + 1) =~= self.buf@.subrange(
                    spy1,
                    self.spy as int,
                ).push(self.buf@[self.spy as int]));
                assert(self.out@ =~= out1 + self.buf@.subrange(spy1, self.spy + 1));
                assert forall|k: int|
                    0 <= k < self.out@.len() implies #[trigger] self.out@[k] == self.canon@[k]
                    || self.out@[k] == self.censor_replacement by {
                    if k < pre_out.len() {
                        assert(pre_out[k] == self.canon@[k] || pre_out[k]
                            == self.censor_replacement);
                    } else {
                        assert(self.out@[k] == self.buf@[k]);
                    }
                }
            }
            self.spy += 1;
            proof {
                assert(censor_wf(self));
            }
        }
        self.done = true;
        proof {
            assert(self.buf@.subrange(spy1, self.buf@.len() as int) == r.1.subrange(
                spy1,
                r.1.len() as int,
            ));
            assert(self.st() =~= spec_finish(st0, cfgv));
        }
    }

    /// Fully consumes the input and returns the censored text: same
    /// character count as the canonical form of the input, and every
    /// character either the canonical one, case preserved, or the
    /// configured replacement.
    ///
    /// Must be the first form of processing on this censor.
    pub fn censor(&mut self) -> (r: String)
        requires
            censor_wf(old(self)),
            !old(self).started,
        ensures
            censor_wf(final(self)),
            final(self).done,
            final(self).cfg() == old(self).cfg(),
            final(self).trie.nodes@ == old(self).trie.nodes@,
            final(self).st() == spec_complete(spec_ready(old(self)), old(self).cfg()),
            r@ == final(self).out@,
            r@ == spec_complete(spec_ready(old(self)), old(self).cfg()).out,
            r@.len() == spec_canon(old(self).text@, old(self).banned@).len(),
            forall|i: int|
                0 <= i < r@.len() ==> r@[i] == spec_canon(old(self).text@, old(self).banned@)[i]
                    || r@[i] == old(self).censor_replacement,
            spec_canon(old(self).text@, old(self).banned@).len() > 0 ==> final(self).last_pos
                == spec_canon(old(self).text@, old(self).banned@).len(),
    {
        let ghost st0 = spec_ready(old(self));
        let ghost cfgv = self.cfg();
        self.start();
        while self.consumed < self.canon.len()
            invariant
                censor_wf(self),
                self.started,
                !self.space_appended,
                st0 == spec_ready(old(self)),
                st0.consumed == 0,
                cfgv == old(self).cfg(),
                self.st() == spec_run(st0, cfgv, self.consumed as int),
                self.canon@ == spec_canon(old(self).text@, old(self).banned@),
                self.cfg() == old(self).cfg(),
                self.trie.nodes@ == old(self).trie.nodes@,
                self.text@ == old(self).text@,
                self.banned@ == old(self).banned@,
            decreases self.canon@.len() - self.consumed,
        {
            self.step();
        }
        proof {
            assert(self.st() == spec_run(st0, cfgv, st0.canon.len() - st0.consumed));
        }
        self.finish();
        proof {
            assert(self.st() =~= spec_complete(st0, cfgv));
        }
        string_from_chars(&self.out)
    }

    /// The analysis accumulated so far: the committed types joined with the
    /// safe, self-censoring and spam scoring.
    fn analysis(&self) -> (t: Type)
        ensures
            t.bits == self.typ.bits | spec_score(self.st(), self.cfg()),
    {
        self.typ.union(self.safe_self_censoring_and_spam_detection())
    }

    /// The safe, self-censoring and spam scoring of the counters.
    fn safe_self_censoring_and_spam_detection(&self) -> (t: Type)
        ensures
            t.bits == spec_score(self.st(), self.cfg()),
    {
        let safe_bits: u32 = if self.safe {
            SAFE_BITS
        } else {
            0
        };
        if self.last_pos < 6 {
            return Type { bits: safe_bits };
        }
        let total: u16 = if self.last_pos >= 65529 {
            65535
        } else {
            (self.last_pos + 6) as u16
        };
        let g2: u8 = self.gibberish / 2;
        let spam_sig: u16 = (if self.uppercase >= self.repetitions && self.uppercase >= g2
            && self.uppercase >= self.repl_count {
            self.uppercase
        } else if self.repetitions >= g2 && self.repetitions >= self.repl_count {
            self.repetitions
        } else if g2 >= self.repl_count {
            g2
        } else {
            self.repl_count
        }) as u16;
        let percent_spam: u16 = 100 * spam_sig / total;
        let percent_self: u16 = 100 * (self.self_censoring as u16) / total;
        let spam_bits: u32 = if percent_spam >= 70 && self.last_pos >= 20 {
            SPAM_BITS & SEVERE_BITS
        } else if percent_spam >= 50 && self.last_pos >= 10 {
            SPAM_BITS & MODERATE_BITS
        } else if percent_spam >= 30 {
            SPAM_BITS & MILD_BITS
        } else {
            0
        };
        let self_bits: u32 = if !self.ignore_self_censoring && percent_self > 20 {
            PROFANE_BITS & MILD_BITS
        } else {
            0
        };
        Type { bits: safe_bits | spam_bits | self_bits }
    }

    /// Fully consumes the input and returns the analysis mask: a function
    /// of the text, the banned characters and the configuration alone, so
    /// fresh runs over the same input always agree.  When no trie terminal
    /// carries spam bits, an input shorter than six canonical characters is
    /// never reported as spam; and when no trie terminal carries the SAFE
    /// bit, the mask never carries it either.
    pub fn analyze(&mut self) -> (r: Type)
        requires
            censor_wf(old(self)),
        ensures
            censor_wf(final(self)),
            final(self).done,
            final(self).cfg() == old(self).cfg(),
            final(self).trie.nodes@ == old(self).trie.nodes@,
            final(self).st() == spec_complete(spec_ready(old(self)), old(self).cfg()),
            r.bits == spec_analysis(
                spec_complete(spec_ready(old(self)), old(self).cfg()),
                old(self).cfg(),
            ),
            r.bits == final(self).typ.bits | spec_score(final(self).st(), final(self).cfg()),
            spec_trie_spam_free(old(self).cfg().trie) && final(self).last_pos < 6 ==> r.bits
                & SPAM_BITS == 0,
            !old(self).started && spec_canon(old(self).text@, old(self).banned@).len() < 6
                && spec_trie_spam_free(old(self).cfg().trie) ==> r.bits & SPAM_BITS == 0,
            spec_trie_safe_free(old(self).cfg().trie) ==> r.bits & SAFE_BITS == 0,
    {
        let ghost st0 = spec_ready(old(self));
        let ghost cfgv = self.cfg();
        if !self.done {
            let ghost c0 = if self.started {
                self.consumed as int
            } else {
                0int
            };
            if !self.started {
                self.start();
            }
            while self.consumed < self.canon.len()
                invariant
                    censor_wf(self),
                    self.started,
                    !self.done,
                    st0 == spec_ready(old(self)),
                    !st0.done,
                    c0 == st0.consumed,
                    c0 <= self.consumed,
                    cfgv == old(self).cfg(),
                    self.st() == spec_run(st0, cfgv, self.consumed - c0),
                    self.canon@ == st0.canon,
                    self.cfg() == old(self).cfg(),
                    self.trie.nodes@ == old(self).trie.nodes@,
                self.trie.nodes@ == old(self).trie.nodes@,
                    !old(self).started ==> !self.space_appended,
                    !old(self).started ==> self.canon@ == spec_canon(
                        old(self).text@,
                        old(self).banned@,
                    ),
                decreases self.canon@.len() - self.consumed,
            {
                self.step();
            }
            proof {
                assert(self.st() == spec_run(st0, cfgv, st0.canon.len() - st0.consumed));
            }
            self.finish();
            proof {
                assert(self.st() =~= spec_complete(st0, cfgv));
            }
        }
        let t = self.analysis();
        proof {
            if spec_trie_spam_free(old(self).cfg().trie) && self.last_pos < 6 {
                lemma_short_input_never_spam(self.st(), self.cfg());
            }
            if !old(self).started && spec_canon(old(self).text@, old(self).banned@).len() < 6
                && spec_trie_spam_free(old(self).cfg().trie) {
                if spec_canon(old(self).text@, old(self).banned@).len() > 0 {
                    assert(self.last_pos < 6);
                    lemma_short_input_never_spam(self.st(), self.cfg());
                } else {
                    // An empty canonical input: the last position is still
                    // the idle sentinel, or zero.
                    assert(old(self).last_pos == 0 || old(self).last_pos == usize::MAX);
                    assert(self.last_pos == old(self).last_pos);
                    if self.last_pos < 6 {
                        lemma_short_input_never_spam(self.st(), self.cfg());
                    } else {
                        lemma_idle_never_spam(self.st(), self.cfg());
                    }
                }
            }
            if spec_trie_safe_free(old(self).cfg().trie) {
                lemma_safe_requires_safe_word(self.st(), self.cfg());
            }
        }
        t
    }

    /// Censors and analyzes in one pass; must be the first form of
    /// processing on this censor.
    pub fn censor_and_analyze(&mut self) -> (r: (String, Type))
        requires
            censor_wf(old(self)),
            !old(self).started,
        ensures
            censor_wf(final(self)),
            final(self).done,
            final(self).st() == spec_complete(spec_ready(old(self)), old(self).cfg()),
            r.0@ == spec_complete(spec_ready(old(self)), old(self).cfg()).out,
            r.0@.len() == spec_canon(old(self).text@, old(self).banned@).len(),
            forall|i: int|
                0 <= i < r.0@.len() ==> r.0@[i] == spec_canon(old(self).text@, old(self).banned@)[i]
                    || r.0@[i] == old(self).censor_replacement,
            r.1.bits == spec_analysis(
                spec_complete(spec_ready(old(self)), old(self).cfg()),
                old(self).cfg(),
            ),
    {
        let censored = self.censor();
        let t = self.analysis();
        (censored, t)
    }
}

/// With the safe flag down, the scoring carries no SAFE bit: its spam and
/// self-censoring contributions lie inside the six category fields.
pub proof fn lemma_score_no_safe(st: StV, cfg: CfgV)
    requires
        !st.safe,
    ensures
        spec_score(st, cfg) & SAFE_BITS == 0,
{
    assert(((0b0_111_000_000_000_000_000u32 & 0b0_100_100_100_100_100_100u32)
        & 0b1_000_000_000_000_000_000u32) == 0) by (bit_vector);
    assert(((0b0_111_000_000_000_000_000u32 & 0b0_110_110_110_110_110_110u32)
        & 0b1_000_000_000_000_000_000u32) == 0) by (bit_vector);
    assert(((0b0_111_000_000_000_000_000u32 & 0b0_111_111_111_111_111_111u32)
        & 0b1_000_000_000_000_000_000u32) == 0) by (bit_vector);
    assert(((0b0_000_000_000_000_000_111u32 & 0b0_111_111_111_111_111_111u32)
        & 0b1_000_000_000_000_000_000u32) == 0) by (bit_vector);
    assert(forall|a: u32, b: u32|
        a & 0b1_000_000_000_000_000_000u32 == 0 && b & 0b1_000_000_000_000_000_000u32 == 0
            ==> #[trigger] ((0u32 | a | b) & 0b1_000_000_000_000_000_000u32) == 0) by (bit_vector);
    assert((0u32 & 0b1_000_000_000_000_000_000u32) == 0) by (bit_vector);
    assert((0u32 | 0u32 | 0u32) == 0u32) by (bit_vector);
}

/// A safe signal requires a safe-listed phrase: when no trie terminal
/// carries the SAFE bit, the safe flag is never raised, and neither the
/// accumulated type nor the scoring can put the SAFE bit into the
/// analysis.
pub proof fn lemma_safe_requires_safe_word(st: StV, cfg: CfgV)
    requires
        !st.safe,
        st.typ & SAFE_BITS == 0,
    ensures
        (st.typ | spec_score(st, cfg)) & SAFE_BITS == 0,
{
    lemma_score_no_safe(st, cfg);
    let t = st.typ;
    let sc = spec_score(st, cfg);
    assert((t | sc) & 0b1_000_000_000_000_000_000u32 == 0) by (bit_vector)
        requires
            t & 0b1_000_000_000_000_000_000u32 == 0,
            sc & 0b1_000_000_000_000_000_000u32 == 0,
    ;
}

/// With the scoring denominator at its cap, byte-sized counters cannot
/// reach even the mild spam percentage, so a state whose last position is
/// the idle sentinel is never reported as spam.
pub proof fn lemma_idle_never_spam(st: StV, cfg: CfgV)
    requires
        st.typ & SPAM_BITS == 0,
        st.last_pos >= 65529,
    ensures
        (st.typ | spec_score(st, cfg)) & SPAM_BITS == 0,
{
    let total = min_i(st.last_pos + 6, 65535);
    assert(total == 65535);
    let g2 = st.gibberish / 2;
    let spam_sig = if st.uppercase >= st.repetitions && st.uppercase >= g2 && st.uppercase
        >= st.repl_count {
        st.uppercase as int
    } else if st.repetitions >= g2 && st.repetitions >= st.repl_count {
        st.repetitions as int
    } else if g2 >= st.repl_count {
        g2 as int
    } else {
        st.repl_count as int
    };
    assert(0 <= spam_sig <= 255);
    assert(100 * spam_sig / total < 30) by (nonlinear_arith)
        requires
            0 <= spam_sig <= 255,
            total == 65535,
    ;
    let t = st.typ;
    let sc = spec_score(st, cfg);
    assert(((0b1_000_000_000_000_000_000u32 | 0u32) | (0b0_000_000_000_000_000_111u32
        & 0b0_111_111_111_111_111_111u32)) & 0b0_111_000_000_000_000_000u32 == 0) by (bit_vector);
    assert(((0u32 | 0u32) | (0b0_000_000_000_000_000_111u32 & 0b0_111_111_111_111_111_111u32))
        & 0b0_111_000_000_000_000_000u32 == 0) by (bit_vector);
    assert(((0b1_000_000_000_000_000_000u32 | 0u32) | 0u32) & 0b0_111_000_000_000_000_000u32 == 0)
        by (bit_vector);
    assert(((0u32 | 0u32) | 0u32) & 0b0_111_000_000_000_000_000u32 == 0) by (bit_vector);
    assert(sc & 0b0_111_000_000_000_000_000u32 == 0);
    assert((t | sc) & 0b0_111_000_000_000_000_000u32 == 0) by (bit_vector)
        requires
            t & 0b0_111_000_000_000_000_000u32 == 0,
            sc & 0b0_111_000_000_000_000_000u32 == 0,
    ;
}

/// A short input is never reported as spam: when the accumulated type
/// carries no spam bits and the last matched position lies before position
/// six, the scoring contributes at most the safe signal, so the analysis
/// has no spam bits either.
pub proof fn lemma_short_input_never_spam(st: StV, cfg: CfgV)
    requires
        st.typ & SPAM_BITS == 0,
        st.last_pos < 6,
    ensures
        (st.typ | spec_score(st, cfg)) & SPAM_BITS == 0,
{
    let t = st.typ;
    if st.safe {
        assert((t | 0b1_000_000_000_000_000_000u32) & 0b0_111_000_000_000_000_000u32 == 0)
            by (bit_vector)
            requires
                t & 0b0_111_000_000_000_000_000u32 == 0,
        ;
    } else {
        assert((t | 0u32) & 0b0_111_000_000_000_000_000u32 == 0) by (bit_vector)
            requires
                t & 0b0_111_000_000_000_000_000u32 == 0,
        ;
    }
}

/// Adds a phrase to this censor's trie with the given type, lowercased, the
/// type joined by bitwise OR with any type the phrase already has.  Must be
/// called before processing begins.
pub fn add_word(censor: &mut Censor, word: &str, typ: Type)
    requires
        censor_wf(old(censor)),
        !old(censor).started,
    ensures
        censor_wf(final(censor)),
        !final(censor).started,
        final(censor).st() == old(censor).st(),
        final(censor).text@ == old(censor).text@,
        final(censor).banned@ == old(censor).banned@,
        final(censor).cfg() == (CfgV { trie: final(censor).cfg().trie, ..old(censor).cfg() }),
        spec_lookup(final(censor).trie.nodes@, 0, lower_seq(word@)) is Some,
        ({
            let k = spec_lookup(final(censor).trie.nodes@, 0, lower_seq(word@)).unwrap();
            &&& final(censor).trie.nodes@[k].word
            &&& final(censor).trie.nodes@[k].typ.bits == (match spec_lookup(
                old(censor).trie.nodes@,
                0,
                lower_seq(word@),
            ) {
                Some(j) => old(censor).trie.nodes@[j].typ.bits | typ.bits,
                None => typ.bits,
            })
        }),
        forall|s: Seq<char>, n: int|
            0 <= n < old(censor).trie.nodes@.len() && #[trigger] spec_lookup(
                old(censor).trie.nodes@,
                n,
                s,
            ) is Some ==> spec_lookup(final(censor).trie.nodes@, n, s) == spec_lookup(
                old(censor).trie.nodes@,
                n,
                s,
            ),
{
    let w = chars_of(word);
    censor.trie.add(&w, typ);
    proof {
        assert(0u32 & 0b0_111_000_000_000_000_000u32 == 0) by (bit_vector);
        assert(0u32 & 0b1_000_000_000_000_000_000u32 == 0) by (bit_vector);
        assert(censor_wf(censor));
    }
}

/// Adds a banned character, dropped entirely from the canonical stream.
/// Must be called before processing begins.
pub fn ban_character(censor: &mut Censor, c: char)
    requires
        censor_wf(old(censor)),
        !old(censor).started,
    ensures
        censor_wf(final(censor)),
        !final(censor).started,
        final(censor).banned@ == old(censor).banned@.push(c),
        final(censor).st() == old(censor).st(),
        final(censor).cfg() == old(censor).cfg(),
        final(censor).text@ == old(censor).text@,
{
    censor.banned.push(c);
}

/// Adds a homoglyph or leet substitution: during matching, the source
/// character expands to the given characters.  Must be called before
/// processing begins.
pub fn add_replacement(censor: &mut Censor, c: char, to: &str)
    requires
        censor_wf(old(censor)),
        !old(censor).started,
    ensures
        censor_wf(final(censor)),
        !final(censor).started,
        final(censor).replacements@.len() == old(censor).replacements@.len() + 1,
        final(censor).replacements@[old(censor).replacements@.len() as int].0 == c,
        final(censor).replacements@[old(censor).replacements@.len() as int].1@ == to@,
        forall|i: int|
            0 <= i < old(censor).replacements@.len() ==> final(censor).replacements@[i] == old(
                censor,
            ).replacements@[i],
        final(censor).st() == old(censor).st(),
        final(censor).text@ == old(censor).text@,
        final(censor).banned@ == old(censor).banned@,
{
    let expansion = chars_of(to);
    censor.replacements.push((c, expansion));
}

/// Inline censoring and analysis of a string, under the default options
/// with an empty phrase trie.
pub trait CensorStr: Sized {
    /// The characters of the text.
    spec fn text_view(self) -> Seq<char>;

    /// The censored form of the text.
    fn censor(self) -> (r: String)
        ensures
            r@ == spec_default_censored(self.text_view()),
    ;

    /// Whether the text's analysis meets the given threshold.
    fn is(self, threshold: Type) -> (r: bool)
        ensures
            r == (spec_default_analysis(self.text_view()) & threshold.bits != 0),
    ;

    /// Whether the text's analysis does not meet the given threshold.
    fn isnt(self, threshold: Type) -> (r: bool)
        ensures
            r == (spec_default_analysis(self.text_view()) & threshold.bits == 0),
    ;

    /// Whether the text is inappropriate.
    fn is_inappropriate(self) -> (r: bool)
        ensures
            r == (spec_default_analysis(self.text_view()) & INAPPROPRIATE_BITS != 0),
    ;
}

impl CensorStr for &str {
    open spec fn text_view(self) -> Seq<char> {
        self@
    }

    fn censor(self) -> (r: String) {
        let mut c = Censor::from_str(self);
        proof {
            assert(c.banned@ =~= Seq::<char>::empty());
            assert(spec_ready(&c) =~= spec_fresh(self@));
        }
        c.censor()
    }

    fn is(self, threshold: Type) -> (r: bool) {
        let mut c = Censor::from_str(self);
        proof {
            assert(c.banned@ =~= Seq::<char>::empty());
            assert(spec_ready(&c) =~= spec_fresh(self@));
        }
        c.analyze().is(threshold)
    }

    fn isnt(self, threshold: Type) -> (r: bool) {
        let r = self.is(threshold);
        !r
    }

    fn is_inappropriate(self) -> (r: bool) {
        self.is(Type::inappropriate())
    }
}

/// Inline censoring of a character sequence, under the default options
/// with an empty phrase trie.
pub trait CensorIter {
    /// The characters of the text.
    spec fn text_view(&self) -> Seq<char>;

    /// The censored characters.
    fn censor(self) -> (r: Vec<char>)
        ensures
            r@ == spec_default_censored(self.text_view()),
    ;
}

impl CensorIter for Vec<char> {
    open spec fn text_view(&self) -> Seq<char> {
        self@
    }

    fn censor(self) -> (r: Vec<char>) {
        let ghost text = self@;
        let mut c = Censor::new(self);
        proof {
            assert(c.banned@ =~= Seq::<char>::empty());
            assert(spec_ready(&c) =~= spec_fresh(text));
        }
        let s = c.censor();
        chars_of(s.as_str())
    }
}

} // verus!
