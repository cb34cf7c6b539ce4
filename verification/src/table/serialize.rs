//! The binary format of a transition table: little-endian `u32` words.
//!
//! Layout: state count, class count, the transitions, the number of accept
//! entries, each entry as (state, pattern id), the number of pattern lengths,
//! and the lengths.

use vstd::prelude::*;
use vstd::bytes::{spec_u32_from_le_bytes, spec_u32_to_le_bytes, u32_from_le_bytes, u32_to_le_bytes};
use crate::error::{invalid_table, Error};
use super::{TableModel, TransitionTable, STATE_MASK, ZERO_CLASSES};

verus! {

// ---------------------------------------------------------------------------
// Encoding.
// ---------------------------------------------------------------------------

/// The little-endian bytes of `x`.
pub open spec fn le32(x: u32) -> Seq<u8> {
    spec_u32_to_le_bytes(x)
}

/// The words of `s`, each as four little-endian bytes.
pub open spec fn enc_words(s: Seq<u32>) -> Seq<u8>
    decreases s.len(),
{
    if s.len() == 0 {
        Seq::empty()
    } else {
        enc_words(s.drop_last()) + le32(s.last())
    }
}

/// The pairs of `s`, each as its two words.
pub open spec fn enc_pairs(s: Seq<(u32, u32)>) -> Seq<u8>
    decreases s.len(),
{
    if s.len() == 0 {
        Seq::empty()
    } else {
        enc_pairs(s.drop_last()) + le32(s.last().0) + le32(s.last().1)
    }
}

/// The bytes that `to_bytes` produces for a table. Counts are written as
/// `u32`, truncated when they do not fit.
pub open spec fn encode(m: TableModel) -> Seq<u8> {
    le32(m.state_count as u32) + le32(m.class_count as u32) + enc_words(m.transitions) + le32(
        m.accept_states.len() as u32,
    ) + enc_pairs(m.accept_states) + le32(m.pattern_lengths.len() as u32) + enc_words(
        m.pattern_lengths,
    )
}

// ---------------------------------------------------------------------------
// Decoding.
// ---------------------------------------------------------------------------

/// The word stored at byte offset `off`.
pub open spec fn word_at(data: Seq<u8>, off: int) -> u32 {
    spec_u32_from_le_bytes(data.subrange(off, off + 4))
}

/// `count` words starting at byte offset `off`.
pub open spec fn words_at(data: Seq<u8>, off: int, count: nat) -> Seq<u32> {
    Seq::new(count, |i: int| word_at(data, off + 4 * i))
}

/// `count` pairs of words starting at byte offset `off`.
pub open spec fn pairs_at(data: Seq<u8>, off: int, count: nat) -> Seq<(u32, u32)> {
    Seq::new(count, |i: int| (word_at(data, off + 8 * i), word_at(data, off + 8 * i + 4)))
}

/// The parts that `from_bytes` reads out of `data`, or `None` when the data
/// is too short for the sizes its header and counts announce.
pub open spec fn decode(data: Seq<u8>) -> Option<TableModel> {
    if data.len() < 8 {
        None
    } else {
        let n = word_at(data, 0);
        let c = word_at(data, 4);
        let tl = n * c;
        let te = 8 + 4 * tl;
        if data.len() < te + 4 {
            None
        } else {
            let ac = word_at(data, te);
            let ae = te + 4 + 8 * ac;
            if data.len() < ae + 4 {
                None
            } else {
                let pc = word_at(data, ae);
                let pe = ae + 4 + 4 * pc;
                if data.len() < pe {
                    None
                } else {
                    Some(
                        TableModel {
                            state_count: n as usize,
                            class_count: c as usize,
                            transitions: words_at(data, 8, tl as nat),
                            accept_states: pairs_at(data, te + 4, ac as nat),
                            pattern_lengths: words_at(data, ae + 4, pc as nat),
                        },
                    )
                }
            }
        }
    }
}

/// The explanation `from_bytes` or `from_parts` gives when the data is shorter than the header.
pub const SHORT_HEADER: &'static str = "data too short for header. Fix: provide at least 8 bytes for state_count and class_count.";

/// The explanation `from_bytes` or `from_parts` gives when the state count times the class count does not fit a `usize`.
pub const PRODUCT_OVERFLOW: &'static str = "state_count * class_count overflow. Fix: reduce state_count or class_count to fit in usize.";

/// The explanation `from_bytes` or `from_parts` gives when the transition array's byte length does not fit a `usize`.
pub const TRANSITION_BYTES_OVERFLOW: &'static str = "transition table byte length overflow. Fix: reduce state_count or class_count.";

/// The explanation `from_bytes` or `from_parts` gives when the transition array's end offset does not fit a `usize`.
pub const TRANSITION_END_OVERFLOW: &'static str = "transition table end offset overflow. Fix: reduce state_count or class_count.";

/// The explanation `from_bytes` or `from_parts` gives when the data ends inside the transition array or the accept count.
pub const TRUNCATED_TRANSITIONS: &'static str = "truncated transition table. Fix: provide the full transition array.";

/// The explanation `from_bytes` or `from_parts` gives when the accept entries' byte length does not fit a `usize`.
pub const ACCEPT_BYTES_OVERFLOW: &'static str = "accept states byte length overflow. Fix: reduce the number of accept states.";

/// The explanation `from_bytes` or `from_parts` gives when the accept entries' end offset does not fit a `usize`.
pub const ACCEPT_END_OVERFLOW: &'static str = "accept states end offset overflow. Fix: reduce the number of accept states.";

/// The explanation `from_bytes` or `from_parts` gives when the data ends inside the accept entries.
pub const TRUNCATED_ACCEPTS: &'static str = "truncated accept states. Fix: provide the full accept_states block.";

/// The explanation `from_bytes` or `from_parts` gives when the data ends before the pattern-length count.
pub const TRUNCATED_LENGTHS_HEADER: &'static str = "truncated pattern lengths header. Fix: provide the full pattern_lengths block.";

/// The explanation `from_bytes` or `from_parts` gives when the pattern lengths' byte length does not fit a `usize`.
pub const LENGTHS_BYTES_OVERFLOW: &'static str = "pattern lengths byte length overflow. Fix: reduce the number of pattern lengths.";

/// The explanation `from_bytes` or `from_parts` gives when the pattern lengths' end offset does not fit a `usize`.
pub const LENGTHS_END_OVERFLOW: &'static str = "pattern lengths end offset overflow. Fix: reduce the number of pattern lengths.";

/// The explanation `from_bytes` or `from_parts` gives when the data ends inside the pattern lengths.
pub const TRUNCATED_LENGTHS: &'static str = "truncated pattern lengths. Fix: provide the full pattern_lengths block.";

/// The explanation `from_bytes` gives for data that does not decode: that of
/// the first size check it fails.
pub open spec fn decode_failure(data: Seq<u8>) -> Seq<char> {
    let len = data.len();
    let tl = word_at(data, 0) * word_at(data, 4);
    let te = 8 + 4 * tl;
    let ac = word_at(data, te);
    let ae = te + 4 + 8 * ac;
    let pc = word_at(data, ae);
    let pe = ae + 4 + 4 * pc;
    if len < 8 {
        SHORT_HEADER@
    } else if tl > usize::MAX {
        PRODUCT_OVERFLOW@
    } else if 4 * tl > usize::MAX {
        TRANSITION_BYTES_OVERFLOW@
    } else if te > usize::MAX {
        TRANSITION_END_OVERFLOW@
    } else if len < te + 4 {
        TRUNCATED_TRANSITIONS@
    } else if 8 * ac > usize::MAX {
        ACCEPT_BYTES_OVERFLOW@
    } else if ae > usize::MAX {
        ACCEPT_END_OVERFLOW@
    } else if len < ae {
        TRUNCATED_ACCEPTS@
    } else if len < ae + 4 {
        TRUNCATED_LENGTHS_HEADER@
    } else if 4 * pc > usize::MAX {
        LENGTHS_BYTES_OVERFLOW@
    } else if pe > usize::MAX {
        LENGTHS_END_OVERFLOW@
    } else {
        TRUNCATED_LENGTHS@
    }
}

/// The conditions `from_parts` checks: at most `MAX_STATES` states, at least
/// one class, one transition per state and class, every target (without its
/// accept flag) a state, and accept entries that name distinct states and
/// patterns with a length.
pub open spec fn parts_valid(m: TableModel) -> bool {
    &&& m.state_count <= 65_536
    &&& m.class_count > 0
    &&& m.transitions.len() == m.state_count * m.class_count
    &&& forall|i: int| 0 <= i < m.transitions.len() ==> (#[trigger] m.transitions[i] & 0x7FFF_FFFFu32) < m.state_count
    &&& forall|i: int| 0 <= i < m.accept_states.len() ==> {
        &&& (#[trigger] m.accept_states[i]).0 < m.state_count
        &&& m.accept_states[i].1 < m.pattern_lengths.len()
    }
    &&& forall|i: int, j: int| 0 <= i < j < m.accept_states.len() ==> #[trigger] m.accept_states[i].0 != #[trigger] m.accept_states[j].0
}

/// What `from_parts` returns for the parts `m`, with the table given by its model.
pub open spec fn parts_outcome(m: TableModel, r: Result<TransitionTable, Error>) -> bool {
    &&& m.state_count > 65_536 ==> (r matches Err(Error::TooManyStates { states, max }) && states
        == m.state_count && max == 65_536)
    &&& m.state_count <= 65_536 && !parts_valid(m) ==> (r matches Err(e) && e is InvalidTable)
    &&& m.state_count <= 65_536 && m.class_count == 0 ==> (r matches Err(Error::InvalidTable { reason })
        && reason@ == ZERO_CLASSES@)
    &&& m.state_count <= 65_536 && m.class_count > 0 && m.state_count * m.class_count > usize::MAX ==> (
    r matches Err(Error::InvalidTable { reason }) && reason@ == PRODUCT_OVERFLOW@)
    &&& parts_valid(m) ==> (r matches Ok(t) && t@ == m)
}

// ---------------------------------------------------------------------------
// Lemmas on the layout.
// ---------------------------------------------------------------------------

proof fn lemma_le32(x: u32)
    ensures
        le32(x).len() == 4,
        spec_u32_from_le_bytes(le32(x)) == x,
{
    vstd::bytes::lemma_auto_spec_u32_to_from_le_bytes();
    assert(spec_u32_to_le_bytes(x).len() == 4);
}

pub proof fn lemma_enc_words(s: Seq<u32>)
    ensures
        enc_words(s).len() == 4 * s.len(),
        forall|i: int| 0 <= i < s.len() ==> #[trigger] enc_words(s).subrange(4 * i, 4 * i + 4) == le32(s[i]),
    decreases s.len(),
{
    if s.len() > 0 {
        let t = s.drop_last();
        lemma_enc_words(t);
        lemma_le32(s.last());
        let e = enc_words(s);
        assert(e == enc_words(t) + le32(s.last()));
        assert forall|i: int| 0 <= i < s.len() implies #[trigger] e.subrange(4 * i, 4 * i + 4) == le32(s[i]) by {
            if i < s.len() - 1 {
                assert(e.subrange(4 * i, 4 * i + 4) =~= enc_words(t).subrange(4 * i, 4 * i + 4));
            } else {
                assert(e.subrange(4 * i, 4 * i + 4) =~= le32(s.last()));
            }
        }
    }
}

proof fn lemma_enc_pairs(s: Seq<(u32, u32)>)
    ensures
        enc_pairs(s).len() == 8 * s.len(),
        forall|i: int| 0 <= i < s.len() ==> #[trigger] enc_pairs(s).subrange(8 * i, 8 * i + 4) == le32(s[i].0),
        forall|i: int| 0 <= i < s.len() ==> #[trigger] enc_pairs(s).subrange(8 * i + 4, 8 * i + 8) == le32(s[i].1),
    decreases s.len(),
{
    if s.len() > 0 {
        let t = s.drop_last();
        lemma_enc_pairs(t);
        lemma_le32(s.last().0);
        lemma_le32(s.last().1);
        let e = enc_pairs(s);
        assert(e == enc_pairs(t) + le32(s.last().0) + le32(s.last().1));
        assert forall|i: int| 0 <= i < s.len() implies #[trigger] e.subrange(8 * i, 8 * i + 4) == le32(s[i].0) by {
            if i < s.len() - 1 {
                assert(e.subrange(8 * i, 8 * i + 4) =~= enc_pairs(t).subrange(8 * i, 8 * i + 4));
            } else {
                assert(e.subrange(8 * i, 8 * i + 4) =~= le32(s.last().0));
            }
        }
        assert forall|i: int| 0 <= i < s.len() implies #[trigger] e.subrange(8 * i + 4, 8 * i + 8) == le32(s[i].1) by {
            if i < s.len() - 1 {
                assert(e.subrange(8 * i + 4, 8 * i + 8) =~= enc_pairs(t).subrange(8 * i + 4, 8 * i + 8));
            } else {
                assert(e.subrange(8 * i + 4, 8 * i + 8) =~= le32(s.last().1));
            }
        }
    }
}

/// The words of `s`, encoded at offset `off` of `data`, decode back to `s`.
proof fn lemma_words_back(data: Seq<u8>, off: int, s: Seq<u32>)
    requires
        0 <= off,
        off + 4 * s.len() <= data.len(),
        data.subrange(off, off + 4 * s.len()) == enc_words(s),
    ensures
        words_at(data, off, s.len()) == s,
{
    lemma_enc_words(s);
    assert forall|i: int| 0 <= i < s.len() implies #[trigger] words_at(data, off, s.len())[i] == s[i] by {
        assert(data.subrange(off + 4 * i, off + 4 * i + 4) =~= enc_words(s).subrange(4 * i, 4 * i + 4));
        lemma_le32(s[i]);
    }
    assert(words_at(data, off, s.len()) =~= s);
}

proof fn lemma_pairs_back(data: Seq<u8>, off: int, s: Seq<(u32, u32)>)
    requires
        0 <= off,
        off + 8 * s.len() <= data.len(),
        data.subrange(off, off + 8 * s.len()) == enc_pairs(s),
    ensures
        pairs_at(data, off, s.len()) == s,
{
    lemma_enc_pairs(s);
    assert forall|i: int| 0 <= i < s.len() implies #[trigger] pairs_at(data, off, s.len())[i] == s[i] by {
        assert(data.subrange(off + 8 * i, off + 8 * i + 4) =~= enc_pairs(s).subrange(8 * i, 8 * i + 4));
        assert(data.subrange(off + 8 * i + 4, off + 8 * i + 8) =~= enc_pairs(s).subrange(8 * i + 4, 8 * i + 8));
        lemma_le32(s[i].0);
        lemma_le32(s[i].1);
    }
    assert(pairs_at(data, off, s.len()) =~= s);
}

proof fn lemma_word_back(data: Seq<u8>, off: int, x: u32)
    requires
        0 <= off,
        off + 4 <= data.len(),
        data.subrange(off, off + 4) == le32(x),
    ensures
        word_at(data, off) == x,
{
    lemma_le32(x);
}

/// A valid table has no more accept entries than states.
proof fn lemma_accepts_bounded(m: TableModel)
    requires
        parts_valid(m),
    ensures
        m.accept_states.len() <= m.state_count,
{
    let s = m.accept_states.map_values(|e: (u32, u32)| e.0 as int);
    assert(s.no_duplicates()) by {
        assert forall|i: int, j: int| 0 <= i < s.len() && 0 <= j < s.len() && i != j implies s[i] != s[j] by {
            if i < j {
                assert(m.accept_states[i].0 != m.accept_states[j].0);
            } else {
                assert(m.accept_states[j].0 != m.accept_states[i].0);
            }
        }
    }
    s.unique_seq_to_set();
    let r = vstd::set_lib::set_int_range(0, m.state_count as int);
    vstd::set_lib::lemma_int_range(0, m.state_count as int);
    assert(s.to_set().subset_of(r)) by {
        assert forall|x: int| s.to_set().contains(x) implies r.contains(x) by {
            let i = choose|i: int| 0 <= i < s.len() && s[i] == x;
            assert(m.accept_states[i].0 < m.state_count);
        }
    }
    vstd::set_lib::lemma_len_subset(s.to_set(), r);
}

/// A word read from `data` and written back gives the same four bytes.
proof fn lemma_word_back_bytes(data: Seq<u8>, off: int)
    requires
        0 <= off,
        off + 4 <= data.len(),
    ensures
        le32(word_at(data, off)) == data.subrange(off, off + 4),
{
    vstd::bytes::lemma_auto_spec_u32_to_from_le_bytes();
    assert(data.subrange(off, off + 4).len() == 4);
}

/// Words read from `data` and written back give the same bytes.
proof fn lemma_words_reencode(data: Seq<u8>, off: int, count: nat)
    requires
        0 <= off,
        off + 4 * count <= data.len(),
    ensures
        enc_words(words_at(data, off, count)) == data.subrange(off, off + 4 * count),
    decreases count,
{
    let w = words_at(data, off, count);
    if count == 0 {
        assert(data.subrange(off, off) =~= Seq::<u8>::empty());
    } else {
        let k = (count - 1) as nat;
        assert(w.drop_last() =~= words_at(data, off, k));
        lemma_words_reencode(data, off, k);
        lemma_word_back_bytes(data, off + 4 * k);
        assert(w.last() == word_at(data, off + 4 * k));
        assert(data.subrange(off, off + 4 * k) + data.subrange(off + 4 * k, off + 4 * count) =~= data.subrange(
            off,
            off + 4 * count,
        ));
    }
}

/// Pairs read from `data` and written back give the same bytes.
proof fn lemma_pairs_reencode(data: Seq<u8>, off: int, count: nat)
    requires
        0 <= off,
        off + 8 * count <= data.len(),
    ensures
        enc_pairs(pairs_at(data, off, count)) == data.subrange(off, off + 8 * count),
    decreases count,
{
    let w = pairs_at(data, off, count);
    if count == 0 {
        assert(data.subrange(off, off) =~= Seq::<u8>::empty());
    } else {
        let k = (count - 1) as nat;
        assert(w.drop_last() =~= pairs_at(data, off, k));
        lemma_pairs_reencode(data, off, k);
        lemma_word_back_bytes(data, off + 8 * k);
        lemma_word_back_bytes(data, off + 8 * k + 4);
        assert(w.last() == (word_at(data, off + 8 * k), word_at(data, off + 8 * k + 4)));
        assert(data.subrange(off, off + 8 * k) + data.subrange(off + 8 * k, off + 8 * k + 4) + data.subrange(
            off + 8 * k + 4,
            off + 8 * count,
        ) =~= data.subrange(off, off + 8 * count));
    }
}

/// Law: bytes that decode to a table and hold nothing past it are exactly
/// the bytes of that table.
pub proof fn lemma_encode_of_decode(data: Seq<u8>)
    requires
        decode(data) is Some,
        data.len() == encode(decode(data).unwrap()).len(),
    ensures
        encode(decode(data).unwrap()) == data,
{
    let m = decode(data).unwrap();
    let n = word_at(data, 0);
    let c = word_at(data, 4);
    let tl = n * c;
    let te = 8 + 4 * tl;
    let ac = word_at(data, te);
    let ae = te + 4 + 8 * ac;
    let pc = word_at(data, ae);
    let pe = ae + 4 + 4 * pc;
    lemma_word_back_bytes(data, 0);
    lemma_word_back_bytes(data, 4);
    lemma_word_back_bytes(data, te);
    lemma_word_back_bytes(data, ae);
    lemma_words_reencode(data, 8, tl as nat);
    lemma_pairs_reencode(data, te + 4, ac as nat);
    lemma_words_reencode(data, ae + 4, pc as nat);
    assert(m.state_count as u32 == n);
    assert(m.class_count as u32 == c);
    assert(m.accept_states.len() as u32 == ac);
    assert(m.pattern_lengths.len() as u32 == pc);
    lemma_enc_words(m.transitions);
    lemma_enc_pairs(m.accept_states);
    lemma_enc_words(m.pattern_lengths);
    vstd::bytes::lemma_auto_spec_u32_to_from_le_bytes();
    assert(data.len() == pe);
    assert(encode(m) =~= data.subrange(0, 4) + data.subrange(4, 8) + data.subrange(8, te) + data.subrange(te, te + 4)
        + data.subrange(te + 4, ae) + data.subrange(ae, ae + 4) + data.subrange(ae + 4, pe));
    assert(data.subrange(0, 4) + data.subrange(4, 8) + data.subrange(8, te) + data.subrange(te, te + 4)
        + data.subrange(te + 4, ae) + data.subrange(ae, ae + 4) + data.subrange(ae + 4, pe) =~= data);
}

/// Law: decoding the bytes of a valid table gives the table back, whenever
/// its class count and its number of pattern lengths fit in a `u32`.
pub proof fn lemma_round_trip(m: TableModel)
    requires
        parts_valid(m),
        m.class_count <= u32::MAX,
        m.pattern_lengths.len() <= u32::MAX,
    ensures
        decode(encode(m)) == Some(m),
{
    lemma_accepts_bounded(m);
    let b = encode(m);
    let n = m.state_count;
    let c = m.class_count;
    let a = m.accept_states;
    let p = m.pattern_lengths;
    lemma_le32(n as u32);
    lemma_le32(c as u32);
    lemma_le32(a.len() as u32);
    lemma_le32(p.len() as u32);
    lemma_enc_words(m.transitions);
    lemma_enc_pairs(a);
    lemma_enc_words(p);
    let tl = m.transitions.len() as int;
    let te: int = 8 + 4 * tl;
    let ae: int = te + 4 + 8 * a.len();
    let pe: int = ae + 4 + 4 * p.len();
    let s0 = le32(n as u32);
    let s1 = le32(c as u32);
    let s2 = enc_words(m.transitions);
    let s3 = le32(a.len() as u32);
    let s4 = enc_pairs(a);
    let s5 = le32(p.len() as u32);
    let s6 = enc_words(p);
    assert(b == s0 + s1 + s2 + s3 + s4 + s5 + s6);
    assert(b.len() == pe);
    assert(b.subrange(0, 4) =~= s0);
    assert(b.subrange(4, 8) =~= s1);
    assert(b.subrange(8, te) =~= s2);
    assert(b.subrange(te, te + 4) =~= s3);
    assert(b.subrange(te + 4, ae) =~= s4);
    assert(b.subrange(ae, ae + 4) =~= s5);
    assert(b.subrange(ae + 4, pe) =~= s6);
    lemma_word_back(b, 0, n as u32);
    lemma_word_back(b, 4, c as u32);
    lemma_word_back(b, te, a.len() as u32);
    lemma_word_back(b, ae, p.len() as u32);
    assert(word_at(b, 0) == n);
    assert(word_at(b, 4) == c);
    assert(word_at(b, 0) * word_at(b, 4) == tl);
    lemma_words_back(b, 8, m.transitions);
    lemma_pairs_back(b, te + 4, a);
    lemma_words_back(b, ae + 4, p);
    assert(decode(b) =~= Some(m));
}

/// Bytes appended after a decodable prefix change nothing that decoding reads.
proof fn lemma_decode_extended(b: Seq<u8>, x: Seq<u8>)
    requires
        decode(b) is Some,
    ensures
        decode(b + x) == decode(b),
{
    let d = b + x;
    assert forall|off: int| 0 <= off && off + 4 <= b.len() implies #[trigger] word_at(d, off) == word_at(b, off) by {
        assert(d.subrange(off, off + 4) =~= b.subrange(off, off + 4));
    }
    let n = word_at(b, 0);
    let c = word_at(b, 4);
    let tl = n * c;
    let te = 8 + 4 * tl;
    assert(word_at(d, 0) == n);
    assert(word_at(d, 4) == c);
    let ac = word_at(b, te);
    assert(word_at(d, te) == ac);
    let ae = te + 4 + 8 * ac;
    let pc = word_at(b, ae);
    assert(word_at(d, ae) == pc);
    assert(words_at(d, 8, tl as nat) =~= words_at(b, 8, tl as nat)) by {
        assert forall|i: int| 0 <= i < tl implies #[trigger] words_at(d, 8, tl as nat)[i] == words_at(b, 8, tl as nat)[i] by {
            assert(8 + 4 * i + 4 <= te);
        }
    }
    assert(pairs_at(d, te + 4, ac as nat) =~= pairs_at(b, te + 4, ac as nat)) by {
        assert forall|i: int| 0 <= i < ac implies #[trigger] pairs_at(d, te + 4, ac as nat)[i] == pairs_at(
            b,
            te + 4,
            ac as nat,
        )[i] by {
            assert(te + 4 + 8 * i + 8 <= ae);
        }
    }
    assert(words_at(d, ae + 4, pc as nat) =~= words_at(b, ae + 4, pc as nat)) by {
        assert forall|i: int| 0 <= i < pc implies #[trigger] words_at(d, ae + 4, pc as nat)[i] == words_at(b, ae + 4, pc as nat)[i] by {
            assert(ae + 4 + 4 * i + 4 <= ae + 4 + 4 * pc);
        }
    }
}

/// Law: decoding reads nothing past the pattern lengths. The bytes of a valid
/// table followed by any other bytes decode to that table, and `from_bytes`
/// returns it (whenever its class count and its number of pattern lengths
/// fit in a `u32`).
pub proof fn lemma_decode_ignores_trailing_bytes(m: TableModel, x: Seq<u8>)
    requires
        parts_valid(m),
        m.class_count <= u32::MAX,
        m.pattern_lengths.len() <= u32::MAX,
    ensures
        decode(encode(m) + x) == Some(m),
        forall|r: Result<TransitionTable, Error>|
            parts_outcome(decode(encode(m) + x).unwrap(), r) ==> (r matches Ok(t) && t@ == m),
{
    lemma_round_trip(m);
    lemma_decode_extended(encode(m), x);
}

// ---------------------------------------------------------------------------
// Messages.
// ---------------------------------------------------------------------------

/// Explains a transition array of the wrong length; the text comes from std's `format!`,
/// and nothing is claimed of it.
#[verifier::external_body]
fn length_mismatch_reason(found: usize, expected: usize) -> String {
    format!(
        "transition table has {} entries but expected {}. Fix: ensure transitions.len() == state_count * class_count.",
        found, expected
    )
}

/// Explains a transition target outside the table; the text comes from std's `format!`,
/// and nothing is claimed of it.
#[verifier::external_body]
fn target_reason(state: u32, state_count: usize) -> String {
    format!(
        "transition target state {} exceeds state count {}. Fix: ensure all transition targets are < state_count.",
        state, state_count
    )
}

/// Explains an accept entry naming a state outside the table; the text comes from std's `format!`,
/// and nothing is claimed of it.
#[verifier::external_body]
fn accept_range_reason(state: u32, state_count: usize) -> String {
    format!(
        "accept state {} exceeds state count {}. Fix: ensure all accept states are < state_count.",
        state, state_count
    )
}

/// Explains a state with two accept entries; the text comes from std's `format!`,
/// and nothing is claimed of it.
#[verifier::external_body]
fn duplicate_accept_reason(state: u32) -> String {
    format!(
        "state {} has multiple accept patterns, which is not supported. Fix: merge patterns or split into separate states.",
        state
    )
}

/// Explains an accept entry whose pattern has no length; the text comes from std's `format!`,
/// and nothing is claimed of it.
#[verifier::external_body]
fn missing_length_reason(pattern_id: u32) -> String {
    format!(
        "pattern ID {} in accept states has no length defined. Fix: call set_pattern_length({}, len) before compiling.",
        pattern_id, pattern_id
    )
}

// ---------------------------------------------------------------------------
// Executable encoding and decoding.
// ---------------------------------------------------------------------------

pub(crate) fn push_word(buf: &mut Vec<u8>, x: u32)
    ensures
        final(buf)@ == old(buf)@ + le32(x),
{
    let mut bytes = u32_to_le_bytes(x);
    buf.append(&mut bytes);
}

fn read_word(data: &[u8], off: usize) -> (r: u32)
    requires
        off + 4 <= data@.len(),
    ensures
        r == word_at(data@, off as int),
{
    let len = data.len();
    assert(off + 4 <= len);
    u32_from_le_bytes(&data[off..off + 4])
}

impl TransitionTable {
    /// Serializes the table to bytes (see the module documentation for the layout).
    pub fn to_bytes(&self) -> (r: Vec<u8>)
        ensures
            r@ == encode(self@),
    {
        let mut buf: Vec<u8> = Vec::new();
        push_word(&mut buf, self.shape.state_count as u32);
        push_word(&mut buf, self.shape.class_count as u32);
        let ghost head = buf@;
        let mut i: usize = 0;
        while i < self.transitions.len()
            invariant
                i <= self.transitions.len(),
                buf@ == head + enc_words(self.transitions@.take(i as int)),
            decreases self.transitions.len() - i,
        {
            push_word(&mut buf, self.transitions[i]);
            proof {
                let t = self.transitions@.take(i + 1);
                assert(t.drop_last() == self.transitions@.take(i as int));
            }
            i += 1;
        }
        assert(self.transitions@.take(self.transitions.len() as int) == self.transitions@);
        push_word(&mut buf, self.accept_states.len() as u32);
        let ghost head = buf@;
        let mut i: usize = 0;
        while i < self.accept_states.len()
            invariant
                i <= self.accept_states.len(),
                buf@ == head + enc_pairs(self.accept_states@.take(i as int)),
            decreases self.accept_states.len() - i,
        {
            let (state, pid) = self.accept_states[i];
            push_word(&mut buf, state);
            push_word(&mut buf, pid);
            proof {
                let t = self.accept_states@.take(i + 1);
                assert(t.drop_last() == self.accept_states@.take(i as int));
            }
            i += 1;
        }
        assert(self.accept_states@.take(self.accept_states.len() as int) == self.accept_states@);
        push_word(&mut buf, self.pattern_lengths.len() as u32);
        let ghost head = buf@;
        let mut i: usize = 0;
        while i < self.pattern_lengths.len()
            invariant
                i <= self.pattern_lengths.len(),
                buf@ == head + enc_words(self.pattern_lengths@.take(i as int)),
            decreases self.pattern_lengths.len() - i,
        {
            push_word(&mut buf, self.pattern_lengths[i]);
            proof {
                let t = self.pattern_lengths@.take(i + 1);
                assert(t.drop_last() == self.pattern_lengths@.take(i as int));
            }
            i += 1;
        }
        assert(self.pattern_lengths@.take(self.pattern_lengths.len() as int) == self.pattern_lengths@);
        buf
    }

    /// Deserializes a transition table from bytes.
    ///
    /// Fails with `InvalidTable` when the data is shorter than its header and
    /// counts announce, and otherwise as `from_parts` does on the decoded parts.
    pub fn from_bytes(data: &[u8]) -> (r: Result<Self, Error>)
        ensures
            decode(data@) is None ==> (r matches Err(Error::InvalidTable { reason }) && reason@ == decode_failure(
                data@,
            )),
            decode(data@) matches Some(parts) ==> parts_outcome(parts, r),
    {
        let len = data.len();
        if len < 8 {
            return Err(invalid_table(SHORT_HEADER));
        }
        let n32 = read_word(data, 0);
        let c32 = read_word(data, 4);
        let state_count = n32 as usize;
        let class_count = c32 as usize;
        let trans_len = match state_count.checked_mul(class_count) {
            Some(x) => x,
            None => {
                return Err(invalid_table(PRODUCT_OVERFLOW));
            },
        };
        let trans_bytes = match trans_len.checked_mul(4) {
            Some(x) => x,
            None => {
                return Err(invalid_table(TRANSITION_BYTES_OVERFLOW));
            },
        };
        let trans_end = match trans_bytes.checked_add(8) {
            Some(x) => x,
            None => {
                return Err(invalid_table(TRANSITION_END_OVERFLOW));
            },
        };
        if trans_end > len || len - trans_end < 4 {
            return Err(invalid_table(TRUNCATED_TRANSITIONS));
        }
        let mut transitions: Vec<u32> = Vec::with_capacity(trans_len);
        let mut i: usize = 0;
        while i < trans_len
            invariant
                len == data@.len(),
                trans_end == 8 + 4 * trans_len,
                trans_end + 4 <= len,
                i <= trans_len,
                transitions@ == words_at(data@, 8, i as nat),
            decreases trans_len - i,
        {
            let off = 8 + i * 4;
            let val = read_word(data, off);
            transitions.push(val);
            assert(transitions@ =~= words_at(data@, 8, (i + 1) as nat));
            i += 1;
        }
        let accept_count = read_word(data, trans_end) as usize;
        let accept_bytes = match accept_count.checked_mul(8) {
            Some(x) => x,
            None => {
                return Err(invalid_table(ACCEPT_BYTES_OVERFLOW));
            },
        };
        let start = trans_end + 4;
        let accept_end = match start.checked_add(accept_bytes) {
            Some(x) => x,
            None => {
                return Err(invalid_table(ACCEPT_END_OVERFLOW));
            },
        };
        if len < accept_end {
            return Err(invalid_table(TRUNCATED_ACCEPTS));
        }
        let mut accept_states: Vec<(u32, u32)> = Vec::with_capacity(accept_count);
        let mut i: usize = 0;
        while i < accept_count
            invariant
                len == data@.len(),
                accept_end == start + 8 * accept_count,
                accept_end <= len,
                i <= accept_count,
                accept_states@ == pairs_at(data@, start as int, i as nat),
            decreases accept_count - i,
        {
            let off = start + i * 8;
            let state = read_word(data, off);
            let pid = read_word(data, off + 4);
            accept_states.push((state, pid));
            assert(accept_states@ =~= pairs_at(data@, start as int, (i + 1) as nat));
            i += 1;
        }
        if len - accept_end < 4 {
            return Err(invalid_table(TRUNCATED_LENGTHS_HEADER));
        }
        let pat_count = read_word(data, accept_end) as usize;
        let pat_bytes = match pat_count.checked_mul(4) {
            Some(x) => x,
            None => {
                return Err(invalid_table(LENGTHS_BYTES_OVERFLOW));
            },
        };
        let pstart = accept_end + 4;
        let pat_end = match pstart.checked_add(pat_bytes) {
            Some(x) => x,
            None => {
                return Err(invalid_table(LENGTHS_END_OVERFLOW));
            },
        };
        if len < pat_end {
            return Err(invalid_table(TRUNCATED_LENGTHS));
        }
        let mut pattern_lengths: Vec<u32> = Vec::with_capacity(pat_count);
        let mut i: usize = 0;
        while i < pat_count
            invariant
                len == data@.len(),
                pat_end == pstart + 4 * pat_count,
                pat_end <= len,
                i <= pat_count,
                pattern_lengths@ == words_at(data@, pstart as int, i as nat),
            decreases pat_count - i,
        {
            let off = pstart + i * 4;
            let l = read_word(data, off);
            pattern_lengths.push(l);
            assert(pattern_lengths@ =~= words_at(data@, pstart as int, (i + 1) as nat));
            i += 1;
        }
        Self::from_parts(state_count, class_count, transitions, accept_states, pattern_lengths)
    }

    /// Constructs a transition table from parts, checking them first.
    ///
    /// Fails with `TooManyStates` when there are more than `MAX_STATES` states,
    /// and with `InvalidTable` when the parts break any other condition of
    /// [`parts_valid`].
    pub fn from_parts(
        state_count: usize,
        class_count: usize,
        transitions: Vec<u32>,
        accept_states: Vec<(u32, u32)>,
        pattern_lengths: Vec<u32>,
    ) -> (r: Result<Self, Error>)
        ensures
            parts_outcome(
                TableModel {
                    state_count,
                    class_count,
                    transitions: transitions@,
                    accept_states: accept_states@,
                    pattern_lengths: pattern_lengths@,
                },
                r,
            ),
    {
        let ghost m = TableModel {
            state_count,
            class_count,
            transitions: transitions@,
            accept_states: accept_states@,
            pattern_lengths: pattern_lengths@,
        };
        let tlen = transitions.len();
        if state_count > Self::MAX_STATES {
            return Err(Error::TooManyStates { states: state_count, max: Self::MAX_STATES });
        }
        if class_count == 0 {
            return Err(invalid_table(ZERO_CLASSES));
        }
        let expected_len = match state_count.checked_mul(class_count) {
            Some(x) => x,
            None => {
                return Err(invalid_table(PRODUCT_OVERFLOW));
            },
        };
        if transitions.len() != expected_len {
            return Err(Error::InvalidTable { reason: length_mismatch_reason(transitions.len(), expected_len) });
        }
        let mut i: usize = 0;
        while i < transitions.len()
            invariant
                m == (TableModel {
                    state_count,
                    class_count,
                    transitions: transitions@,
                    accept_states: accept_states@,
                    pattern_lengths: pattern_lengths@,
                }),
                state_count <= 65_536,
                class_count > 0,
                state_count * class_count <= usize::MAX,
                i <= transitions.len(),
                forall|j: int| 0 <= j < i ==> (#[trigger] transitions@[j] & 0x7FFF_FFFFu32) < state_count,
            decreases transitions.len() - i,
        {
            let target = transitions[i] & STATE_MASK;
            if target as usize >= state_count {
                proof {
                    assert((m.transitions[i as int] & 0x7FFF_FFFFu32) >= state_count);
                }
                return Err(Error::InvalidTable { reason: target_reason(target, state_count) });
            }
            i += 1;
        }
        let pat_len = pattern_lengths.len();
        let mut seen_states: Vec<bool> = vec![false; state_count];
        let mut i: usize = 0;
        while i < accept_states.len()
            invariant
                m == (TableModel {
                    state_count,
                    class_count,
                    transitions: transitions@,
                    accept_states: accept_states@,
                    pattern_lengths: pattern_lengths@,
                }),
                state_count <= 65_536,
                class_count > 0,
                state_count * class_count <= usize::MAX,
                pat_len == pattern_lengths@.len(),
                seen_states@.len() == state_count,
                i <= accept_states.len(),
                forall|j: int| 0 <= j < i ==> {
                    &&& (#[trigger] accept_states@[j]).0 < state_count
                    &&& accept_states@[j].1 < pat_len
                },
                forall|j: int, k: int| 0 <= j < k < i ==> #[trigger] accept_states@[j].0 != #[trigger] accept_states@[k].0,
                forall|x: int| 0 <= x < state_count ==> #[trigger] seen_states@[x] == exists|j: int|
                    0 <= j < i && accept_states@[j].0 == x,
            decreases accept_states.len() - i,
        {
            let (state, pid) = accept_states[i];
            if state as usize >= state_count {
                proof {
                    assert(m.accept_states[i as int].0 >= state_count);
                }
                return Err(Error::InvalidTable { reason: accept_range_reason(state, state_count) });
            }
            if seen_states[state as usize] {
                proof {
                    let j = choose|j: int| 0 <= j < i && accept_states@[j].0 == state as int;
                    assert(m.accept_states[j].0 == m.accept_states[i as int].0);
                    if parts_valid(m) {
                        assert(m.accept_states[j].0 != m.accept_states[i as int].0);
                    }
                }
                return Err(Error::InvalidTable { reason: duplicate_accept_reason(state) });
            }
            seen_states.set(state as usize, true);
            if pid as usize >= pat_len {
                proof {
                    assert(m.accept_states[i as int].1 >= m.pattern_lengths.len());
                }
                return Err(Error::InvalidTable { reason: missing_length_reason(pid) });
            }
            proof {
                assert forall|x: int| 0 <= x < state_count implies #[trigger] seen_states@[x] == exists|j: int|
                    0 <= j < i + 1 && accept_states@[j].0 == x by {
                    if x == state as int {
                        assert(accept_states@[i as int].0 == x);
                    } else {
                        if exists|j: int| 0 <= j < i + 1 && accept_states@[j].0 == x {
                            let j = choose|j: int| 0 <= j < i + 1 && accept_states@[j].0 == x;
                            assert(j != i);
                        }
                    }
                }
            }
            i += 1;
        }
        Ok(Self::assemble(state_count, class_count, transitions, accept_states, pattern_lengths))
    }
}

} // verus!
