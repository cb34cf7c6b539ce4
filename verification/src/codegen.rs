//! The native x86_64 code image of a transition table.
//!
//! The image is a fixed scan loop followed by four data arrays: the
//! transitions with their accept flag, the pattern of each state, the pattern
//! lengths and the output links. The loop reaches the arrays through four
//! 64-bit immediates that the loader fills in with their addresses once the
//! image sits in executable memory.

use vstd::prelude::*;
use crate::error::Error;
use crate::scan::{accept_of, compile_interpreted_fallback, pad_links, scanner_of, ExecutableBuffer, NO_MATCH};
use crate::table::serialize::{enc_words, le32, push_word};
use crate::table::{TableModel, TransitionTable, STATE_MASK};

verus! {

/// Most states the native scanner handles; larger tables are interpreted.
pub const MAX_JIT_STATES: usize = 4096;

/// Offset of the first data array: the loop, padded to 8 bytes.
pub const DATA_START: usize = 232;

/// Offsets of the immediates that receive the addresses of the transition,
/// accept-pattern, pattern-length and output-link arrays.
pub const TRANS_IMM: usize = 42;
pub const ACCEPT_IMM: usize = 104;
pub const PATLEN_IMM: usize = 132;
pub const OUTPUT_IMM: usize = 166;

/// A transition with its accept flag: bit 31 is set when the target (the
/// entry without the flag) is an accepting state.
pub open spec fn flag_word(t: u32, ap: Seq<u32>) -> u32 {
    let target = t & 0x7FFF_FFFFu32;
    if (target as int) < ap.len() && ap[target as int] != NO_MATCH {
        target | 0x8000_0000u32
    } else {
        target
    }
}

/// The pattern lengths as the native loop reads them: one zero entry when
/// there are none.
pub open spec fn native_lengths(p: Seq<u32>) -> Seq<u32> {
    if p.len() == 0 {
        seq![0u32]
    } else {
        p
    }
}

/// The displacement written for a jump from the 4 bytes at `site` to
/// `target`, as a 32-bit two's-complement word; 0 when it does not fit.
pub open spec fn rel_word(rel: int) -> u32 {
    if 0 <= rel <= 0x7FFF_FFFF {
        rel as u32
    } else if -0x8000_0000 <= rel < 0 {
        (rel + 0x1_0000_0000) as u32
    } else {
        0u32
    }
}

// The instruction bytes of the scan loop, between the patched displacements.

pub open spec fn stub_a() -> Seq<u8> {
    seq![
        0x53u8, 0x55, 0x41, 0x54, 0x41, 0x55, 0x41, 0x56, 0x41, 0x57,
        0x49, 0x89, 0xFC, 0x48, 0x89, 0xF5, 0x49, 0x89, 0xD6, 0x48, 0x89, 0xCB,
        0x45, 0x31, 0xED, 0x45, 0x31, 0xFF, 0x45, 0x31, 0xDB,
        0x49, 0x39, 0xED, 0x0F, 0x83,
    ]
}

pub open spec fn stub_b(class_count: u32) -> Seq<u8> {
    seq![0x49u8, 0xBA, 0, 0, 0, 0, 0, 0, 0, 0, 0x43, 0x0F, 0xB6, 0x04, 0x2C, 0x41, 0x69, 0xD3]
        + le32(class_count) + seq![0x01u8, 0xC2, 0x41, 0x8B, 0x04, 0x92, 0x89, 0xC1, 0x25]
        + le32(0x7FFF_FFFFu32) + seq![0x41u8, 0x89, 0xC3, 0xF7, 0xC1] + le32(0x8000_0000u32)
        + seq![0x0Fu8, 0x84]
}

pub open spec fn stub_c() -> Seq<u8> {
    seq![0x45u8, 0x89, 0xD8, 0x49, 0x39, 0xDF, 0x0F, 0x83]
}

pub open spec fn stub_d() -> Seq<u8> {
    seq![
        0x48u8, 0xBF, 0, 0, 0, 0, 0, 0, 0, 0,
        0x42, 0x8B, 0x04, 0x87, 0x4C, 0x89, 0xFF, 0x48, 0x6B, 0xFF, 0x0C, 0x4C, 0x01, 0xF7, 0x89,
        0x07, 0x89, 0xC1,
        0x48, 0xBA, 0, 0, 0, 0, 0, 0, 0, 0,
        0x8B, 0x0C, 0x8A, 0x44, 0x89, 0xEA, 0x83, 0xC2, 0x01, 0x89, 0x57, 0x08, 0x29, 0xCA, 0x73,
        0x02, 0x31, 0xD2, 0x89, 0x57, 0x04,
        0x49, 0xFF, 0xC7,
        0x48, 0xBF, 0, 0, 0, 0, 0, 0, 0, 0,
        0x46, 0x8B, 0x04, 0x87, 0x41, 0x81, 0xF8,
    ] + le32(0xFFFF_FFFFu32) + seq![0x0Fu8, 0x85]
}

pub open spec fn stub_e() -> Seq<u8> {
    seq![0x45u8, 0x31, 0xDB, 0x49, 0xFF, 0xC5, 0x43, 0x0F, 0x18, 0x44, 0x2C, 0x40, 0x49, 0x39, 0xED, 0x0F, 0x82]
}

pub open spec fn stub_f() -> Seq<u8> {
    seq![0x4Cu8, 0x89, 0xF8, 0x41, 0x5F, 0x41, 0x5E, 0x41, 0x5D, 0x41, 0x5C, 0x5D, 0x5B, 0xC3]
}

/// The scan loop for `class_count` classes, with its jumps resolved: past
/// the loop on empty input (36 -> 212), past the match block (86 -> 194),
/// past the match write (98 -> 161), back to the output-chain loop
/// (187 -> 93) and back to the top of the scan loop (208 -> 50).
pub open spec fn native_stub(class_count: u32) -> Seq<u8> {
    stub_a() + le32(rel_word(212 - 40)) + stub_b(class_count) + le32(rel_word(194 - 90)) + stub_c()
        + le32(rel_word(161 - 102)) + stub_d() + le32(rel_word(93 - 191)) + stub_e() + le32(
        rel_word(50 - 212),
    ) + stub_f()
}

/// The data arrays of the image of table `m` with output links `links`.
pub open spec fn native_data(m: TableModel, links: Seq<u32>) -> Seq<u8> {
    enc_words(m.transitions.map_values(|t: u32| flag_word(t, accept_of(m)))) + enc_words(accept_of(m))
        + enc_words(native_lengths(m.pattern_lengths)) + enc_words(pad_links(links, m.state_count as int))
}

/// The native code image of a table, with the offsets of its data arrays.
pub struct NativeImage {
    pub code: Vec<u8>,
    pub trans_offset: usize,
    pub accept_offset: usize,
    pub patlen_offset: usize,
    pub output_offset: usize,
}

/// What compiling a table yields: a native image, or the interpreted
/// scanner for tables with more than `MAX_JIT_STATES` states.
pub enum Compiled {
    Native(NativeImage),
    Interpreted(ExecutableBuffer),
}

/// Writes the displacement from `site + 4` to `target` into the 4 bytes at `site`.
pub fn patch_rel32(code: &mut [u8], site: usize, target: usize)
    requires
        site + 4 <= old(code)@.len(),
    ensures
        final(code)@ == old(code)@.subrange(0, site as int) + le32(rel_word(target - (site + 4)))
            + old(code)@.subrange(site + 4, old(code)@.len() as int),
{
    let end = site + 4;
    let word: u32 = if target >= end {
        let d = target - end;
        if d <= 0x7FFF_FFFF {
            d as u32
        } else {
            0
        }
    } else {
        let d = end - target;
        if d <= 0x8000_0000 {
            (0x1_0000_0000u64 - d as u64) as u32
        } else {
            0
        }
    };
    let bytes = vstd::bytes::u32_to_le_bytes(word);
    code[site] = bytes[0];
    code[site + 1] = bytes[1];
    code[site + 2] = bytes[2];
    code[site + 3] = bytes[3];
    assert(final(code)@ =~= old(code)@.subrange(0, site as int) + le32(rel_word(target - (site + 4)))
        + old(code)@.subrange(site + 4, old(code)@.len() as int));
}

fn emit(c: &mut Vec<u8>, s: &[u8])
    ensures
        final(c)@ == old(c)@ + s@,
{
    let mut i: usize = 0;
    let ghost start = c@;
    while i < s.len()
        invariant
            i <= s@.len(),
            c@ == start + s@.take(i as int),
        decreases s@.len() - i,
    {
        c.push(s[i]);
        i += 1;
        assert(c@ =~= start + s@.take(i as int));
    }
    assert(s@.take(s@.len() as int) == s@);
}

fn emit_word(c: &mut Vec<u8>, x: u32)
    ensures
        final(c)@ == old(c)@ + le32(x),
{
    push_word(c, x);
}

/// The scan loop for `class_count` classes.
fn native_loop(class_count: u32) -> (c: Vec<u8>)
    ensures
        c@ == native_stub(class_count),
{
    let ghost z: Seq<u8> = seq![0u8, 0, 0, 0];
    let ghost w1 = le32(rel_word(212 - 40));
    let ghost w2 = le32(rel_word(194 - 90));
    let ghost w3 = le32(rel_word(161 - 102));
    let ghost w4 = le32(rel_word(93 - 191));
    let ghost w5 = le32(rel_word(50 - 212));
    let ghost sa = stub_a();
    let ghost sb = stub_b(class_count);
    let ghost sc = stub_c();
    let ghost sd = stub_d();
    let ghost se = stub_e();
    proof {
        vstd::bytes::lemma_auto_spec_u32_to_from_le_bytes();
        assert(le32(class_count).len() == 4);
        assert(le32(0x7FFF_FFFFu32).len() == 4);
        assert(le32(0x8000_0000u32).len() == 4);
        assert(le32(0xFFFF_FFFFu32).len() == 4);
        assert(w1.len() == 4 && w2.len() == 4 && w3.len() == 4 && w4.len() == 4 && w5.len() == 4);
    }
    let mut c: Vec<u8> = Vec::with_capacity(4096);
    emit(&mut c, &[0x53, 0x55, 0x41, 0x54, 0x41, 0x55, 0x41, 0x56, 0x41, 0x57]);
    emit(&mut c, &[0x49, 0x89, 0xFC, 0x48, 0x89, 0xF5, 0x49, 0x89, 0xD6, 0x48, 0x89, 0xCB]);
    emit(&mut c, &[0x45, 0x31, 0xED, 0x45, 0x31, 0xFF, 0x45, 0x31, 0xDB]);
    emit(&mut c, &[0x49, 0x39, 0xED, 0x0F, 0x83]);
    assert(c@ =~= sa);
    let empty_patch = c.len();
    emit(&mut c, &[0, 0, 0, 0]);
    // Load the transition table base once into r10 before the scan loop.
    emit(&mut c, &[0x49, 0xBA]);
    emit(&mut c, &[0, 0, 0, 0, 0, 0, 0, 0]);
    let scan_top = c.len();
    emit(&mut c, &[0x43, 0x0F, 0xB6, 0x04, 0x2C]);
    emit(&mut c, &[0x41, 0x69, 0xD3]);
    emit_word(&mut c, class_count);
    emit(&mut c, &[0x01, 0xC2]);
    // Transition lookup through r10; rdx holds the entry index.
    emit(&mut c, &[0x41, 0x8B, 0x04, 0x92, 0x89, 0xC1, 0x25]);
    emit_word(&mut c, 0x7FFF_FFFF);
    emit(&mut c, &[0x41, 0x89, 0xC3, 0xF7, 0xC1]);
    emit_word(&mut c, 0x8000_0000);
    emit(&mut c, &[0x0F, 0x84]);
    assert(c@ =~= sa + z + sb);
    let skip_match_patch = c.len();
    emit(&mut c, &[0, 0, 0, 0]);
    emit(&mut c, &[0x45, 0x89, 0xD8]);
    let accept_loop = c.len();
    emit(&mut c, &[0x49, 0x39, 0xDF, 0x0F, 0x83]);
    assert(c@ =~= sa + z + sb + z + sc);
    let skip_write_match_patch = c.len();
    emit(&mut c, &[0, 0, 0, 0]);
    let ghost before_d = c@;
    emit(&mut c, &[0x48, 0xBF]);
    emit(&mut c, &[0, 0, 0, 0, 0, 0, 0, 0]);
    emit(
        &mut c,
        &[
            0x42, 0x8B, 0x04, 0x87, 0x4C, 0x89, 0xFF, 0x48, 0x6B, 0xFF, 0x0C, 0x4C, 0x01, 0xF7, 0x89,
            0x07, 0x89, 0xC1,
        ],
    );
    emit(&mut c, &[0x48, 0xBA]);
    emit(&mut c, &[0, 0, 0, 0, 0, 0, 0, 0]);
    emit(
        &mut c,
        &[
            0x8B, 0x0C, 0x8A, 0x44, 0x89, 0xEA, 0x83, 0xC2, 0x01, 0x89, 0x57, 0x08, 0x29, 0xCA, 0x73,
            0x02, 0x31, 0xD2, 0x89, 0x57, 0x04,
        ],
    );
    let ghost d1 = c@.subrange(102, 161);
    assert(c@ =~= sa + z + sb + z + sc + z + d1);
    let skip_write_match_target = c.len();
    patch_rel32(c.as_mut_slice(), skip_write_match_patch, skip_write_match_target);
    assert(c@ =~= sa + z + sb + z + sc + w3 + d1);
    emit(&mut c, &[0x49, 0xFF, 0xC7]);
    emit(&mut c, &[0x48, 0xBF]);
    emit(&mut c, &[0, 0, 0, 0, 0, 0, 0, 0]);
    emit(&mut c, &[0x46, 0x8B, 0x04, 0x87, 0x41, 0x81, 0xF8]);
    emit_word(&mut c, 0xFFFF_FFFF);
    emit(&mut c, &[0x0F, 0x85]);
    assert(c@ =~= sa + z + sb + z + sc + w3 + sd);
    let accept_loop_patch = c.len();
    emit(&mut c, &[0, 0, 0, 0]);
    patch_rel32(c.as_mut_slice(), accept_loop_patch, accept_loop);
    assert(c@ =~= sa + z + sb + z + sc + w3 + sd + w4);
    emit(&mut c, &[0x45, 0x31, 0xDB]);
    let ghost e1: Seq<u8> = seq![0x45u8, 0x31, 0xDB];
    assert(c@ =~= sa + z + sb + z + sc + w3 + sd + w4 + e1);
    let skip_match_target = c.len();
    patch_rel32(c.as_mut_slice(), skip_match_patch, skip_match_target);
    assert(c@ =~= sa + z + sb + w2 + sc + w3 + sd + w4 + e1);
    emit(&mut c, &[0x49, 0xFF, 0xC5, 0x43, 0x0F, 0x18, 0x44, 0x2C, 0x40, 0x49, 0x39, 0xED, 0x0F, 0x82]);
    assert(c@ =~= sa + z + sb + w2 + sc + w3 + sd + w4 + se);
    let loop_patch = c.len();
    emit(&mut c, &[0, 0, 0, 0]);
    patch_rel32(c.as_mut_slice(), loop_patch, scan_top);
    assert(c@ =~= sa + z + sb + w2 + sc + w3 + sd + w4 + se + w5);
    let epilogue = c.len();
    patch_rel32(c.as_mut_slice(), empty_patch, epilogue);
    assert(c@ =~= sa + w1 + sb + w2 + sc + w3 + sd + w4 + se + w5);
    emit(&mut c, &[0x4C, 0x89, 0xF8, 0x41, 0x5F, 0x41, 0x5E, 0x41, 0x5D, 0x41, 0x5C, 0x5D, 0x5B, 0xC3]);
    assert(c@ =~= native_stub(class_count));
    c
}

fn emit_words(c: &mut Vec<u8>, words: &[u32])
    ensures
        final(c)@ == old(c)@ + enc_words(words@),
{
    let ghost start = c@;
    let mut i: usize = 0;
    while i < words.len()
        invariant
            i <= words@.len(),
            c@ == start + enc_words(words@.take(i as int)),
        decreases words@.len() - i,
    {
        push_word(c, words[i]);
        proof {
            let t = words@.take(i + 1);
            assert(t.drop_last() == words@.take(i as int));
        }
        i += 1;
    }
    assert(words@.take(words@.len() as int) == words@);
}

/// Compiles a transition table to a native x86_64 code image, or to the
/// interpreted scanner when it has more than `MAX_JIT_STATES` states.
///
/// The image is the scan loop for the table's class count, padded with
/// `0xCC` to `DATA_START` bytes, then the flagged transitions, the pattern
/// of each state, the pattern lengths and the output links padded with
/// `NO_MATCH` to one per state, each as little-endian words.
pub fn compile_x86_64(table: &TransitionTable, output_links: &[u32]) -> (r: Result<Compiled, Error>)
    ensures
        table@.state_count > 4096 ==> (r matches Ok(Compiled::Interpreted(b)) && b@ == scanner_of(
            table@,
            output_links@,
        )),
        table@.state_count <= 4096 ==> (r matches Ok(Compiled::Native(img)) && {
            let m = table@;
            let ap = accept_of(m);
            &&& img.code@ == native_stub(m.class_count as u32) + seq![0xCCu8, 0xCC, 0xCC, 0xCC, 0xCC, 0xCC]
                + native_data(m, output_links@)
            &&& img.trans_offset == DATA_START
            &&& img.accept_offset == DATA_START + 4 * m.transitions.len()
            &&& img.patlen_offset == img.accept_offset + 4 * m.state_count
            &&& img.output_offset == img.patlen_offset + 4 * native_lengths(m.pattern_lengths).len()
        }),
{
    let n = table.state_count();
    if n > 65_536 {
        return Err(Error::TooManyStates { states: n, max: 65_536 });
    }
    if n > MAX_JIT_STATES {
        return match compile_interpreted_fallback(table, output_links) {
            Ok(b) => Ok(Compiled::Interpreted(b)),
            Err(e) => Err(e),
        };
    }
    let accept_pattern = crate::scan::accept_pattern_of(table);
    let transitions = table.transitions();
    let mut flagged: Vec<u32> = Vec::with_capacity(transitions.len());
    let mut i: usize = 0;
    while i < transitions.len()
        invariant
            accept_pattern@ == accept_of(table@),
            transitions@ == table@.transitions,
            i <= transitions@.len(),
            flagged@ == transitions@.take(i as int).map_values(|t: u32| flag_word(t, accept_of(table@))),
        decreases transitions@.len() - i,
    {
        let target = transitions[i] & STATE_MASK;
        let word = if (target as usize) < accept_pattern.len() && accept_pattern[target as usize] != NO_MATCH {
            target | 0x8000_0000
        } else {
            target
        };
        flagged.push(word);
        i += 1;
        assert(flagged@ =~= transitions@.take(i as int).map_values(|t: u32| flag_word(t, accept_of(table@))));
    }
    assert(transitions@.take(transitions@.len() as int) == transitions@);
    let links = crate::scan::padded_links(output_links, n);
    let mut c = native_loop(table.class_count() as u32);
    proof {
        vstd::bytes::lemma_auto_spec_u32_to_from_le_bytes();
        let cc = table@.class_count as u32;
        assert(le32(cc).len() == 4);
        assert(le32(0x7FFF_FFFFu32).len() == 4);
        assert(le32(0x8000_0000u32).len() == 4);
        assert(le32(0xFFFF_FFFFu32).len() == 4);
        assert(le32(rel_word(212 - 40)).len() == 4);
        assert(le32(rel_word(194 - 90)).len() == 4);
        assert(le32(rel_word(161 - 102)).len() == 4);
        assert(le32(rel_word(93 - 191)).len() == 4);
        assert(le32(rel_word(50 - 212)).len() == 4);
        assert(native_stub(cc).len() == 226);
        assert(c@ =~= native_stub(cc) + Seq::new(0, |i: int| 0xCCu8));
    }
    while c.len() % 8 != 0
        invariant
            c@.len() <= DATA_START,
            c@ == native_stub(table@.class_count as u32) + Seq::new((c@.len() - 226) as nat, |i: int| 0xCCu8),
            226 <= c@.len(),
        decreases DATA_START - c@.len(),
    {
        c.push(0xCC);
    }
    assert(c@ =~= native_stub(table@.class_count as u32) + seq![0xCCu8, 0xCC, 0xCC, 0xCC, 0xCC, 0xCC]);
    let trans_offset = c.len();
    emit_words(&mut c, flagged.as_slice());
    let accept_offset = c.len();
    emit_words(&mut c, accept_pattern.as_slice());
    let patlen_offset = c.len();
    let lengths = table.pattern_lengths();
    if lengths.len() == 0 {
        emit_word(&mut c, 0);
        proof {
            let one: Seq<u32> = seq![0u32];
            assert(one.drop_last() =~= Seq::<u32>::empty());
            assert(one.last() == 0);
            assert(enc_words(one) =~= enc_words(Seq::<u32>::empty()) + le32(0));
        }
    } else {
        emit_words(&mut c, lengths);
    }
    let output_offset = c.len();
    emit_words(&mut c, links.as_slice());
    proof {
        crate::table::serialize::lemma_enc_words(flagged@);
        crate::table::serialize::lemma_enc_words(accept_pattern@);
        crate::table::serialize::lemma_enc_words(native_lengths(table@.pattern_lengths));
    }
    Ok(Compiled::Native(NativeImage { code: c, trans_offset, accept_offset, patlen_offset, output_offset }))
}

// ---------------------------------------------------------------------------
// Reading the scan loop back.
// ---------------------------------------------------------------------------

/// The x86-64 instructions that the checks below read back from an image.
pub enum Instruction {
    /// `xor r32, r32` of a register with itself: the register becomes 0.
    ClearRegister { reg: int },
    /// `jne rel32`: jumps to `target` when the last comparison found a
    /// difference, and otherwise goes on with the next instruction.
    JumpIfNotEqual { target: int },
    /// Any other encoding.
    Other,
}

/// The 32-bit word at `off` as a two's-complement displacement.
pub open spec fn signed_word(code: Seq<u8>, off: int) -> int {
    let w = crate::table::serialize::word_at(code, off) as int;
    if w < 0x8000_0000 {
        w
    } else {
        w - 0x1_0000_0000
    }
}

/// Decodes the instruction at `off` of `code`, for the two encodings above:
/// a REX prefix, opcode `0x31` and a register-to-register ModRM byte
/// (`xor r32, r32`), and `0x0F 0x85` with a 32-bit displacement (`jne`).
pub open spec fn decode_at(code: Seq<u8>, off: int) -> Instruction {
    if off + 3 <= code.len() && 0x40 <= code[off] < 0x50 && code[off + 1] == 0x31 && code[off + 2] >= 0xC0 {
        let rex = code[off] as int;
        let modrm = code[off + 2] as int;
        let src = (modrm / 8) % 8 + 8 * ((rex / 4) % 2);
        let dst = modrm % 8 + 8 * (rex % 2);
        if src == dst {
            Instruction::ClearRegister { reg: dst }
        } else {
            Instruction::Other
        }
    } else if off + 6 <= code.len() && code[off] == 0x0F && code[off + 1] == 0x85 {
        Instruction::JumpIfNotEqual { target: off + 6 + signed_word(code, off + 2) }
    } else {
        Instruction::Other
    }
}

/// Law: in the scan loop of every native image, the loop that walks the
/// output chain of a match (from offset 93) ends with a `jne` back to its
/// start, and the instruction it falls through to clears `r11d`, the
/// register that holds the scan state. So after the matches of an accepting
/// state are written, the scan goes on from state 0, as the interpreted
/// scanner does.
/// It holds of the stub followed by anything, so of every image that
/// `compile_x86_64` builds.
pub proof fn lemma_native_restarts_after_match(class_count: u32, rest: Seq<u8>)
    ensures
        decode_at(native_stub(class_count) + rest, 185) == (Instruction::JumpIfNotEqual { target: 93 }),
        decode_at(native_stub(class_count) + rest, 191) == (Instruction::ClearRegister { reg: 11 }),
{
    vstd::bytes::lemma_auto_spec_u32_to_from_le_bytes();
    let w1 = le32(rel_word(212 - 40));
    let w2 = le32(rel_word(194 - 90));
    let w3 = le32(rel_word(161 - 102));
    let w4 = le32(rel_word(93 - 191));
    let w5 = le32(rel_word(50 - 212));
    let sb = stub_b(class_count);
    assert(le32(class_count).len() == 4);
    assert(le32(0x7FFF_FFFFu32).len() == 4);
    assert(le32(0x8000_0000u32).len() == 4);
    assert(le32(0xFFFF_FFFFu32).len() == 4);
    assert(w1.len() == 4 && w2.len() == 4 && w3.len() == 4 && w4.len() == 4 && w5.len() == 4);
    let stub = native_stub(class_count);
    let code = stub + rest;
    let head = stub_a() + w1 + sb + w2 + stub_c() + w3 + stub_d();
    assert(stub_a().len() == 36);
    assert(sb.len() == 46);
    assert(stub_c().len() == 8);
    assert(stub_d().len() == 85);
    assert(head.len() == 187);
    assert(stub == head + w4 + stub_e() + le32(rel_word(50 - 212)) + stub_f());
    assert(code == head + w4 + stub_e() + le32(rel_word(50 - 212)) + stub_f() + rest);
    assert(code[185] == head[185]);
    assert(code[186] == head[186]);
    assert(head[185] == 0x0F && head[186] == 0x85) by {
        assert(head[185] == stub_d()[83]);
        assert(head[186] == stub_d()[84]);
    }
    assert(code.subrange(187, 191) =~= w4);
    assert(rel_word(93 - 191) == (93 - 191 + 0x1_0000_0000) as u32);
    assert(crate::table::serialize::word_at(code, 187) == rel_word(93 - 191));
    assert(code[191] == 0x45 && code[192] == 0x31 && code[193] == 0xDB) by {
        assert(code[191] == stub_e()[0]);
        assert(code[192] == stub_e()[1]);
        assert(code[193] == stub_e()[2]);
    }
}

} // verus!
