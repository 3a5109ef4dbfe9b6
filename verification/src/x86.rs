//! x86 CALL/JMP filter: turns the absolute targets of E8 (CALL) and E9 (JMP)
//! instructions back into relative displacements after LZ77 decompression.
use vstd::prelude::*;

verus! {

/// The little-endian value of four bytes.
pub open spec fn le_word(b0: u8, b1: u8, b2: u8, b3: u8) -> int {
    b0 + 256 * b1 + 65536 * b2 + 16777216 * b3
}

/// The relative displacement, modulo 2^32, of an absolute target seen at `pos`.
pub open spec fn displacement(abs: int, pos: int) -> int {
    (abs - pos) % 0x1_0000_0000
}

/// The four bytes written back for an instruction at `pos` whose operand
/// bytes are `b0..b3`: the displacement's low 24 bits, little-endian, then
/// its bit 24 sign-extended into the top byte.
pub open spec fn patched_bytes(b0: u8, b1: u8, b2: u8, b3: u8, pos: int) -> Seq<u8> {
    let d = displacement(le_word(b0, b1, b2, b3), pos);
    seq![
        (d % 256) as u8,
        ((d / 256) % 256) as u8,
        ((d / 65536) % 256) as u8,
        if (d / 16777216) % 2 == 1 { 0xFFu8 } else { 0u8 },
    ]
}

/// `s` with the operand of the instruction at `i` converted.
pub open spec fn patch_at(s: Seq<u8>, i: int) -> Seq<u8>
    recommends
        0 <= i,
        i + 4 < s.len(),
{
    let p = patched_bytes(s[i + 1], s[i + 2], s[i + 3], s[i + 4], i);
    s.update(i + 1, p[0]).update(i + 2, p[1]).update(i + 3, p[2]).update(i + 4, p[3])
}

/// Whether the byte opens a CALL or JMP instruction.
pub open spec fn is_call_or_jmp(b: u8) -> bool {
    b == 0xE8 || b == 0xE9
}

/// Whether a target's top byte marks it as one the encoder converted.
pub open spec fn is_converted_top(b: u8) -> bool {
    b == 0x00 || b == 0xFF
}

/// The scan from position `i` onwards: an opcode at `i` with a full operand
/// after it consumes five bytes (its operand converted where the top byte is
/// 0x00 or 0xFF); any other byte consumes one.
pub open spec fn x86_scan(s: Seq<u8>, i: int) -> Seq<u8>
    decreases s.len() - i,
{
    if i < 0 || i + 4 >= s.len() {
        s
    } else if is_call_or_jmp(s[i]) {
        if is_converted_top(s[i + 4]) {
            x86_scan(patch_at(s, i), i + 5)
        } else {
            x86_scan(s, i + 5)
        }
    } else {
        x86_scan(s, i + 1)
    }
}

/// The whole buffer after the filter.
pub open spec fn x86_unfilter(s: Seq<u8>) -> Seq<u8> {
    x86_scan(s, 0)
}

proof fn lemma_le_word(b0: u8, b1: u8, b2: u8, b3: u8)
    ensures
        ((b0 as u32) | ((b1 as u32) << 8u32) | ((b2 as u32) << 16u32) | ((b3 as u32) << 24u32))
            == le_word(b0, b1, b2, b3),
{
    assert(((b0 as u32) | ((b1 as u32) << 8u32) | ((b2 as u32) << 16u32) | ((b3 as u32)
        << 24u32)) == b0 + 256 * b1 + 65536 * b2 + 16777216 * b3) by (bit_vector);
}

proof fn lemma_sign_extend(d: u32)
    ensures
        ({
            let r = if (d >> 24u32) & 1 != 0 {
                d | 0xFF00_0000u32
            } else {
                d & 0x00FF_FFFFu32
            };
            &&& (r & 0xFF) as u8 == (d % 256) as u8
            &&& ((r >> 8u32) & 0xFF) as u8 == ((d / 256) % 256) as u8
            &&& ((r >> 16u32) & 0xFF) as u8 == ((d / 65536) % 256) as u8
            &&& ((r >> 24u32) & 0xFF) as u8 == if (d / 16777216) % 2 == 1 {
                0xFFu8
            } else {
                0u8
            }
        }),
{
    assert((d >> 24u32) & 1 != 0 <==> (d / 16777216) % 2 == 1) by (bit_vector);
    if (d >> 24u32) & 1 != 0 {
        let r = d | 0xFF00_0000u32;
        assert((r & 0xFF) as u8 == (d % 256) as u8) by (bit_vector)
            requires
                r == d | 0xFF00_0000u32,
        ;
        assert(((r >> 8u32) & 0xFF) as u8 == ((d / 256) % 256) as u8) by (bit_vector)
            requires
                r == d | 0xFF00_0000u32,
        ;
        assert(((r >> 16u32) & 0xFF) as u8 == ((d / 65536) % 256) as u8) by (bit_vector)
            requires
                r == d | 0xFF00_0000u32,
        ;
        assert(((r >> 24u32) & 0xFF) as u8 == 0xFFu8) by (bit_vector)
            requires
                r == d | 0xFF00_0000u32,
        ;
    } else {
        let r = d & 0x00FF_FFFFu32;
        assert((r & 0xFF) as u8 == (d % 256) as u8) by (bit_vector)
            requires
                r == d & 0x00FF_FFFFu32,
        ;
        assert(((r >> 8u32) & 0xFF) as u8 == ((d / 256) % 256) as u8) by (bit_vector)
            requires
                r == d & 0x00FF_FFFFu32,
        ;
        assert(((r >> 16u32) & 0xFF) as u8 == ((d / 65536) % 256) as u8) by (bit_vector)
            requires
                r == d & 0x00FF_FFFFu32,
        ;
        assert(((r >> 24u32) & 0xFF) as u8 == 0u8) by (bit_vector)
            requires
                r == d & 0x00FF_FFFFu32,
        ;
    }
}

proof fn lemma_displacement(a: u32, i: usize)
    ensures
        (if a - (i as u32) < 0 {
            a - (i as u32) + 0x1_0000_0000
        } else {
            a - (i as u32)
        }) == displacement(a as int, i as int),
{
    let m: int = 0x1_0000_0000;
    let p = i as u32;
    let iw = i as u64;
    assert(p == (iw % 0x1_0000_0000u64) as u32) by (bit_vector)
        requires
            p == i as u32,
            iw == i as u64,
    ;
    vstd::arithmetic::div_mod::lemma_fundamental_div_mod(i as int, m);
    let q = (i as int) / m;
    vstd::arithmetic::div_mod::lemma_mod_multiples_vanish(-q, a - p, m);
    assert(m * (-q) + (a - p) == a - i) by (nonlinear_arith)
        requires
            i as int == m * q + p,
    ;
    if a - p < 0 {
        vstd::arithmetic::div_mod::lemma_mod_multiples_vanish(1, a - p, m);
        vstd::arithmetic::div_mod::lemma_small_mod((a - p + m) as nat, m as nat);
    } else {
        vstd::arithmetic::div_mod::lemma_small_mod((a - p) as nat, m as nat);
    }
}

proof fn lemma_scan_step(s: Seq<u8>, i: int)
    requires
        0 <= i,
        i + 4 < s.len(),
    ensures
        x86_scan(s, i) == if is_call_or_jmp(s[i]) {
            if is_converted_top(s[i + 4]) {
                x86_scan(patch_at(s, i), i + 5)
            } else {
                x86_scan(s, i + 5)
            }
        } else {
            x86_scan(s, i + 1)
        },
{
}

/// Convert the operand of the instruction at `i` in place.
fn convert_at(buf: &mut [u8], i: usize)
    requires
        i + 4 < old(buf)@.len(),
    ensures
        final(buf)@ == patch_at(old(buf)@, i as int),
{
    let b0 = buf[i + 1];
    let b1 = buf[i + 2];
    let b2 = buf[i + 3];
    let b3 = buf[i + 4];
    let mut addr: u32 = (b0 as u32) | ((b1 as u32) << 8) | ((b2 as u32) << 16) | ((b3 as u32)
        << 24);
    proof {
        lemma_le_word(b0, b1, b2, b3);
        lemma_displacement(addr, i);
    }
    addr = addr.wrapping_sub(i as u32);
    let ghost d = addr;
    if (addr >> 24) & 1 != 0 {
        addr |= 0xFF00_0000;
    } else {
        addr &= 0x00FF_FFFF;
    }
    proof {
        lemma_sign_extend(d);
    }
    buf[i + 1] = (addr & 0xFF) as u8;
    buf[i + 2] = ((addr >> 8) & 0xFF) as u8;
    buf[i + 3] = ((addr >> 16) & 0xFF) as u8;
    buf[i + 4] = ((addr >> 24) & 0xFF) as u8;
    assert(buf@ =~= patch_at(old(buf)@, i as int));
}

/// Undo the x86 CALL/JMP address conversion in place.
pub fn x86_filter(buf: &mut [u8])
    ensures
        final(buf)@ == x86_unfilter(old(buf)@),
{
    let size = buf.len();
    if size < 5 {
        return;
    }
    let mut i: usize = 0;
    while i < size - 4
        invariant
            size == buf@.len(),
            size >= 5,
            x86_scan(buf@, i as int) == x86_unfilter(old(buf)@),
        decreases size - i,
    {
        proof {
            lemma_scan_step(buf@, i as int);
        }
        if buf[i] == 0xE8 || buf[i] == 0xE9 {
            if buf[i + 4] == 0x00 || buf[i + 4] == 0xFF {
                convert_at(buf, i);
            }
            i += 5;
        } else {
            i += 1;
        }
    }
}

/// Law: the filter keeps the buffer's length.
pub proof fn lemma_x86_len(s: Seq<u8>)
    ensures
        x86_unfilter(s).len() == s.len(),
{
    lemma_scan_len(s, 0);
}

proof fn lemma_scan_len(s: Seq<u8>, i: int)
    ensures
        x86_scan(s, i).len() == s.len(),
    decreases s.len() - i,
{
    if i >= 0 && i + 4 < s.len() {
        if is_call_or_jmp(s[i]) {
            if is_converted_top(s[i + 4]) {
                lemma_scan_len(patch_at(s, i), i + 5);
            } else {
                lemma_scan_len(s, i + 5);
            }
        } else {
            lemma_scan_len(s, i + 1);
        }
    }
}

/// Law: a buffer shorter than one instruction is left as it is.
pub proof fn lemma_x86_short_unchanged(s: Seq<u8>)
    requires
        s.len() < 5,
    ensures
        x86_unfilter(s) == s,
{
}

/// Law: a buffer without CALL or JMP opcodes is left as it is.
pub proof fn lemma_x86_no_opcode_unchanged(s: Seq<u8>)
    requires
        forall|k: int| 0 <= k < s.len() ==> !is_call_or_jmp(#[trigger] s[k]),
    ensures
        x86_unfilter(s) == s,
{
    lemma_scan_no_opcode(s, 0);
}

proof fn lemma_scan_no_opcode(s: Seq<u8>, i: int)
    requires
        0 <= i,
        forall|k: int| 0 <= k < s.len() ==> !is_call_or_jmp(#[trigger] s[k]),
    ensures
        x86_scan(s, i) == s,
    decreases s.len() - i,
{
    if i + 4 < s.len() {
        lemma_scan_no_opcode(s, i + 1);
    }
}

} // verus!
