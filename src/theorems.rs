use vstd::prelude::*;
use crate::chip8::{
    lemma_sprite_word, lit, sprite_lights, sprite_word, Machine, collides, drawn, fault_free, lemma_row_offset, next_state, op_of, sprite_mask, ticked,
    well_formed, x_of, y_of, n_of, nn_of, nnn_of, DISPLAY_HEIGHT, STACK_LIMIT,
};

verus! {

/// Drawing the same sprite twice at the same place leaves the framebuffer
/// as it was; the second drawing reports a collision exactly when some sprite
/// line has a set bit over a pixel that was off before the first drawing.
pub proof fn lemma_draw_twice(fb: Seq<u64>, mem: Seq<u8>, index: int, row: int, col: u64, n: int)
    requires
        fb.len() == DISPLAY_HEIGHT,
        0 <= row < DISPLAY_HEIGHT,
        0 <= n <= DISPLAY_HEIGHT,
    ensures
        drawn(drawn(fb, mem, index, row, col, n), mem, index, row, col, n) == fb,
        collides(drawn(fb, mem, index, row, col, n), mem, index, row, col, n) == exists|i: int|
            0 <= i < n && #[trigger] (sprite_mask(mem, index, i, col) & !fb[(row + i) % 32]) != 0,
{
    let once = drawn(fb, mem, index, row, col, n);
    let twice = drawn(once, mem, index, row, col, n);
    assert forall|r: int| 0 <= r < 32 implies #[trigger] twice[r] == fb[r] by {
        let i = (r - row) % 32;
        if i < n {
            let m = sprite_mask(mem, index, i, col);
            let f = fb[r];
            assert((f ^ m) ^ m == f) by (bit_vector);
        }
    }
    assert(twice =~= fb);
    assert forall|i: int| 0 <= i < n implies (#[trigger] sprite_mask(mem, index, i, col) & !fb[(
    row + i) % 32] != 0) == (once[(row + i) % 32] & sprite_mask(mem, index, i, col) != 0) by {
        let r = (row + i) % 32;
        lemma_row_offset(row, i, r);
        let m = sprite_mask(mem, index, i, col);
        let f = fb[r];
        assert(once[r] == f ^ m);
        assert(((f ^ m) & m) == (m & !f)) by (bit_vector);
    }
}

/// On a blank screen, drawing a sprite twice at the same place reports a
/// collision the second time exactly when the sprite has a pixel set.
pub proof fn lemma_draw_twice_blank(mem: Seq<u8>, index: int, row: int, col: u64, n: int)
    requires
        0 <= row < DISPLAY_HEIGHT,
        0 <= n <= DISPLAY_HEIGHT,
    ensures
        ({
            let blank = Seq::new(DISPLAY_HEIGHT as nat, |r: int| 0u64);
            collides(drawn(blank, mem, index, row, col, n), mem, index, row, col, n) == exists|
                i: int,
            |
                0 <= i < n && #[trigger] sprite_mask(mem, index, i, col) != 0
        }),
{
    let blank = Seq::new(DISPLAY_HEIGHT as nat, |r: int| 0u64);
    lemma_draw_twice(blank, mem, index, row, col, n);
    assert forall|i: int| 0 <= i < n implies (#[trigger] sprite_mask(mem, index, i, col) != 0) == (
    sprite_mask(mem, index, i, col) & !blank[(row + i) % 32] != 0) by {
        let m = sprite_mask(mem, index, i, col);
        assert(blank[(row + i) % 32] == 0u64);
        assert(m & !0u64 == m) by (bit_vector);
    }
}

proof fn lemma_lit_nonzero(w: u64, c: u64)
    requires
        lit(w, c),
    ensures
        w != 0,
{
    assert((w >> c) & 1 == 1 ==> w != 0) by (bit_vector);
}

/// A sprite byte with a bit set gives a row word with a pixel lit.
pub proof fn lemma_nonzero_sprite_word(b: u8, col: u64)
    requires
        b != 0,
        col < 64,
    ensures
        sprite_word(b, col) != 0,
{
    lemma_sprite_word(b, col);
    let w = sprite_word(b, col);
    assert(
        sprite_lights(b, col, ((col + 0) % 64) as u64) ||
        sprite_lights(b, col, ((col + 1) % 64) as u64) ||
        sprite_lights(b, col, ((col + 2) % 64) as u64) ||
        sprite_lights(b, col, ((col + 3) % 64) as u64) ||
        sprite_lights(b, col, ((col + 4) % 64) as u64) ||
        sprite_lights(b, col, ((col + 5) % 64) as u64) ||
        sprite_lights(b, col, ((col + 6) % 64) as u64) ||
        sprite_lights(b, col, ((col + 7) % 64) as u64)
    ) by (bit_vector)
        requires
            b != 0,
            col < 64,
    ;
    if sprite_lights(b, col, ((col + 0) % 64) as u64) {
        lemma_lit_nonzero(w, ((col + 0) % 64) as u64);
    } else if sprite_lights(b, col, ((col + 1) % 64) as u64) {
        lemma_lit_nonzero(w, ((col + 1) % 64) as u64);
    } else if sprite_lights(b, col, ((col + 2) % 64) as u64) {
        lemma_lit_nonzero(w, ((col + 2) % 64) as u64);
    } else if sprite_lights(b, col, ((col + 3) % 64) as u64) {
        lemma_lit_nonzero(w, ((col + 3) % 64) as u64);
    } else if sprite_lights(b, col, ((col + 4) % 64) as u64) {
        lemma_lit_nonzero(w, ((col + 4) % 64) as u64);
    } else if sprite_lights(b, col, ((col + 5) % 64) as u64) {
        lemma_lit_nonzero(w, ((col + 5) % 64) as u64);
    } else if sprite_lights(b, col, ((col + 6) % 64) as u64) {
        lemma_lit_nonzero(w, ((col + 6) % 64) as u64);
    } else if sprite_lights(b, col, ((col + 7) % 64) as u64) {
        lemma_lit_nonzero(w, ((col + 7) % 64) as u64);
    }
}

/// Executing one draw instruction twice in a row, where neither coordinate
/// register is VF, leaves the framebuffer as it was.
pub proof fn lemma_draw_instruction_twice(s: Machine, instr: u16, r1: u8, r2: u8)
    requires
        well_formed(s),
        s.pc + 6 <= usize::MAX,
        op_of(instr) == 0xD,
        x_of(instr) != 0xF,
        y_of(instr) != 0xF,
        fault_free(s, instr),
    ensures
        next_state(next_state(s, instr, r1), instr, r2).framebuffer == s.framebuffer,
        next_state(next_state(s, instr, r1), instr, r2).dirty,
        (forall|r: int| 0 <= r < DISPLAY_HEIGHT ==> #[trigger] s.framebuffer[r] == 0) && (exists|
            i: int,
        | 0 <= i < n_of(instr) && #[trigger] s.memory[s.index + i] != 0) ==> next_state(
            next_state(s, instr, r1),
            instr,
            r2,
        ).registers[0xF] == 1,
{
    let s1 = next_state(s, instr, r1);
    let x = x_of(instr);
    let y = y_of(instr);
    let row = s.registers[y] as int % (DISPLAY_HEIGHT as int);
    let col = (s.registers[x] as int % 64) as u64;
    assert(s1.registers[x] == s.registers[x]);
    assert(s1.registers[y] == s.registers[y]);
    lemma_draw_twice(s.framebuffer, s.memory, s.index as int, row, col, n_of(instr));
    if (forall|r: int| 0 <= r < DISPLAY_HEIGHT ==> #[trigger] s.framebuffer[r] == 0) && (exists|
        i: int,
    | 0 <= i < n_of(instr) && #[trigger] s.memory[s.index + i] != 0) {
        let i = choose|i: int| 0 <= i < n_of(instr) && #[trigger] s.memory[s.index + i] != 0;
        let m = sprite_mask(s.memory, s.index as int, i, col);
        lemma_nonzero_sprite_word(s.memory[s.index + i], col);
        let f = s.framebuffer[(row + i) % 32];
        assert(f == 0);
        assert(m != 0 && f == 0 ==> m & !f != 0) by (bit_vector);
        assert(sprite_mask(s.memory, s.index as int, i, col) & !s.framebuffer[(row + i) % 32] != 0);
    }
}

/// Loading a register with `6XNN` and then adding to it with `7XNN` leaves
/// the sum modulo 256 in it.
pub proof fn lemma_load_then_add(s: Machine, x: u16, nn: u16, v2: u16, r1: u8, r2: u8)
    requires
        well_formed(s),
        s.pc + 6 <= usize::MAX,
        x < 16,
        nn < 256,
        v2 < 256,
    ensures
        next_state(
            next_state(s, (0x6000 + x * 0x100 + nn) as u16, r1),
            (0x7000 + x * 0x100 + v2) as u16,
            r2,
        ).registers[x as int] == (nn + v2) % 256,
{
    let i1 = (0x6000 + x * 0x100 + nn) as u16;
    let i2 = (0x7000 + x * 0x100 + v2) as u16;
    assert(op_of(i1) == 6 && x_of(i1) == x && nn_of(i1) == nn) by (nonlinear_arith)
        requires
            i1 == 0x6000 + x * 0x100 + nn,
            x < 16,
            nn < 256,
    ;
    assert(op_of(i2) == 7 && x_of(i2) == x && nn_of(i2) == v2) by (nonlinear_arith)
        requires
            i2 == 0x7000 + x * 0x100 + v2,
            x < 16,
            v2 < 256,
    ;
}

/// A call `2NNN` followed by a return `00EE` resumes at the instruction
/// right after the call, with the call stack as it was.
pub proof fn lemma_call_then_return(s: Machine, nnn: u16, r1: u8, r2: u8)
    requires
        well_formed(s),
        s.pc + 6 <= usize::MAX,
        nnn < 0x1000,
        s.stack.len() < STACK_LIMIT,
    ensures
        fault_free(s, (0x2000 + nnn) as u16),
        fault_free(next_state(s, (0x2000 + nnn) as u16, r1), 0x00EE),
        next_state(s, (0x2000 + nnn) as u16, r1).pc == nnn,
        next_state(next_state(s, (0x2000 + nnn) as u16, r1), 0x00EE, r2).pc == s.pc + 2,
        next_state(next_state(s, (0x2000 + nnn) as u16, r1), 0x00EE, r2).stack == s.stack,
{
    let call = (0x2000 + nnn) as u16;
    assert(op_of(call) == 2 && nnn_of(call) == nnn) by (nonlinear_arith)
        requires
            call == 0x2000 + nnn,
            nnn < 0x1000,
    ;
    assert(op_of(0x00EE) == 0 && nn_of(0x00EE) == 0xEE);
    let s1 = next_state(s, call, r1);
    assert(s1.stack.drop_last() =~= s.stack);
}

/// The state after `k` timer ticks.
pub open spec fn ticked_times(s: Machine, k: nat) -> Machine
    decreases k,
{
    if k == 0 {
        s
    } else {
        ticked(ticked_times(s, (k - 1) as nat))
    }
}

/// After `k` ticks each timer has come down by `k`, and never below zero.
pub proof fn lemma_ticks_floor(s: Machine, k: nat)
    ensures
        ticked_times(s, k).delay_timer == if s.delay_timer >= k { s.delay_timer - k } else { 0 },
        ticked_times(s, k).sound_timer == if s.sound_timer >= k { s.sound_timer - k } else { 0 },
    decreases k,
{
    if k > 0 {
        lemma_ticks_floor(s, (k - 1) as nat);
    }
}

/// Drawing flips exactly the pixels that the sprite lights: pixel (`r`, `c`)
/// changes when `r` is sprite line `i < n` (counting down from `row`,
/// wrapping round) and that line lights column `c`; every other pixel keeps
/// its value.
pub proof fn lemma_draw_pixels(
    fb: Seq<u64>,
    mem: Seq<u8>,
    index: int,
    row: int,
    col: u64,
    n: int,
    r: int,
    c: u64,
)
    requires
        fb.len() == DISPLAY_HEIGHT,
        0 <= row < DISPLAY_HEIGHT,
        0 <= r < DISPLAY_HEIGHT,
        col < 64,
        c < 64,
    ensures
        lit(drawn(fb, mem, index, row, col, n)[r], c) == (lit(fb[r], c) != ({
            let i = (r - row) % 32;
            i < n && sprite_lights(mem[index + i], col, c)
        })),
{
    let i = (r - row) % 32;
    if i < n {
        lemma_sprite_word(mem[index + i], col);
        let f = fb[r];
        let m = sprite_mask(mem, index, i, col);
        assert(lit(m, c) == sprite_lights(mem[index + i], col, c));
        assert((((f ^ m) >> c) & 1 == 1) == (((f >> c) & 1 == 1) != ((m >> c) & 1 == 1)))
            by (bit_vector)
            requires
                c < 64,
        ;
    }
}

/// An instruction marks the framebuffer changed exactly when it draws a
/// sprite or clears the screen; every other instruction leaves the flag as it
/// was.
pub proof fn lemma_dirty_only_on_display(s: Machine, instr: u16, random: u8)
    requires
        well_formed(s),
        s.pc + 4 <= usize::MAX,
        fault_free(s, instr),
    ensures
        next_state(s, instr, random).dirty == (s.dirty || op_of(instr) == 0xD || instr == 0x00E0),
{
    assert(op_of(instr) == 0 && nnn_of(instr) == 0x0E0 <==> instr == 0x00E0) by (nonlinear_arith)
        requires
            op_of(instr) == instr as int / 0x1000,
            nnn_of(instr) == instr as int % 0x1000,
    ;
}

} // verus!
