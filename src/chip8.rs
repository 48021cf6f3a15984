use vstd::prelude::*;
use rand::rngs::StdRng;
use crate::memory::{
    Memory, initial_memory, written, word_at, MEMORY_SIZE, FONTS_START, FONT_HEIGHT,
};
use crate::nibbles::{get_nibbles, join_nibbles, joined};

verus! {

pub const PROGRAM_START: usize = 0x200;
pub const DISPLAY_HEIGHT: usize = 32;
pub const DISPLAY_WIDTH: usize = 64;
pub const REGISTER_COUNT: usize = 16;
/// The deepest nesting of subroutine calls that the machine supports.
pub const STACK_LIMIT: usize = 16;
/// The seed of the random source where the operating system gives no entropy.
pub const FALLBACK_SEED: u64 = 0x5EED;

/// How `8XY6` and `8XYE` pick the value that they shift.
#[derive(Clone, Copy, Debug, PartialEq, Eq, Structural)]
pub enum ShiftQuirk {
    /// Vy is copied into Vx, then shifted.
    Legacy,
    /// Vx is shifted in place.
    Modern,
}

/// The whole observable state of an interpreter.
pub struct Machine {
    pub memory: Seq<u8>,
    /// One 64-bit word per row; bit `c` of a row is the pixel in column `c`.
    pub framebuffer: Seq<u64>,
    pub registers: Seq<u8>,
    pub index: usize,
    /// Address of the next instruction to fetch.
    pub pc: usize,
    /// Saved return addresses, innermost last.
    pub stack: Seq<usize>,
    pub delay_timer: u8,
    pub sound_timer: u8,
    pub dirty: bool,
    pub keyboard: u16,
    pub quirk: ShiftQuirk,
}

pub open spec fn well_formed(s: Machine) -> bool {
    &&& s.memory.len() == MEMORY_SIZE
    &&& s.framebuffer.len() == DISPLAY_HEIGHT
    &&& s.registers.len() == REGISTER_COUNT
    &&& s.index < MEMORY_SIZE
    &&& s.stack.len() <= STACK_LIMIT
}

pub open spec fn op_of(instr: u16) -> int {
    instr as int / 0x1000
}

pub open spec fn x_of(instr: u16) -> int {
    (instr as int / 0x100) % 0x10
}

pub open spec fn y_of(instr: u16) -> int {
    (instr as int / 0x10) % 0x10
}

pub open spec fn n_of(instr: u16) -> int {
    instr as int % 0x10
}

pub open spec fn nn_of(instr: u16) -> int {
    instr as int % 0x100
}

pub open spec fn nnn_of(instr: u16) -> int {
    instr as int % 0x1000
}

/// The instruction word at the program counter.
pub open spec fn fetched(s: Machine) -> u16 {
    word_at(s.memory, s.pc as int) as u16
}

/// The three kinds of fatal error.
#[derive(Clone, Copy, Debug, PartialEq, Eq, Structural)]
pub enum Fault {
    /// A memory access outside the address space.
    Bounds,
    /// An instruction with no defined meaning.
    Decode,
    /// A return with no saved address, or a call past the deepest nesting.
    Stack,
}

/// The fatal error that executing `instr` in state `s` would raise, if any.
pub open spec fn fault_of(s: Machine, instr: u16) -> Option<Fault> {
    let op = op_of(instr);
    let nnn = nnn_of(instr);
    let x = x_of(instr);
    let n = n_of(instr);
    let nn = nn_of(instr);
    if op == 0x0 {
        if nnn == 0x0E0 {
            None
        } else if nnn == 0x0EE {
            if s.stack.len() > 0 {
                None
            } else {
                Some(Fault::Stack)
            }
        } else {
            Some(Fault::Decode)
        }
    } else if op == 0x5 || op == 0x9 {
        if n == 0 {
            None
        } else {
            Some(Fault::Decode)
        }
    } else if op == 0x2 {
        if s.stack.len() < STACK_LIMIT {
            None
        } else {
            Some(Fault::Stack)
        }
    } else if op == 0x8 {
        if n <= 7 || n == 0xE {
            None
        } else {
            Some(Fault::Decode)
        }
    } else if op == 0xD {
        if s.index + n <= MEMORY_SIZE {
            None
        } else {
            Some(Fault::Bounds)
        }
    } else if op == 0xE {
        Some(Fault::Decode)
    } else if op == 0xF {
        if nn == 0x07 || nn == 0x15 || nn == 0x18 || nn == 0x1E || nn == 0x29 {
            None
        } else if nn == 0x33 {
            if s.index + 3 <= MEMORY_SIZE {
                None
            } else {
                Some(Fault::Bounds)
            }
        } else if nn == 0x55 || nn == 0x65 {
            if s.index + x + 1 <= MEMORY_SIZE {
                None
            } else {
                Some(Fault::Bounds)
            }
        } else {
            Some(Fault::Decode)
        }
    } else {
        None
    }
}

/// `instr` decodes to a defined operation whose memory accesses and stack
/// use stay in bounds: executing it is not a fatal error.
pub open spec fn fault_free(s: Machine, instr: u16) -> bool {
    fault_of(s, instr) is None
}

/// The fatal error that the next step would raise, if any: the fetch itself
/// must stay inside memory.
pub open spec fn next_fault_of(s: Machine) -> Option<Fault> {
    if s.pc + 1 < MEMORY_SIZE {
        fault_of(s, fetched(s))
    } else {
        Some(Fault::Bounds)
    }
}

pub open spec fn set_reg(s: Machine, x: int, v: u8) -> Machine {
    Machine { registers: s.registers.update(x, v), ..s }
}

/// Vx gets `v`, then VF gets `flag`: the flag wins where x is 0xF.
pub open spec fn set_reg_flag(s: Machine, x: int, v: u8, flag: u8) -> Machine {
    Machine { registers: s.registers.update(x, v).update(0xF, flag), ..s }
}

pub open spec fn skip_if(s: Machine, cond: bool) -> Machine {
    if cond {
        Machine { pc: (s.pc + 2) as usize, ..s }
    } else {
        s
    }
}

pub open spec fn shift_source(s: Machine, x: int, y: int) -> u8 {
    if s.quirk == ShiftQuirk::Legacy {
        s.registers[y]
    } else {
        s.registers[x]
    }
}

/// The register-to-register operations `8XYN`.
pub open spec fn alu(s: Machine, x: int, y: int, n: int) -> Machine {
    let vx = s.registers[x];
    let vy = s.registers[y];
    if n == 0 {
        set_reg(s, x, vy)
    } else if n == 1 {
        set_reg(s, x, vx | vy)
    } else if n == 2 {
        set_reg(s, x, vx & vy)
    } else if n == 3 {
        set_reg(s, x, vx ^ vy)
    } else if n == 4 {
        set_reg_flag(s, x, ((vx + vy) % 256) as u8, if vx + vy > 255 { 1 } else { 0 })
    } else if n == 5 {
        set_reg_flag(s, x, ((vx - vy) % 256) as u8, if vx >= vy { 1 } else { 0 })
    } else if n == 6 {
        let v = shift_source(s, x, y);
        set_reg_flag(s, x, v / 2, v % 2)
    } else if n == 7 {
        set_reg_flag(s, x, ((vy - vx) % 256) as u8, if vy >= vx { 1 } else { 0 })
    } else {
        let v = shift_source(s, x, y);
        set_reg_flag(s, x, ((v * 2) % 256) as u8, v / 128)
    }
}

/// The decimal digits of `v`, hundreds first.
pub open spec fn decimal_digits(v: u8) -> Seq<u8> {
    seq![v / 100, (v / 10) % 10, v % 10]
}

/// The timer, index and memory operations `FXNN`.
pub open spec fn misc(s: Machine, x: int, nn: int) -> Machine {
    let vx = s.registers[x];
    if nn == 0x07 {
        set_reg(s, x, s.delay_timer)
    } else if nn == 0x15 {
        Machine { delay_timer: vx, ..s }
    } else if nn == 0x18 {
        Machine { sound_timer: vx, ..s }
    } else if nn == 0x1E {
        Machine {
            index: ((s.index + vx) % (MEMORY_SIZE as int)) as usize,
            registers: s.registers.update(0xF, if s.index + vx >= MEMORY_SIZE { 1 } else { 0 }),
            ..s
        }
    } else if nn == 0x29 {
        Machine { index: (FONTS_START + vx as int * FONT_HEIGHT) as usize, ..s }
    } else if nn == 0x33 {
        Machine { memory: written(s.memory, s.index as int, decimal_digits(vx)), ..s }
    } else if nn == 0x55 {
        Machine { memory: written(s.memory, s.index as int, s.registers.subrange(0, x + 1)), ..s }
    } else {
        Machine {
            registers: written(s.registers, 0, s.memory.subrange(s.index as int, s.index + x + 1)),
            ..s
        }
    }
}

/// Whether the pixel in column `c` of a framebuffer row is lit.
pub open spec fn lit(row_bits: u64, c: u64) -> bool {
    (row_bits >> c) & 1 == 1
}

/// Whether sprite byte `b`, drawn from column `col` on, lights column `c`:
/// `c` lies `j` columns right of `col`, wrapping round at the right edge, for
/// some `j < 8`, and bit `j` of `b`, counted from the most significant, is set.
pub open spec fn sprite_lights(b: u8, col: u64, c: u64) -> bool {
    let j = ((c + 64 - col) % 64) as u64;
    j < 8 && ((b as u64) >> ((7 - j) as u64)) & 1 == 1
}

/// `w` lights, in each column, exactly what sprite byte `b` drawn from
/// column `col` on lights.
pub open spec fn is_sprite_word(w: u64, b: u8, col: u64) -> bool {
    forall|c: u64| c < 64 ==> #[trigger] lit(w, c) == sprite_lights(b, col, c)
}

/// The row word of sprite byte `b` drawn from column `col` on: the word whose
/// pixel in each column is lit exactly where the sprite lights it.
pub open spec fn sprite_word(b: u8, col: u64) -> u64 {
    choose|w: u64| is_sprite_word(w, b, col)
}

/// The bits of `b` reversed, as computed: the most significant bit lands in
/// bit 0.
spec fn reversed_byte(b: u8) -> u64 {
    let w = b as u64;
    ((w >> 7u64) & 1) | (((w >> 6u64) & 1) << 1u64) | (((w >> 5u64) & 1) << 2u64) | (((w
        >> 4u64) & 1) << 3u64) | (((w >> 3u64) & 1) << 4u64) | (((w >> 2u64) & 1) << 5u64) | (((w
        >> 1u64) & 1) << 6u64) | ((w & 1) << 7u64)
}

/// `bits` rotated left by `col`, as computed.
spec fn rotated(bits: u64, col: u64) -> u64 {
    if col == 0 {
        bits
    } else {
        (bits << col) | (bits >> ((64 - col) as u64))
    }
}

proof fn lemma_rotated_lights(b: u8, col: u64, c: u64)
    requires
        col < 64,
        c < 64,
    ensures
        lit(rotated(reversed_byte(b), col), c) == sprite_lights(b, col, c),
{
    assert(lit(rotated(reversed_byte(b), col), c) == sprite_lights(b, col, c)) by (bit_vector)
        requires
            col < 64,
            c < 64,
    ;
}

proof fn lemma_high_bits_clear(x: u64, k: u64)
    requires
        k < 64,
        forall|c: u64| k <= c < 64 ==> !#[trigger] lit(x, c),
    ensures
        x >> k == 0,
    decreases 63 - k,
{
    assert(!lit(x, k));
    if k == 63 {
        assert((x >> 63u64) & 1 != 1 ==> x >> 63u64 == 0) by (bit_vector);
    } else {
        let k1 = (k + 1) as u64;
        lemma_high_bits_clear(x, k1);
        assert(x >> k == 0) by (bit_vector)
            requires
                x >> k1 == 0,
                (x >> k) & 1 != 1,
                k1 == k + 1,
                k < 63,
        ;
    }
}

/// Two row words that light the same columns are the same word.
pub proof fn lemma_lit_determines(a: u64, b: u64)
    requires
        forall|c: u64| c < 64 ==> #[trigger] lit(a, c) == lit(b, c),
    ensures
        a == b,
{
    let x = a ^ b;
    assert forall|c: u64| 0 <= c < 64 implies !#[trigger] lit(x, c) by {
        assert(lit(a, c) == lit(b, c));
        assert((((a ^ b) >> c) & 1 == 1) == (((a >> c) & 1 == 1) != ((b >> c) & 1 == 1)))
            by (bit_vector);
    }
    lemma_high_bits_clear(x, 0);
    assert((a ^ b) >> 0u64 == 0 ==> a == b) by (bit_vector);
}

proof fn lemma_sprite_word_computed(b: u8, col: u64)
    requires
        col < 64,
    ensures
        sprite_word(b, col) == rotated(reversed_byte(b), col),
{
    let w = rotated(reversed_byte(b), col);
    assert forall|c: u64| c < 64 implies #[trigger] lit(w, c) == sprite_lights(b, col, c) by {
        lemma_rotated_lights(b, col, c);
    }
    assert(is_sprite_word(w, b, col));
    let v = sprite_word(b, col);
    assert(is_sprite_word(v, b, col));
    assert forall|c: u64| c < 64 implies #[trigger] lit(v, c) == lit(w, c) by {
        lemma_rotated_lights(b, col, c);
    }
    lemma_lit_determines(v, w);
}

/// The row word of a sprite byte lights exactly the columns that the sprite
/// lights.
pub proof fn lemma_sprite_word(b: u8, col: u64)
    requires
        col < 64,
    ensures
        forall|c: u64| c < 64 ==> #[trigger] lit(sprite_word(b, col), c) == sprite_lights(b, col, c),
{
    lemma_sprite_word_computed(b, col);
    assert forall|c: u64| c < 64 implies #[trigger] lit(sprite_word(b, col), c) == sprite_lights(b, col, c) by {
        lemma_rotated_lights(b, col, c);
    }
}

/// The row mask of sprite line `i`, read at `index + i`, placed at `col`.
pub open spec fn sprite_mask(mem: Seq<u8>, index: int, i: int, col: u64) -> u64 {
    sprite_word(mem[index + i], col)
}

/// The framebuffer after XOR-ing `n` sprite lines in from row `row` down,
/// the rows past the bottom edge wrapping round to the top.
pub open spec fn drawn(
    fb: Seq<u64>,
    mem: Seq<u8>,
    index: int,
    row: int,
    col: u64,
    n: int,
) -> Seq<u64> {
    Seq::new(
        fb.len(),
        |r: int|
            {
                let i = (r - row) % (DISPLAY_HEIGHT as int);
                if i < n {
                    fb[r] ^ sprite_mask(mem, index, i, col)
                } else {
                    fb[r]
                }
            },
    )
}

/// Some sprite line would turn off a pixel that is on.
pub open spec fn collides(
    fb: Seq<u64>,
    mem: Seq<u8>,
    index: int,
    row: int,
    col: u64,
    n: int,
) -> bool {
    exists|i: int|
        0 <= i < n && #[trigger] (fb[(row + i) % (DISPLAY_HEIGHT as int)] & sprite_mask(
            mem,
            index,
            i,
            col,
        )) != 0
}

/// `DXYN`: draw `n` sprite lines from the index register at (Vx, Vy).
pub open spec fn draw(s: Machine, x: int, y: int, n: int) -> Machine {
    let row = s.registers[y] as int % (DISPLAY_HEIGHT as int);
    let col = (s.registers[x] as int % (DISPLAY_WIDTH as int)) as u64;
    let hit = collides(s.framebuffer, s.memory, s.index as int, row, col, n);
    Machine {
        framebuffer: drawn(s.framebuffer, s.memory, s.index as int, row, col, n),
        registers: s.registers.update(0xF, if hit { 1 } else { 0 }),
        dirty: true,
        ..s
    }
}

/// The state after executing `instr`; `random` is the byte that `CXNN`
/// draws from the random source.
pub open spec fn next_state(s: Machine, instr: u16, random: u8) -> Machine {
    let a = Machine { pc: (s.pc + 2) as usize, ..s };
    let op = op_of(instr);
    let x = x_of(instr);
    let y = y_of(instr);
    let n = n_of(instr);
    let nn = nn_of(instr);
    let nnn = nnn_of(instr);
    if op == 0x0 {
        if nnn == 0x0E0 {
            Machine { framebuffer: Seq::new(DISPLAY_HEIGHT as nat, |r: int| 0u64), dirty: true, ..a }
        } else {
            Machine { pc: a.stack.last(), stack: a.stack.drop_last(), ..a }
        }
    } else if op == 0x1 {
        Machine { pc: nnn as usize, ..a }
    } else if op == 0x2 {
        Machine { stack: a.stack.push(a.pc), pc: nnn as usize, ..a }
    } else if op == 0x3 {
        skip_if(a, a.registers[x] as int == nn)
    } else if op == 0x4 {
        skip_if(a, a.registers[x] as int != nn)
    } else if op == 0x5 {
        skip_if(a, a.registers[x] == a.registers[y])
    } else if op == 0x6 {
        set_reg(a, x, nn as u8)
    } else if op == 0x7 {
        set_reg(a, x, ((a.registers[x] as int + nn) % 256) as u8)
    } else if op == 0x8 {
        alu(a, x, y, n)
    } else if op == 0x9 {
        skip_if(a, a.registers[x] != a.registers[y])
    } else if op == 0xA {
        Machine { index: nnn as usize, ..a }
    } else if op == 0xB {
        Machine { pc: (nnn + a.registers[0] as int) as usize, ..a }
    } else if op == 0xC {
        set_reg(a, x, random & (nn as u8))
    } else if op == 0xD {
        draw(a, x, y, n)
    } else if op == 0xF {
        misc(a, x, nn)
    } else {
        a
    }
}

/// Both timers one step closer to zero.
pub open spec fn ticked(s: Machine) -> Machine {
    Machine {
        delay_timer: if s.delay_timer > 0 { (s.delay_timer - 1) as u8 } else { 0 },
        sound_timer: if s.sound_timer > 0 { (s.sound_timer - 1) as u8 } else { 0 },
        ..s
    }
}

/// Relies on rand's `SeedableRng::from_rng` with `OsRng`: a generator seeded
/// from the operating system's entropy source, or `None` where the operating
/// system gives no entropy.
#[verifier::external_body]
fn entropy_rng() -> (r: Option<StdRng>) {
    <StdRng as rand::SeedableRng>::from_rng(rand::rngs::OsRng).ok()
}

/// Relies on rand's `SeedableRng::seed_from_u64`: a generator whose output
/// depends on `seed` alone.
#[verifier::external_body]
fn seeded_rng(seed: u64) -> (r: StdRng) {
    <StdRng as rand::SeedableRng>::seed_from_u64(seed)
}

/// Relies on rand's `Rng::gen::<u8>`: any byte.
#[verifier::external_body]
fn random_byte(rng: &mut StdRng) -> (r: u8) {
    <StdRng as rand::Rng>::gen::<u8>(rng)
}

/// rand's standard generator, carried through as an opaque value.
#[verifier::external_type_specification]
#[verifier::external_body]
pub struct ExStdRng(StdRng);

/// The interpreter: memory, registers, call stack, timers, framebuffer and
/// a random source. Its view is a `Machine`.
pub struct Interpreter {
    pub ram: Memory,
    pub display_buffer: [u64; DISPLAY_HEIGHT],
    index_register: usize,
    delay_timer: u8,
    sound_timer: u8,
    registers: [u8; REGISTER_COUNT],
    pub display_flag: bool,
    pub keyboard: u16,
    pub shift_quirk: ShiftQuirk,
    rng: StdRng,
    pc: usize,
    stack: Vec<usize>,
}

impl View for Interpreter {
    type V = Machine;

    closed spec fn view(&self) -> Machine {
        Machine {
            memory: self.ram@,
            framebuffer: self.display_buffer@,
            registers: self.registers@,
            index: self.index_register,
            pc: self.pc,
            stack: self.stack@,
            delay_timer: self.delay_timer,
            sound_timer: self.sound_timer,
            dirty: self.display_flag,
            keyboard: self.keyboard,
            quirk: self.shift_quirk,
        }
    }
}

/// The state of a freshly built interpreter.
pub open spec fn initial_machine() -> Machine {
    Machine {
        memory: initial_memory(),
        framebuffer: Seq::new(DISPLAY_HEIGHT as nat, |r: int| 0u64),
        registers: Seq::new(REGISTER_COUNT as nat, |r: int| 0u8),
        index: 0,
        pc: PROGRAM_START,
        stack: Seq::empty(),
        delay_timer: 0,
        sound_timer: 0,
        dirty: false,
        keyboard: 0,
        quirk: ShiftQuirk::Modern,
    }
}

/// The values of two and three joined nibbles.
proof fn lemma_joined3(a: u16, b: u16, c: u16)
    ensures
        joined(seq![a, b, c]) == a * 256 + b * 16 + c,
        joined(seq![b, c]) == b * 16 + c,
{
    assert(seq![a].drop_last() =~= Seq::<u16>::empty());
    assert(seq![b].drop_last() =~= Seq::<u16>::empty());
    assert(seq![a, b].drop_last() =~= seq![a]);
    assert(seq![b, c].drop_last() =~= seq![b]);
    assert(seq![a, b, c].drop_last() =~= seq![a, b]);
    assert(joined(Seq::<u16>::empty()) == 0);
    assert(joined(seq![a]) == a);
    assert(joined(seq![b]) == b);
    assert(joined(seq![a, b]) == a * 16 + b);
}

/// Splits `instr` into its opcode family and operand groups:
/// (n0, x, y, n, nn, nnn).
fn decode(instr: u16) -> (r: (u16, u16, u16, u16, u16, u16))
    ensures
        r.0 == op_of(instr),
        r.1 == x_of(instr),
        r.2 == y_of(instr),
        r.3 == n_of(instr),
        r.4 == nn_of(instr),
        r.5 == nnn_of(instr),
        r.0 < 16 && r.1 < 16 && r.2 < 16 && r.3 < 16 && r.4 < 256 && r.5 < 4096,
{
    let nibbles = get_nibbles(instr);
    let low3 = [nibbles[1], nibbles[2], nibbles[3]];
    let low2 = [nibbles[2], nibbles[3]];
    proof {
        assert(low3@ =~= seq![nibbles[1], nibbles[2], nibbles[3]]);
        assert(low2@ =~= seq![nibbles[2], nibbles[3]]);
        lemma_joined3(nibbles[1], nibbles[2], nibbles[3]);
        assert(((instr as int / 0x100) % 0x10) * 256 + ((instr as int / 0x10) % 0x10) * 16 + (
        instr as int % 0x10) == instr as int % 0x1000) by (nonlinear_arith);
        assert(((instr as int / 0x10) % 0x10) * 16 + (instr as int % 0x10) == instr as int
            % 0x100) by (nonlinear_arith);
    }
    let nnn = join_nibbles(low3.as_slice());
    let nn = join_nibbles(low2.as_slice());
    (nibbles[0], nibbles[1], nibbles[2], nibbles[3], nn, nnn)
}

/// The row word of sprite byte `b` drawn from column `col` on.
fn place_sprite(b: u8, col: u64) -> (r: u64)
    requires
        col < 64,
    ensures
        r == sprite_word(b, col),
{
    let w = b as u64;
    let bits = ((w >> 7u64) & 1) | (((w >> 6u64) & 1) << 1u64) | (((w >> 5u64) & 1) << 2u64) | (((w
        >> 4u64) & 1) << 3u64) | (((w >> 3u64) & 1) << 4u64) | (((w >> 2u64) & 1) << 5u64) | (((w
        >> 1u64) & 1) << 6u64) | ((w & 1) << 7u64);
    proof {
        lemma_sprite_word_computed(b, col);
    }
    if col == 0 {
        bits
    } else {
        (bits << col) | (bits >> (64 - col))
    }
}

/// Row `r` is sprite line `k` of a drawing that starts at `row` exactly when
/// it is `k` rows below `row`, wrapping round.
pub(crate) proof fn lemma_row_offset(row: int, k: int, r: int)
    requires
        0 <= row < 32,
        0 <= k < 32,
        0 <= r < 32,
    ensures
        ((r - row) % 32 == k) == (r == (row + k) % 32),
        0 <= (r - row) % 32 < 32,
{
}

impl Interpreter {
    /// The interpreter's state is well formed.
    pub open spec fn inv(&self) -> bool {
        well_formed(self@)
    }

    fn with_rng(rng: StdRng) -> (r: Interpreter)
        ensures
            r.inv(),
            r@ == initial_machine(),
    {
        let r = Interpreter {
            ram: Memory::new(),
            display_buffer: [0u64; DISPLAY_HEIGHT],
            index_register: 0,
            delay_timer: 0,
            sound_timer: 0,
            registers: [0u8; REGISTER_COUNT],
            display_flag: false,
            keyboard: 0,
            shift_quirk: ShiftQuirk::Modern,
            rng,
            pc: PROGRAM_START,
            stack: Vec::new(),
        };
        proof {
            r.ram.lemma_len();
        }
        assert(r@.framebuffer =~= initial_machine().framebuffer);
        assert(r@.registers =~= initial_machine().registers);
        assert(r@.stack =~= initial_machine().stack);
        r
    }

    /// A machine with cleared state whose random source is seeded from the
    /// operating system; where the operating system gives no entropy, it is
    /// seeded with `FALLBACK_SEED` instead.
    pub fn new() -> (r: Interpreter)
        ensures
            r.inv(),
            r@ == initial_machine(),
    {
        let rng = match entropy_rng() {
            Some(rng) => rng,
            None => seeded_rng(FALLBACK_SEED),
        };
        Interpreter::with_rng(rng)
    }

    /// A machine with cleared state whose random source is seeded with
    /// `seed`, for runs that can be replayed.
    pub fn with_seed(seed: u64) -> (r: Interpreter)
        ensures
            r.inv(),
            r@ == initial_machine(),
    {
        Interpreter::with_rng(seeded_rng(seed))
    }

    fn exec_alu(&mut self, x: usize, y: usize, n: u16)
        requires
            old(self).inv(),
            x < 16,
            y < 16,
            n <= 7 || n == 0xE,
        ensures
            final(self).inv(),
            final(self)@ == alu(old(self)@, x as int, y as int, n as int),
    {
        let vx = self.registers[x];
        let vy = self.registers[y];
        let src = match self.shift_quirk {
            ShiftQuirk::Legacy => vy,
            ShiftQuirk::Modern => vx,
        };
        if n == 0 {
            self.registers[x] = vy;
        } else if n == 1 {
            self.registers[x] = vx | vy;
        } else if n == 2 {
            self.registers[x] = vx & vy;
        } else if n == 3 {
            self.registers[x] = vx ^ vy;
        } else if n == 4 {
            let sum: u16 = vx as u16 + vy as u16;
            self.registers[x] = (sum % 256) as u8;
            self.registers[15] = if sum > 255 { 1 } else { 0 };
        } else if n == 5 {
            self.registers[x] = if vx >= vy { vx - vy } else { (vx as u16 + 256 - vy as u16) as u8 };
            self.registers[15] = if vx >= vy { 1 } else { 0 };
        } else if n == 6 {
            assert(src >> 1 == src / 2) by (bit_vector);
            assert(src & 1 == src % 2) by (bit_vector);
            self.registers[x] = src >> 1;
            self.registers[15] = src & 1;
        } else if n == 7 {
            self.registers[x] = if vy >= vx { vy - vx } else { (vy as u16 + 256 - vx as u16) as u8 };
            self.registers[15] = if vy >= vx { 1 } else { 0 };
        } else {
            assert(src >> 7 == src / 128) by (bit_vector);
            self.registers[x] = ((src as u16 * 2) % 256) as u8;
            self.registers[15] = src >> 7;
        }
    }

    fn exec_draw(&mut self, x: usize, y: usize, n: usize)
        requires
            old(self).inv(),
            x < 16,
            y < 16,
            n < 16,
            old(self)@.index + n <= MEMORY_SIZE,
        ensures
            final(self).inv(),
            final(self)@ == draw(old(self)@, x as int, y as int, n as int),
    {
        let row: usize = self.registers[y] as usize % DISPLAY_HEIGHT;
        let col: u64 = self.registers[x] as u64 % 64;
        self.display_flag = true;
        let ghost s1 = self@;
        let mut collided = false;
        let mut i: usize = 0;
        proof {
            let d0 = drawn(s1.framebuffer, s1.memory, s1.index as int, row as int, col, 0);
            assert forall|q: int| 0 <= q < 32 implies #[trigger] d0[q] == s1.framebuffer[q] by {
                lemma_row_offset(row as int, 0, q);
            }
            assert(d0 =~= s1.framebuffer);
        }
        while i < n
            invariant
                0 <= i <= n < 16,
                row < 32,
                col < 64,
                well_formed(s1),
                s1.index + n <= MEMORY_SIZE,
                self@ == (Machine {
                    framebuffer: drawn(s1.framebuffer, s1.memory, s1.index as int, row as int, col, i as int),
                    ..s1
                }),
                collided == collides(s1.framebuffer, s1.memory, s1.index as int, row as int, col, i as int),
            decreases n - i,
        {
            let r: usize = (row + i) % DISPLAY_HEIGHT;
            let b = self.ram.read_byte(self.index_register + i);
            let mask = place_sprite(b, col);
            let cur = self.display_buffer[r];
            let ghost fb = s1.framebuffer;
            let ghost m = s1.memory;
            let ghost idx = s1.index as int;
            proof {
                lemma_row_offset(row as int, i as int, r as int);
                assert(cur == fb[r as int]);
                assert(mask == sprite_mask(m, idx, i as int, col));
            }
            let hit = cur & mask != 0;
            if hit {
                collided = true;
            }
            self.display_buffer[r] = cur ^ mask;
            proof {
                let next = drawn(fb, m, idx, row as int, col, i + 1);
                assert forall|q: int| 0 <= q < 32 implies #[trigger] self.display_buffer@[q] == next[q] by {
                    lemma_row_offset(row as int, i as int, q);
                }
                assert(self.display_buffer@ =~= next);
                let c0 = collides(fb, m, idx, row as int, col, i as int);
                let c1 = collides(fb, m, idx, row as int, col, i + 1);
                if c1 {
                    let j = choose|j: int|
                        0 <= j < i + 1 && #[trigger] (fb[(row + j) % (DISPLAY_HEIGHT as int)]
                            & sprite_mask(m, idx, j, col)) != 0;
                    if j < i {
                        assert(c0);
                    } else {
                        assert(hit);
                    }
                }
                if c0 {
                    let j = choose|j: int|
                        0 <= j < i && #[trigger] (fb[(row + j) % (DISPLAY_HEIGHT as int)]
                            & sprite_mask(m, idx, j, col)) != 0;
                    assert(c1);
                }
                if hit {
                    assert(fb[(row + i) % (DISPLAY_HEIGHT as int)] & sprite_mask(m, idx, i as int, col) != 0);
                    assert(c1);
                }
            }
            i = i + 1;
        }
        self.registers[15] = if collided { 1 } else { 0 };
    }

    fn exec_misc(&mut self, x: usize, nn: u16)
        requires
            old(self).inv(),
            x < 16,
            fault_free(old(self)@, (0xF000 + x * 0x100 + nn) as u16),
            nn < 256,
        ensures
            final(self).inv(),
            final(self)@ == misc(old(self)@, x as int, nn as int),
    {
        let ghost s0 = self@;
        let vx = self.registers[x];
        assert(nn_of((0xF000 + x * 0x100 + nn) as u16) == nn) by (nonlinear_arith)
            requires
                x < 16,
                nn < 256,
        ;
        assert(x_of((0xF000 + x * 0x100 + nn) as u16) == x) by (nonlinear_arith)
            requires
                x < 16,
                nn < 256,
        ;
        assert(op_of((0xF000 + x * 0x100 + nn) as u16) == 0xF) by (nonlinear_arith)
            requires
                x < 16,
                nn < 256,
        ;
        if nn == 0x07 {
            self.registers[x] = self.delay_timer;
        } else if nn == 0x15 {
            self.delay_timer = vx;
        } else if nn == 0x18 {
            self.sound_timer = vx;
        } else if nn == 0x1E {
            let sum: usize = self.index_register + vx as usize;
            self.index_register = sum % MEMORY_SIZE;
            self.registers[15] = if sum >= MEMORY_SIZE { 1 } else { 0 };
        } else if nn == 0x29 {
            self.index_register = FONTS_START + vx as usize * FONT_HEIGHT;
        } else if nn == 0x33 {
            let digits = [vx / 100, (vx / 10) % 10, vx % 10];
            assert(digits@ =~= decimal_digits(vx));
            self.ram.set_slice(self.index_register, digits.as_slice());
        } else if nn == 0x55 {
            let mut i: usize = 0;
            assert(written(s0.memory, s0.index as int, s0.registers.subrange(0, 0)) =~= s0.memory);
            while i <= x
                invariant
                    x < 16,
                    0 <= i <= x + 1,
                    well_formed(s0),
                    s0.index + x + 1 <= MEMORY_SIZE,
                    self@ == (Machine {
                        memory: written(s0.memory, s0.index as int, s0.registers.subrange(0, i as int)),
                        ..s0
                    }),
                decreases x + 1 - i,
            {
                self.ram.write_byte(self.index_register + i, self.registers[i]);
                proof {
                    assert(self@.memory =~= written(s0.memory, s0.index as int, s0.registers.subrange(0, i + 1)));
                }
                i = i + 1;
            }
        } else {
            let mut i: usize = 0;
            assert(written(s0.registers, 0, s0.memory.subrange(s0.index as int, s0.index as int))
                =~= s0.registers);
            while i <= x
                invariant
                    x < 16,
                    0 <= i <= x + 1,
                    well_formed(s0),
                    s0.index + x + 1 <= MEMORY_SIZE,
                    self@ == (Machine {
                        registers: written(s0.registers, 0, s0.memory.subrange(s0.index as int, s0.index + i)),
                        ..s0
                    }),
                decreases x + 1 - i,
            {
                let v = self.ram.read_byte(self.index_register + i);
                self.registers[i] = v;
                proof {
                    assert(self@.registers =~= written(s0.registers, 0, s0.memory.subrange(s0.index as int, s0.index + i + 1)));
                }
                i = i + 1;
            }
        }
        proof {
            assert(self@.registers =~= misc(s0, x as int, nn as int).registers);
            assert(self@.memory =~= misc(s0, x as int, nn as int).memory);
        }
    }

    /// Executes `instr`, with `random` as the byte that `CXNN` draws.
    pub fn execute(&mut self, instr: u16, random: u8)
        requires
            old(self).inv(),
            fault_free(old(self)@, instr),
            old(self)@.pc + 4 <= usize::MAX,
        ensures
            final(self).inv(),
            final(self)@ == next_state(old(self)@, instr, random),
    {
        let (op, x, y, n, nn, nnn) = decode(instr);
        let x = x as usize;
        let y = y as usize;
        self.pc = self.pc + 2;
        if op == 0x0 {
            if nnn == 0x0E0 {
                self.display_buffer = [0u64; DISPLAY_HEIGHT];
                self.display_flag = true;
                assert(self@.framebuffer =~= Seq::new(DISPLAY_HEIGHT as nat, |r: int| 0u64));
            } else {
                match self.stack.pop() {
                    Some(p) => {
                        self.pc = p;
                    },
                    None => {},
                }
            }
        } else if op == 0x1 {
            self.pc = nnn as usize;
        } else if op == 0x2 {
            self.stack.push(self.pc);
            self.pc = nnn as usize;
        } else if op == 0x3 {
            if self.registers[x] as u16 == nn {
                self.pc = self.pc + 2;
            }
        } else if op == 0x4 {
            if self.registers[x] as u16 != nn {
                self.pc = self.pc + 2;
            }
        } else if op == 0x5 {
            if self.registers[x] == self.registers[y] {
                self.pc = self.pc + 2;
            }
        } else if op == 0x6 {
            self.registers[x] = nn as u8;
        } else if op == 0x7 {
            self.registers[x] = ((self.registers[x] as u16 + nn) % 256) as u8;
        } else if op == 0x8 {
            self.exec_alu(x, y, n);
        } else if op == 0x9 {
            if self.registers[x] != self.registers[y] {
                self.pc = self.pc + 2;
            }
        } else if op == 0xA {
            self.index_register = nnn as usize;
        } else if op == 0xB {
            self.pc = nnn as usize + self.registers[0] as usize;
        } else if op == 0xC {
            self.registers[x] = random & (nn as u8);
        } else if op == 0xD {
            self.exec_draw(x, y, n as usize);
        } else if op == 0xF {
            proof {
                assert(instr as int == 0xF000 + x * 0x100 + nn) by (nonlinear_arith)
                    requires
                        instr as int / 0x1000 == 0xF,
                        x == (instr as int / 0x100) % 0x10,
                        nn == instr as int % 0x100,
                ;
            }
            self.exec_misc(x, nn);
        }
    }

    /// Executes `instr`; `CXNN` takes its byte from the random source.
    pub fn process_instruction(&mut self, instr: u16)
        requires
            old(self).inv(),
            fault_free(old(self)@, instr),
            old(self)@.pc + 4 <= usize::MAX,
        ensures
            final(self).inv(),
            exists|random: u8| final(self)@ == #[trigger] next_state(old(self)@, instr, random),
    {
        let (op, _x, _y, _n, _nn, _nnn) = decode(instr);
        let random: u8 = if op == 0xC {
            random_byte(&mut self.rng)
        } else {
            0
        };
        self.execute(instr, random);
    }

    /// Fetches the instruction at the program counter and executes it.
    pub fn step(&mut self)
        requires
            old(self).inv(),
            next_fault_of(old(self)@) is None,
        ensures
            final(self).inv(),
            exists|random: u8|
                final(self)@ == #[trigger] next_state(old(self)@, fetched(old(self)@), random),
    {
        proof {
            self.ram.lemma_len();
        }
        let instr = self.ram.get_instruction(self.pc);
        self.process_instruction(instr);
    }

    /// The fatal error that executing `instr` now would raise, if any.
    pub fn fault(&self, instr: u16) -> (r: Option<Fault>)
        requires
            self.inv(),
        ensures
            r == fault_of(self@, instr),
    {
        let (op, x, _y, n, nn, nnn) = decode(instr);
        let depth = self.stack.len();
        let index = self.index_register;
        if op == 0x0 {
            if nnn == 0x0E0 {
                None
            } else if nnn == 0x0EE {
                if depth > 0 {
                    None
                } else {
                    Some(Fault::Stack)
                }
            } else {
                Some(Fault::Decode)
            }
        } else if op == 0x5 || op == 0x9 {
            if n == 0 {
                None
            } else {
                Some(Fault::Decode)
            }
        } else if op == 0x2 {
            if depth < STACK_LIMIT {
                None
            } else {
                Some(Fault::Stack)
            }
        } else if op == 0x8 {
            if n <= 7 || n == 0xE {
                None
            } else {
                Some(Fault::Decode)
            }
        } else if op == 0xD {
            if index + n as usize <= MEMORY_SIZE {
                None
            } else {
                Some(Fault::Bounds)
            }
        } else if op == 0xE {
            Some(Fault::Decode)
        } else if op == 0xF {
            if nn == 0x07 || nn == 0x15 || nn == 0x18 || nn == 0x1E || nn == 0x29 {
                None
            } else if nn == 0x33 {
                if index + 3 <= MEMORY_SIZE {
                    None
                } else {
                    Some(Fault::Bounds)
                }
            } else if nn == 0x55 || nn == 0x65 {
                if index + x as usize + 1 <= MEMORY_SIZE {
                    None
                } else {
                    Some(Fault::Bounds)
                }
            } else {
                Some(Fault::Decode)
            }
        } else {
            None
        }
    }

    /// The fatal error that the next `step` would raise, if any.
    pub fn next_fault(&self) -> (r: Option<Fault>)
        requires
            self.inv(),
        ensures
            r == next_fault_of(self@),
    {
        proof {
            self.ram.lemma_len();
        }
        if self.pc < MEMORY_SIZE - 1 {
            let instr = self.ram.get_instruction(self.pc);
            self.fault(instr)
        } else {
            Some(Fault::Bounds)
        }
    }

    /// Moves both timers one step toward zero.
    pub fn tick_timers(&mut self)
        requires
            old(self).inv(),
        ensures
            final(self).inv(),
            final(self)@ == ticked(old(self)@),
    {
        if self.delay_timer > 0 {
            self.delay_timer = self.delay_timer - 1;
        }
        if self.sound_timer > 0 {
            self.sound_timer = self.sound_timer - 1;
        }
    }

    /// Writes a program image at the start of the program region.
    pub fn load_rom(&mut self, bytes: &[u8])
        requires
            old(self).inv(),
            PROGRAM_START + bytes@.len() <= MEMORY_SIZE,
        ensures
            final(self).inv(),
            final(self)@ == (Machine {
                memory: written(old(self)@.memory, PROGRAM_START as int, bytes@),
                ..old(self)@
            }),
    {
        self.ram.set_slice(PROGRAM_START, bytes);
    }

    /// Whether the pixel at (`row`, `col`) is on.
    pub fn pixel(&self, row: usize, col: usize) -> (r: bool)
        requires
            row < DISPLAY_HEIGHT,
            col < DISPLAY_WIDTH,
        ensures
            r == lit(self@.framebuffer[row as int], col as u64),
    {
        (self.display_buffer[row] >> col as u64) & 1 == 1
    }

    /// The value of register V`i`.
    pub fn register(&self, i: usize) -> (r: u8)
        requires
            i < REGISTER_COUNT,
        ensures
            r == self@.registers[i as int],
    {
        self.registers[i]
    }

    /// The address of the next instruction to fetch.
    pub fn pc(&self) -> (r: usize)
        ensures
            r == self@.pc,
    {
        self.pc
    }

    /// The index register.
    pub fn index_register(&self) -> (r: usize)
        ensures
            r == self@.index,
    {
        self.index_register
    }

    /// The delay timer.
    pub fn delay_timer(&self) -> (r: u8)
        ensures
            r == self@.delay_timer,
    {
        self.delay_timer
    }

    /// The sound timer.
    pub fn sound_timer(&self) -> (r: u8)
        ensures
            r == self@.sound_timer,
    {
        self.sound_timer
    }

    /// How many return addresses are saved.
    pub fn stack_depth(&self) -> (r: usize)
        ensures
            r == self@.stack.len(),
    {
        self.stack.len()
    }
}

} // verus!
