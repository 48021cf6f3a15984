use vstd::prelude::*;

verus! {

pub const FONT_HEIGHT: usize = 5;
pub const FONT_COUNT: usize = 16;
pub const MEMORY_SIZE: usize = 4096;
pub const FONTS_START: usize = 0x050;

pub const FONTS: [u8; 80] = [
    0xF0, 0x90, 0x90, 0x90, 0xF0, // 0
    0x20, 0x60, 0x20, 0x20, 0x70, // 1
    0xF0, 0x10, 0xF0, 0x80, 0xF0, // 2
    0xF0, 0x10, 0xF0, 0x10, 0xF0, // 3
    0x90, 0x90, 0xF0, 0x10, 0x10, // 4
    0xF0, 0x80, 0xF0, 0x10, 0xF0, // 5
    0xF0, 0x80, 0xF0, 0x90, 0xF0, // 6
    0xF0, 0x10, 0x20, 0x40, 0x40, // 7
    0xF0, 0x90, 0xF0, 0x90, 0xF0, // 8
    0xF0, 0x90, 0xF0, 0x10, 0xF0, // 9
    0xF0, 0x90, 0xF0, 0x90, 0x90, // A
    0xE0, 0x90, 0xE0, 0x90, 0xE0, // B
    0xF0, 0x80, 0x80, 0x80, 0xF0, // C
    0xE0, 0x90, 0x90, 0x90, 0xE0, // D
    0xF0, 0x80, 0xF0, 0x80, 0xF0, // E
    0xF0, 0x80, 0xF0, 0x80, 0x80, // F
];

/// The address space as it stands after construction: zeros, with the
/// font glyphs laid out from `FONTS_START`.
pub open spec fn initial_memory() -> Seq<u8> {
    Seq::new(
        MEMORY_SIZE as nat,
        |i: int|
            if FONTS_START <= i < FONTS_START + FONTS@.len() {
                FONTS@[i - FONTS_START]
            } else {
                0u8
            },
    )
}

/// `m` with the bytes of `b` written from address `p` on.
pub open spec fn written(m: Seq<u8>, p: int, b: Seq<u8>) -> Seq<u8> {
    Seq::new(m.len(), |i: int| if p <= i < p + b.len() { b[i - p] } else { m[i] })
}

/// The big-endian 16-bit word held at `p` and `p + 1`.
pub open spec fn word_at(m: Seq<u8>, p: int) -> int {
    m[p] * 256 + m[p + 1]
}

/// The byte-addressable memory of the machine.
pub struct Memory {
    data: [u8; MEMORY_SIZE],
}

impl View for Memory {
    type V = Seq<u8>;

    closed spec fn view(&self) -> Seq<u8> {
        self.data@
    }
}

impl Memory {
    pub proof fn lemma_len(&self)
        ensures
            self@.len() == MEMORY_SIZE,
    {
    }

    /// A zeroed address space holding the font glyphs.
    pub fn new() -> (r: Memory)
        ensures
            r@ == initial_memory(),
    {
        let mut data: [u8; MEMORY_SIZE] = [0; MEMORY_SIZE];
        let mut i: usize = 0;
        while i < FONTS.len()
            invariant
                0 <= i <= FONTS@.len() == 80,
                data@.len() == MEMORY_SIZE,
                forall|k: int|
                    0 <= k < MEMORY_SIZE ==> #[trigger] data@[k] == if FONTS_START <= k
                        < FONTS_START + i {
                        FONTS@[k - FONTS_START]
                    } else {
                        0u8
                    },
            decreases FONTS@.len() - i,
        {
            data[FONTS_START + i] = FONTS[i];
            i = i + 1;
        }
        let r = Memory { data };
        assert(r@ =~= initial_memory());
        r
    }

    /// Copies `bytes` into memory from address `p` on.
    fn copy_in(&mut self, p: usize, bytes: &[u8])
        requires
            p + bytes@.len() <= MEMORY_SIZE,
        ensures
            final(self)@ == written(old(self)@, p as int, bytes@),
    {
        let mut i: usize = 0;
        while i < bytes.len()
            invariant
                p + bytes@.len() <= MEMORY_SIZE,
                0 <= i <= bytes@.len(),
                self@.len() == MEMORY_SIZE,
                forall|k: int|
                    0 <= k < MEMORY_SIZE ==> #[trigger] self@[k] == if p <= k < p + i {
                        bytes@[k - p]
                    } else {
                        old(self)@[k]
                    },
            decreases bytes@.len() - i,
        {
            self.data[p + i] = bytes[i];
            i = i + 1;
        }
        assert(self@ =~= written(old(self)@, p as int, bytes@));
    }

    /// Writes `buff` into memory from address `p` on; the whole range must
    /// lie inside the address space.
    pub fn set(&mut self, p: usize, buff: &Vec<u8>)
        requires
            p + buff@.len() <= MEMORY_SIZE,
        ensures
            final(self)@ == written(old(self)@, p as int, buff@),
    {
        self.copy_in(p, buff.as_slice());
    }

    /// Writes the program image `bytes` from address `p` on.
    pub fn set_slice(&mut self, p: usize, bytes: &[u8])
        requires
            p + bytes@.len() <= MEMORY_SIZE,
        ensures
            final(self)@ == written(old(self)@, p as int, bytes@),
    {
        self.copy_in(p, bytes);
    }

    /// The byte at address `p`.
    pub fn read_byte(&self, p: usize) -> (r: u8)
        requires
            p < MEMORY_SIZE,
        ensures
            r == self@[p as int],
    {
        self.data[p]
    }

    /// Stores `v` at address `p`.
    pub fn write_byte(&mut self, p: usize, v: u8)
        requires
            p < MEMORY_SIZE,
        ensures
            final(self)@ == old(self)@.update(p as int, v),
    {
        self.data[p] = v;
    }

    /// The big-endian instruction word at `p`, `p + 1`.
    pub fn get_instruction(&self, p: usize) -> (r: u16)
        requires
            p + 1 < MEMORY_SIZE,
        ensures
            r == word_at(self@, p as int),
            r == ((self@[p as int] as u16) << 8) | (self@[p + 1] as u16),
    {
        let byte_left: u16 = self.data[p] as u16;
        let byte_right: u16 = self.data[p + 1] as u16;
        assert((byte_left << 8) | byte_right == byte_left * 256 + byte_right) by (bit_vector)
            requires
                byte_left < 256,
                byte_right < 256,
        ;
        byte_left * 256 + byte_right
    }
}

/// Whatever was written to a range of memory is what a read of that range
/// gives back.
pub proof fn lemma_write_then_read(m: Seq<u8>, p: int, b: Seq<u8>)
    requires
        m.len() == MEMORY_SIZE,
        0 <= p,
        p + b.len() <= MEMORY_SIZE,
    ensures
        written(m, p, b).subrange(p, p + b.len()) == b,
        forall|i: int|
            0 <= i < m.len() && !(p <= i < p + b.len()) ==> #[trigger] written(m, p, b)[i] == m[i],
{
    assert(written(m, p, b).subrange(p, p + b.len()) =~= b);
}

} // verus!
