use vstd::prelude::*;

verus! {

/// The four 4-bit digits of an instruction word, most significant first.
pub open spec fn nibbles_of(instr: u16) -> Seq<u16> {
    seq![
        instr / 0x1000,
        (instr / 0x100) % 0x10,
        (instr / 0x10) % 0x10,
        instr % 0x10,
    ]
}

/// The number whose base-16 digits, most significant first, are `s`.
pub open spec fn joined(s: Seq<u16>) -> int
    decreases s.len(),
{
    if s.len() == 0 {
        0
    } else {
        joined(s.drop_last()) * 16 + s.last()
    }
}

pub open spec fn all_nibbles(s: Seq<u16>) -> bool {
    forall|i: int| 0 <= i < s.len() ==> #[trigger] s[i] < 16
}

/// Splits an instruction word into its four nibbles, most significant first.
pub fn get_nibbles(instr: u16) -> (r: [u16; 4])
    ensures
        r@ == nibbles_of(instr),
{
    let r = [
        (instr & 0xF000) >> 12,
        (instr & 0x0F00) >> 8,
        (instr & 0x00F0) >> 4,
        instr & 0x000F,
    ];
    assert((instr & 0xF000) >> 12 == instr / 0x1000) by (bit_vector);
    assert((instr & 0x0F00) >> 8 == (instr / 0x100) % 0x10) by (bit_vector);
    assert((instr & 0x00F0) >> 4 == (instr / 0x10) % 0x10) by (bit_vector);
    assert(instr & 0x000F == instr % 0x10) by (bit_vector);
    assert(r@ =~= nibbles_of(instr));
    r
}

proof fn lemma_joined_bound(s: Seq<u16>)
    requires
        all_nibbles(s),
    ensures
        0 <= joined(s),
        s.len() <= 4 ==> joined(s) < 16 * 16 * 16 * 16,
        joined(s) < pow16(s.len()),
    decreases s.len(),
{
    if s.len() > 0 {
        let t = s.drop_last();
        assert(all_nibbles(t)) by {
            assert forall|i: int| 0 <= i < t.len() implies #[trigger] t[i] < 16 by {
                assert(t[i] == s[i]);
            }
        }
        lemma_joined_bound(t);
        assert(s.last() == s[s.len() - 1]);
        assert(joined(s) < pow16(s.len())) by (nonlinear_arith)
            requires
                joined(s) == joined(t) * 16 + s.last(),
                0 <= joined(t) < pow16(t.len()),
                s.last() < 16,
                pow16(s.len()) == pow16(t.len()) * 16,
        ;
    }
    if s.len() <= 4 {
        lemma_pow16_mono(s.len());
    }
}

spec fn pow16(n: nat) -> int
    decreases n,
{
    if n == 0 {
        1
    } else {
        pow16((n - 1) as nat) * 16
    }
}

proof fn lemma_pow16_mono(n: nat)
    requires
        n <= 4,
    ensures
        pow16(n) <= 16 * 16 * 16 * 16,
{
    reveal_with_fuel(pow16, 5);
}

/// Reassembles base-16 digits, most significant first, into one number.
pub fn join_nibbles(nibbles: &[u16]) -> (r: u16)
    requires
        1 <= nibbles@.len() <= 4,
        all_nibbles(nibbles@),
    ensures
        r == joined(nibbles@),
{
    let mut res: u16 = nibbles[0];
    let mut i: usize = 1;
    proof {
        let first = nibbles@.subrange(0, 1);
        assert(first.drop_last() =~= Seq::<u16>::empty());
        assert(joined(first.drop_last()) == 0);
        assert(first.last() == nibbles@[0]);
        assert(joined(nibbles@.subrange(0, 1)) == nibbles@[0]);
    }
    while i < nibbles.len()
        invariant
            1 <= i <= nibbles@.len() <= 4,
            all_nibbles(nibbles@),
            res == joined(nibbles@.subrange(0, i as int)),
        decreases nibbles@.len() - i,
    {
        let ghost pre = nibbles@.subrange(0, i as int);
        let ghost next = nibbles@.subrange(0, i as int + 1);
        proof {
            assert(next.drop_last() =~= pre);
            assert(all_nibbles(next));
            lemma_joined_bound(next);
            assert(next.last() == nibbles@[i as int]);
        }
        res = res * 16 + nibbles[i];
        i = i + 1;
    }
    assert(nibbles@.subrange(0, nibbles@.len() as int) =~= nibbles@);
    res
}

} // verus!
