//! CRC-32 checksum (reflected polynomial 0xEDB88320).
use vstd::prelude::*;

verus! {

/// One bit of the reflected CRC-32 division.
pub open spec fn crc_shift(c: u32) -> u32 {
    if c & 1 != 0 {
        0xEDB8_8320u32 ^ (c >> 1u32)
    } else {
        c >> 1u32
    }
}

/// `n` bits of the reflected CRC-32 division.
pub open spec fn crc_shift_n(c: u32, n: nat) -> u32
    decreases n,
{
    if n == 0 {
        c
    } else {
        crc_shift(crc_shift_n(c, (n - 1) as nat))
    }
}

/// Eight bits of the reflected CRC-32 division, written out.
pub open spec fn crc_shift8(c: u32) -> u32 {
    crc_shift(crc_shift(crc_shift(crc_shift(crc_shift(crc_shift(crc_shift(crc_shift(c))))))))
}

/// The CRC register after one more byte.
pub open spec fn crc_byte(c: u32, b: u8) -> u32 {
    crc_shift8(c ^ (b as u32))
}

/// The CRC register after the bytes of `s`, starting from `c`.
pub open spec fn crc_fold(c: u32, s: Seq<u8>) -> u32
    decreases s.len(),
{
    if s.len() == 0 {
        c
    } else {
        crc_byte(crc_fold(c, s.drop_last()), s.last())
    }
}

/// The standard CRC-32 of `s`.
pub open spec fn crc32(s: Seq<u8>) -> u32 {
    crc_fold(0xFFFF_FFFFu32, s) ^ 0xFFFF_FFFFu32
}

proof fn lemma_shift_n_8(c: u32)
    ensures
        crc_shift_n(c, 8) == crc_shift8(c),
{
    reveal_with_fuel(crc_shift_n, 9);
}

proof fn lemma_table_step(c: u32, b: u8)
    ensures
        crc_byte(c, b) == crc_shift8((c ^ (b as u32)) & 0xFFu32) ^ (c >> 8u32),
{
    let x: u32 = c ^ (b as u32);
    assert(crc_shift8(x) == crc_shift8(x & 0xFFu32) ^ (x >> 8u32)) by (bit_vector);
    assert((x >> 8u32) == (c >> 8u32)) by (bit_vector)
        requires
            x == c ^ (b as u32),
    ;
}

/// Law: feeding the bytes in two chunks leaves the register as one call with
/// all of them does.
pub proof fn lemma_crc_fold_append(c: u32, a: Seq<u8>, b: Seq<u8>)
    ensures
        crc_fold(c, a + b) == crc_fold(crc_fold(c, a), b),
    decreases b.len(),
{
    if b.len() == 0 {
        assert(a + b =~= a);
    } else {
        assert((a + b).drop_last() =~= a + b.drop_last());
        lemma_crc_fold_append(c, a, b.drop_last());
    }
}

fn build_table() -> (table: Vec<u32>)
    ensures
        table@.len() == 256,
        forall|i: int| 0 <= i < 256 ==> table@[i] == crc_shift8(i as u32),
{
    let mut table: Vec<u32> = Vec::new();
    let mut i: u32 = 0;
    while i < 256
        invariant
            i <= 256,
            table@.len() == i,
            forall|j: int| 0 <= j < i ==> table@[j] == crc_shift8(j as u32),
        decreases 256 - i,
    {
        let mut c: u32 = i;
        let mut k: u32 = 0;
        while k < 8
            invariant
                k <= 8,
                c == crc_shift_n(i, k as nat),
            decreases 8 - k,
        {
            c = if c & 1 != 0 {
                0xEDB8_8320 ^ (c >> 1)
            } else {
                c >> 1
            };
            k += 1;
        }
        proof {
            lemma_shift_n_8(i);
        }
        table.push(c);
        i += 1;
    }
    table
}

/// Running CRC-32 computation.
pub struct Crc32 {
    value: u32,
    table: Vec<u32>,
}

impl View for Crc32 {
    type V = u32;

    closed spec fn view(&self) -> u32 {
        self.value
    }
}

impl Crc32 {
    #[verifier::type_invariant]
    spec fn table_is_crc(self) -> bool {
        &&& self.table@.len() == 256
        &&& forall|i: int| 0 <= i < 256 ==> self.table@[i] == crc_shift8(i as u32)
    }

    /// A fresh register.
    pub fn new() -> (r: Self)
        ensures
            r@ == 0xFFFF_FFFFu32,
    {
        Crc32 { value: 0xFFFF_FFFF, table: build_table() }
    }

    /// Feed `data` into the register.
    pub fn update(&mut self, data: &[u8])
        ensures
            final(self)@ == crc_fold(old(self)@, data@),
    {
        proof {
            use_type_invariant(&*self);
        }
        let mut c = self.value;
        let mut n: usize = 0;
        while n < data.len()
            invariant
                n <= data@.len(),
                c == crc_fold(old(self)@, data@.subrange(0, n as int)),
                self.table@.len() == 256,
                forall|i: int| 0 <= i < 256 ==> self.table@[i] == crc_shift8(i as u32),
            decreases data@.len() - n,
        {
            let b = data[n];
            let idx = (c ^ b as u32) & 0xFF;
            assert(idx < 256) by (bit_vector)
                requires
                    idx == (c ^ b as u32) & 0xFF,
            ;
            proof {
                lemma_table_step(c, b);
                assert(data@.subrange(0, n + 1).drop_last() =~= data@.subrange(0, n as int));
            }
            c = self.table[idx as usize] ^ (c >> 8);
            n += 1;
        }
        assert(data@.subrange(0, n as int) =~= data@);
        self.value = c;
    }

    /// The checksum of everything fed so far.
    pub fn finalize(self) -> (r: u32)
        ensures
            r == self@ ^ 0xFFFF_FFFFu32,
    {
        self.value ^ 0xFFFF_FFFF
    }
}

} // verus!
