use vstd::prelude::*;

verus! {

/// Word `i` of `bytes`, its four bytes read most significant first.
pub open spec fn be_word(bytes: Seq<u8>, i: int) -> u32 {
    (bytes[4 * i] as int * 0x1000000 + bytes[4 * i + 1] as int * 0x10000 + bytes[4 * i + 2] as int
        * 0x100 + bytes[4 * i + 3] as int) as u32
}

/// Word `i` of `bytes`, its four bytes read least significant first.
pub open spec fn le_word(bytes: Seq<u8>, i: int) -> u32 {
    (bytes[4 * i + 3] as int * 0x1000000 + bytes[4 * i + 2] as int * 0x10000 + bytes[4 * i + 1] as int
        * 0x100 + bytes[4 * i] as int) as u32
}

pub open spec fn word_at(bytes: Seq<u8>, i: int, little_endian: bool) -> u32 {
    if little_endian {
        le_word(bytes, i)
    } else {
        be_word(bytes, i)
    }
}

/// A byte buffer too short for the words asked of it.
#[derive(Clone, Copy, Debug, PartialEq, Eq, Structural)]
pub enum DecodeError {
    Truncated { wanted: usize, available: usize },
}

/// Reads the first `n` four-byte words of `bytes` in the given byte order. Bytes after
/// them are left alone; fewer than `n` whole words is an error.
pub fn decode_words(bytes: &[u8], n: usize, little_endian: bool) -> (r: Result<Vec<u32>, DecodeError>)
    ensures
        r is Ok <==> 4 * n <= bytes@.len(),
        r matches Err(e) ==> e == (DecodeError::Truncated {
            wanted: n,
            available: (bytes@.len() / 4) as usize,
        }),
        r matches Ok(w) ==> w@.len() == n && forall|i: int|
            0 <= i < n ==> #[trigger] w@[i] == word_at(bytes@, i, little_endian),
{
    let len = bytes.len();
    let available = len / 4;
    proof {
        vstd::arithmetic::div_mod::lemma_fundamental_div_mod(bytes@.len() as int, 4);
    }
    if n > available {
        return Err(DecodeError::Truncated { wanted: n, available });
    }
    let mut out: Vec<u32> = Vec::new();
    let mut i: usize = 0;
    while i < n
        invariant
            n <= bytes@.len() / 4,
            len == bytes@.len(),
            i <= n,
            out@.len() == i,
            forall|k: int| 0 <= k < i ==> #[trigger] out@[k] == word_at(bytes@, k, little_endian),
        decreases n - i,
    {
        proof {
            vstd::arithmetic::div_mod::lemma_fundamental_div_mod(bytes@.len() as int, 4);
        }
        assert(4 * i + 4 <= bytes@.len());
        let o = 4 * i;
        let (b0, b1, b2, b3) = (bytes[o] as u32, bytes[o + 1] as u32, bytes[o + 2] as u32, bytes[o + 3] as u32);
        let w = if little_endian {
            b3 * 0x1000000 + b2 * 0x10000 + b1 * 0x100 + b0
        } else {
            b0 * 0x1000000 + b1 * 0x10000 + b2 * 0x100 + b3
        };
        out.push(w);
        i = i + 1;
    }
    Ok(out)
}

} // verus!
