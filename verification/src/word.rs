//! Big-endian numbers in 32-byte words, and the byte-buffer helpers built on them.

use vstd::prelude::*;

verus! {

/// The `len` low-order bytes of `n`, most significant first.
pub open spec fn be_bytes(n: nat, len: nat) -> Seq<u8>
    decreases len,
{
    if len == 0 {
        Seq::empty()
    } else {
        be_bytes(n / 256, (len - 1) as nat).push((n % 256) as u8)
    }
}

/// The number that `bytes` spell, most significant byte first.
pub open spec fn be_value(bytes: Seq<u8>) -> nat
    decreases bytes.len(),
{
    if bytes.len() == 0 {
        0
    } else {
        be_value(bytes.drop_last()) * 256 + bytes.last() as nat
    }
}

/// What is left of `n` once its `len` low-order bytes are dropped.
pub open spec fn high_part(n: nat, len: nat) -> nat
    decreases len,
{
    if len == 0 {
        n
    } else {
        high_part(n, (len - 1) as nat) / 256
    }
}

/// The 32-byte word that holds `n`.
pub open spec fn word(n: nat) -> Seq<u8> {
    be_bytes(n, 32)
}

/// `len` zero bytes.
pub open spec fn zeros(len: nat) -> Seq<u8> {
    Seq::new(len, |i: int| 0u8)
}

/// `len` rounded up to a whole number of words.
pub open spec fn padded_len(len: nat) -> nat {
    ((len + 31) / 32 * 32) as nat
}

/// The 32 bytes of `data` from byte `at` on.
pub open spec fn word_at(data: Seq<u8>, at: nat) -> Seq<u8> {
    data.subrange(at as int, at as int + 32)
}

/// The number in the word that starts at byte `at` of `data`, where the word
/// lies within `data` and the number fits the machine's `usize`.
pub open spec fn size_at(data: Seq<u8>, at: nat) -> Option<nat> {
    if at + 32 <= data.len() && be_value(word_at(data, at)) <= usize::MAX {
        Some(be_value(word_at(data, at)))
    } else {
        None
    }
}

pub proof fn lemma_be_bytes_len(n: nat, len: nat)
    ensures
        be_bytes(n, len).len() == len,
    decreases len,
{
    if len > 0 {
        lemma_be_bytes_len(n / 256, (len - 1) as nat);
    }
}

pub proof fn lemma_high_part_shift(n: nat, len: nat)
    ensures
        high_part(n / 256, len) == high_part(n, len + 1),
    decreases len,
{
    reveal_with_fuel(high_part, 2);
    if len > 0 {
        lemma_high_part_shift(n, (len - 1) as nat);
        assert(high_part(n / 256, len) == high_part(n / 256, (len - 1) as nat) / 256);
        assert(high_part(n, len + 1) == high_part(n, len) / 256);
    }
}

pub proof fn lemma_high_part_stays_zero(n: nat, len: nat, more: nat)
    requires
        high_part(n, len) == 0,
    ensures
        high_part(n, len + more) == 0,
    decreases more,
{
    if more > 0 {
        lemma_high_part_stays_zero(n, len, (more - 1) as nat);
    }
}

/// A number that fits `usize` fits a word.
pub proof fn lemma_size_fits_word(n: nat)
    requires
        n <= usize::MAX,
    ensures
        high_part(n, 32) == 0,
{
    assert(high_part(n, 8) == n / 256 / 256 / 256 / 256 / 256 / 256 / 256 / 256) by {
        reveal_with_fuel(high_part, 9);
    }
    assert(n <= 0xffff_ffff_ffff_ffff);
    lemma_high_part_stays_zero(n, 8, 24);
}

/// The word of a number that fits `usize` reads back as that number.
pub proof fn lemma_size_at_word(data: Seq<u8>, at: nat, n: nat)
    requires
        n <= usize::MAX,
        at + 32 <= data.len(),
        word_at(data, at) == word(n),
    ensures
        size_at(data, at) == Some(n),
{
    lemma_size_fits_word(n);
    lemma_be_value_of_bytes(n, 32);
}

/// Reading back the bytes of a number that fits them gives the number.
pub proof fn lemma_be_value_of_bytes(n: nat, len: nat)
    requires
        high_part(n, len) == 0,
    ensures
        be_value(be_bytes(n, len)) == n,
    decreases len,
{
    if len > 0 {
        let rest = be_bytes(n / 256, (len - 1) as nat);
        lemma_high_part_shift(n, (len - 1) as nat);
        lemma_be_value_of_bytes(n / 256, (len - 1) as nat);
        assert(rest.push((n % 256) as u8).drop_last() =~= rest);
    }
}

/// One more byte of a number goes in front of the bytes below it.
pub proof fn lemma_be_bytes_prepend(n: nat, len: nat)
    ensures
        be_bytes(n, len + 1) =~= seq![(high_part(n, len) % 256) as u8] + be_bytes(n, len),
    decreases len,
{
    reveal_with_fuel(be_bytes, 2);
    if len > 0 {
        let low = (n % 256) as u8;
        let top = (high_part(n, len) % 256) as u8;
        lemma_be_bytes_prepend(n / 256, (len - 1) as nat);
        lemma_high_part_shift(n, (len - 1) as nat);
        assert(be_bytes(n, len + 1) == be_bytes(n / 256, len).push(low));
        assert(be_bytes(n / 256, len) =~= seq![top] + be_bytes(n / 256, (len - 1) as nat));
        assert(be_bytes(n, len) == be_bytes(n / 256, (len - 1) as nat).push(low));
        assert((seq![top] + be_bytes(n / 256, (len - 1) as nat)).push(low) =~= seq![top]
            + be_bytes(n / 256, (len - 1) as nat).push(low));
    }
}

/// The number spelled by one more byte.
pub proof fn lemma_be_value_step(bytes: Seq<u8>, i: int)
    requires
        0 <= i < bytes.len(),
    ensures
        be_value(bytes.take(i + 1)) == be_value(bytes.take(i)) * 256 + bytes[i] as nat,
{
    assert(bytes.take(i + 1).drop_last() =~= bytes.take(i));
}

/// A prefix spells no more than the whole.
pub proof fn lemma_be_value_prefix(bytes: Seq<u8>, i: int)
    requires
        0 <= i <= bytes.len(),
    ensures
        be_value(bytes.take(i)) <= be_value(bytes),
    decreases bytes.len() - i,
{
    if i == bytes.len() {
        assert(bytes.take(i) =~= bytes);
    } else {
        lemma_be_value_step(bytes, i);
        lemma_be_value_prefix(bytes, i + 1);
    }
}

/// Writes `n` as a 32-byte big-endian word.
pub fn size_word(n: u128) -> (w: [u8; 32])
    ensures
        w@ == word(n as nat),
{
    let mut w = [0u8;32];
    let mut rest: u128 = n;
    let mut i: usize = 32;
    while i > 0
        invariant
            i <= 32,
            rest as nat == high_part(n as nat, (32 - i) as nat),
            w@.subrange(i as int, 32) == be_bytes(n as nat, (32 - i) as nat),
        decreases i,
    {
        proof {
            lemma_be_bytes_prepend(n as nat, (32 - i) as nat);
            lemma_be_bytes_len(n as nat, (32 - i) as nat);
        }
        let ghost before = w@;
        i -= 1;
        w[i] = (rest % 256) as u8;
        rest = rest / 256;
        assert(w@.subrange(i as int, 32) =~= seq![before[i as int]].update(0, w@[i as int])
            + before.subrange(i + 1, 32));
    }
    assert(w@.subrange(0, 32) =~= w@);
    w
}

/// Reads the word at byte `at` of `data` as a size: `None` where the word
/// does not lie within `data` or its number does not fit `usize`.
pub fn read_size(data: &[u8], at: usize) -> (size: Option<usize>)
    ensures
        match size {
            Some(n) => size_at(data@, at as nat) == Some(n as nat),
            None => size_at(data@, at as nat) is None,
        },
{
    if data.len() < 32 || at > data.len() - 32 {
        return None;
    }
    let ghost w = word_at(data@, at as nat);
    let mut acc: usize = 0;
    let mut i: usize = 0;
    while i < 32
        invariant
            i <= 32,
            at + 32 <= data.len(),
            w == word_at(data@, at as nat),
            acc as nat == be_value(w.take(i as int)),
        decreases 32 - i,
    {
        let b = data[at + i];
        proof {
            lemma_be_value_step(w, i as int);
            lemma_be_value_prefix(w, i + 1);
        }
        let shifted = match acc.checked_mul(256) {
            Some(m) => m,
            None => {
                return None;
            },
        };
        acc =
        match shifted.checked_add(b as usize) {
            Some(s) => s,
            None => {
                return None;
            },
        };
        i += 1;
    }
    assert(w.take(32) =~= w);
    Some(acc)
}

/// Copies the word at byte `at` of `data`.
pub(crate) fn read_word(data: &[u8], at: usize) -> (w: [u8; 32])
    requires
        at + 32 <= data.len(),
    ensures
        w@ == word_at(data@, at as nat),
{
    let mut w = [0u8;32];
    let mut i: usize = 0;
    while i < 32
        invariant
            i <= 32,
            at + 32 <= data.len(),
            forall|j: int| 0 <= j < i ==> w@[j] == data@[at + j],
        decreases 32 - i,
    {
        w[i] = data[at + i];
        i += 1;
    }
    assert(w@ =~= word_at(data@, at as nat));
    w
}

/// Copies `len` bytes of `data` from byte `from` on.
pub(crate) fn copy_range(data: &[u8], from: usize, len: usize) -> (bytes: Vec<u8>)
    requires
        from + len <= data.len(),
    ensures
        bytes@ == data@.subrange(from as int, from + len),
{
    let mut bytes: Vec<u8> = Vec::new();
    let mut i: usize = 0;
    while i < len
        invariant
            i <= len,
            from + len <= data.len(),
            bytes@ == data@.subrange(from as int, from + i),
        decreases len - i,
    {
        bytes.push(data[from + i]);
        assert(bytes@ =~= data@.subrange(from as int, from + i + 1));
        i += 1;
    }
    bytes
}

/// Appends `src` to `out`.
pub fn append_bytes(out: &mut Vec<u8>, src: &[u8])
    ensures
        final(out)@ == old(out)@ + src@,
{
    let mut i: usize = 0;
    while i < src.len()
        invariant
            i <= src@.len(),
            out@ == old(out)@ + src@.take(i as int),
        decreases src@.len() - i,
    {
        out.push(src[i]);
        assert(out@ =~= old(out)@ + src@.take(i + 1));
        i += 1;
    }
    assert(src@.take(src@.len() as int) =~= src@);
}

/// Appends `count` zero bytes to `out`.
pub fn append_zeros(out: &mut Vec<u8>, count: usize)
    ensures
        final(out)@ == old(out)@ + zeros(count as nat),
{
    let mut i: usize = 0;
    while i < count
        invariant
            i <= count,
            out@ == old(out)@ + zeros(i as nat),
        decreases count - i,
    {
        out.push(0u8);
        assert(out@ =~= old(out)@ + zeros((i + 1) as nat));
        i += 1;
    }
}

} // verus!
