//! Byte-level primitives: endianness-aware integer encoding and decoding,
//! NUL-terminated strings, and alignment of stream positions.

use vstd::prelude::*;

use crate::elf::{Class, ElfError, Endian, spec_class_size};

verus! {

/// Value of a byte sequence read as a little-endian integer
/// (the first byte is the least significant one).
pub open spec fn le_val(s: Seq<u8>) -> nat
    decreases s.len(),
{
    if s.len() == 0 {
        0
    } else {
        (s[0] + 256 * le_val(s.drop_first())) as nat
    }
}

/// Value of a byte sequence read as a big-endian integer
/// (the last byte is the least significant one).
pub open spec fn be_val(s: Seq<u8>) -> nat
    decreases s.len(),
{
    if s.len() == 0 {
        0
    } else {
        (be_val(s.drop_last()) * 256 + s.last()) as nat
    }
}

/// 256 to the n-th power: the number of values an n-byte field can hold.
pub open spec fn pow256(n: nat) -> nat
    decreases n,
{
    if n == 0 {
        1
    } else {
        256 * pow256((n - 1) as nat)
    }
}

/// Little-endian encoding of `v` into exactly `n` bytes (modulo 256^n).
pub open spec fn le_bytes(v: nat, n: nat) -> Seq<u8>
    decreases n,
{
    if n == 0 {
        Seq::empty()
    } else {
        seq![(v % 256) as u8] + le_bytes(v / 256, (n - 1) as nat)
    }
}

/// Big-endian encoding of `v` into exactly `n` bytes (modulo 256^n).
pub open spec fn be_bytes(v: nat, n: nat) -> Seq<u8>
    decreases n,
{
    if n == 0 {
        Seq::empty()
    } else {
        be_bytes(v / 256, (n - 1) as nat) + seq![(v % 256) as u8]
    }
}

/// Value of a byte sequence in the given byte order.
pub open spec fn word_val(s: Seq<u8>, en: Endian) -> nat {
    match en {
        Endian::Little => le_val(s),
        Endian::Big => be_val(s),
    }
}

/// Encoding of `v` into exactly `n` bytes in the given byte order
/// (modulo 256^n).
pub open spec fn word_bytes(v: nat, n: nat, en: Endian) -> Seq<u8> {
    match en {
        Endian::Little => le_bytes(v, n),
        Endian::Big => be_bytes(v, n),
    }
}

pub proof fn lemma_pow256()
    ensures
        pow256(0) == 1,
        pow256(1) == 0x100,
        pow256(2) == 0x10000,
        pow256(3) == 0x1000000,
        pow256(4) == 0x100000000,
        pow256(5) == 0x10000000000,
        pow256(6) == 0x1000000000000,
        pow256(7) == 0x100000000000000,
        pow256(8) == 0x10000000000000000,
        forall|a: nat, b: nat| a <= b ==> #[trigger] pow256(a) <= #[trigger] pow256(b),
{
    assert(pow256(0) == 1);
    assert(pow256(1) == 0x100);
    assert(pow256(2) == 0x10000);
    assert(pow256(3) == 0x1000000);
    assert(pow256(4) == 0x100000000);
    assert(pow256(5) == 0x10000000000);
    assert(pow256(6) == 0x1000000000000);
    assert(pow256(7) == 0x100000000000000);
    assert(pow256(8) == 0x10000000000000000);
    assert forall|a: nat, b: nat| a <= b implies #[trigger] pow256(a) <= #[trigger] pow256(b) by {
        lemma_pow256_monotone(a, b);
    }
}

pub proof fn lemma_pow256_monotone(a: nat, b: nat)
    requires
        a <= b,
    ensures
        pow256(a) <= pow256(b),
        pow256(b) > 0,
    decreases b,
{
    if b > 0 {
        if a == b {
            lemma_pow256_monotone((b - 1) as nat, (b - 1) as nat);
        } else {
            lemma_pow256_monotone(a, (b - 1) as nat);
        }
    }
}

/// A byte sequence's value fits in as many bytes as it has.
pub proof fn lemma_word_val_bound(s: Seq<u8>, en: Endian)
    ensures
        word_val(s, en) < pow256(s.len()),
    decreases s.len(),
{
    if s.len() == 0 {
    } else {
        match en {
            Endian::Little => {
                lemma_word_val_bound(s.drop_first(), en);
                assert(le_val(s) == s[0] + 256 * le_val(s.drop_first()));
                assert(256 * le_val(s.drop_first()) <= 256 * (pow256(s.drop_first().len()) - 1));
            },
            Endian::Big => {
                lemma_word_val_bound(s.drop_last(), en);
                assert(be_val(s) == be_val(s.drop_last()) * 256 + s.last());
                assert(be_val(s.drop_last()) * 256 <= (pow256(s.drop_last().len()) - 1) * 256);
            },
        }
    }
}

/// Reads one byte at the cursor, advancing it.
pub fn read_u8(data: &Vec<u8>, pos: &mut u64) -> (r: Result<u8, ElfError>)
    ensures
        *old(pos) < data@.len() ==> (r matches Ok(v) && v == data@[*old(pos) as int] && *final(pos) == *old(pos) + 1),
        *old(pos) >= data@.len() ==> r == Err::<u8, ElfError>(ElfError::Truncated) && *final(pos)
            == *old(pos),
{
    if *pos >= data.len() as u64 {
        return Err(ElfError::Truncated);
    }
    let b = data[*pos as usize];
    *pos = *pos + 1;
    Ok(b)
}

/// Reads an `n`-byte integer (`1 <= n <= 8`) at the cursor in the given byte
/// order, advancing the cursor.
pub fn read_word(data: &Vec<u8>, pos: &mut u64, n: usize, en: Endian) -> (r: Result<u64, ElfError>)
    requires
        1 <= n <= 8,
    ensures
        *old(pos) + n <= data@.len() ==> (r matches Ok(v) && v == word_val(
            data@.subrange(*old(pos) as int, *old(pos) + n),
            en,
        ) && *final(pos) == *old(pos) + n),
        *old(pos) + n > data@.len() ==> r == Err::<u64, ElfError>(ElfError::Truncated) && *final(pos) == *old(pos),
{
    let len = data.len();
    if (n as u64) > (len as u64) || *pos > (len as u64) - (n as u64) {
        return Err(ElfError::Truncated);
    }
    let base = *pos as usize;
    proof {
        lemma_pow256();
    }
    let val: u64 = match en {
        Endian::Little => {
            let mut val: u64 = 0;
            let mut i: usize = n;
            while i > 0
                invariant
                    i <= n <= 8,
                    base + n <= data@.len(),
                    base + n <= usize::MAX,
                    val == le_val(data@.subrange(base + i, base + n)),
                    val < pow256((n - i) as nat),
                decreases i,
            {
                i = i - 1;
                let b = data[base + i];
                proof {
                    lemma_pow256();
                    let s = data@.subrange(base + i, base + n);
                    assert(s.drop_first() =~= data@.subrange(base + i + 1, base + n));
                    assert(le_val(s) == b + 256 * val);
                    assert(val * 256 <= (pow256((n - i - 1) as nat) - 1) * 256);
                    assert(pow256((n - i) as nat) <= pow256(8));
                }
                val = val * 256 + (b as u64);
                proof {
                    assert(val < pow256((n - i) as nat));
                }
            }
            proof {
                assert(data@.subrange(base + 0, base + n) =~= data@.subrange(
                    *old(pos) as int,
                    *old(pos) + n,
                ));
            }
            val
        },
        Endian::Big => {
            let mut val: u64 = 0;
            let mut i: usize = 0;
            while i < n
                invariant
                    i <= n <= 8,
                    base + n <= data@.len(),
                    base + n <= usize::MAX,
                    val == be_val(data@.subrange(base as int, base + i)),
                    val < pow256(i as nat),
                decreases n - i,
            {
                let b = data[base + i];
                proof {
                    lemma_pow256();
                    let s = data@.subrange(base as int, base + i + 1);
                    assert(s.drop_last() =~= data@.subrange(base as int, base + i));
                    assert(be_val(s) == val * 256 + b);
                    assert(val * 256 <= (pow256(i as nat) - 1) * 256);
                    assert(pow256((i + 1) as nat) <= pow256(8));
                }
                val = val * 256 + (b as u64);
                i = i + 1;
            }
            proof {
                assert(data@.subrange(base as int, base + n) =~= data@.subrange(
                    *old(pos) as int,
                    *old(pos) + n,
                ));
            }
            val
        },
    };
    *pos = *pos + (n as u64);
    Ok(val)
}

/// Reads a 16-bit integer at the cursor in the given byte order.
pub fn read_u16(data: &Vec<u8>, pos: &mut u64, en: Endian) -> (r: Result<u16, ElfError>)
    ensures
        *old(pos) + 2 <= data@.len() ==> (r matches Ok(v) && v == word_val(
            data@.subrange(*old(pos) as int, *old(pos) + 2),
            en,
        ) && *final(pos) == *old(pos) + 2),
        *old(pos) + 2 > data@.len() ==> r == Err::<u16, ElfError>(ElfError::Truncated) && *final(pos) == *old(pos),
{
    proof {
        lemma_word_val_bound(data@.subrange(*pos as int, *pos + 2), en);
        lemma_pow256();
    }
    match read_word(data, pos, 2, en) {
        Ok(v) => Ok(v as u16),
        Err(e) => Err(e),
    }
}

/// Reads a 32-bit integer at the cursor in the given byte order.
pub fn read_u32(data: &Vec<u8>, pos: &mut u64, en: Endian) -> (r: Result<u32, ElfError>)
    ensures
        *old(pos) + 4 <= data@.len() ==> (r matches Ok(v) && v == word_val(
            data@.subrange(*old(pos) as int, *old(pos) + 4),
            en,
        ) && *final(pos) == *old(pos) + 4),
        *old(pos) + 4 > data@.len() ==> r == Err::<u32, ElfError>(ElfError::Truncated) && *final(pos) == *old(pos),
{
    proof {
        lemma_word_val_bound(data@.subrange(*pos as int, *pos + 4), en);
        lemma_pow256();
    }
    match read_word(data, pos, 4, en) {
        Ok(v) => Ok(v as u32),
        Err(e) => Err(e),
    }
}

/// Reads a class word — 4 bytes under the 32-bit class, widened, or 8 bytes
/// under the 64-bit class — at the cursor in the given byte order.
pub fn read_class(data: &Vec<u8>, pos: &mut u64, class: Class, en: Endian) -> (r: Result<
    u64,
    ElfError,
>)
    ensures
        *old(pos) + spec_class_size(class) <= data@.len() ==> (r matches Ok(v) && v == word_val(
            data@.subrange(*old(pos) as int, *old(pos) + spec_class_size(class)),
            en,
        ) && *final(pos) == *old(pos) + spec_class_size(class)),
        *old(pos) + spec_class_size(class) > data@.len() ==> r == Err::<u64, ElfError>(
            ElfError::Truncated,
        ) && *final(pos) == *old(pos),
{
    match class {
        Class::Class32 => read_word(data, pos, 4, en),
        Class::Class64 => read_word(data, pos, 8, en),
    }
}

/// Reads exactly `n` bytes at the cursor, advancing it.
pub fn read_bytes(data: &Vec<u8>, pos: &mut u64, n: usize) -> (r: Result<Vec<u8>, ElfError>)
    ensures
        *old(pos) + n <= data@.len() ==> (r matches Ok(v) && v@ == data@.subrange(
            *old(pos) as int,
            *old(pos) + n,
        ) && *final(pos) == *old(pos) + n),
        *old(pos) + n > data@.len() ==> r == Err::<Vec<u8>, ElfError>(ElfError::Truncated)
            && *final(pos) == *old(pos),
{
    let len = data.len();
    if (n as u64) > (len as u64) || *pos > (len as u64) - (n as u64) {
        return Err(ElfError::Truncated);
    }
    let base = *pos as usize;
    let mut v: Vec<u8> = Vec::new();
    let mut i: usize = 0;
    while i < n
        invariant
            i <= n,
            base + n <= data@.len(),
            base + n <= usize::MAX,
            v@ =~= data@.subrange(base as int, base + i),
        decreases n - i,
    {
        v.push(data[base + i]);
        proof {
            assert(data@.subrange(base as int, base + i + 1) =~= data@.subrange(
                base as int,
                base + i,
            ).push(data@[base + i]));
        }
        i = i + 1;
    }
    *pos = *pos + (n as u64);
    proof {
        assert(v@ =~= data@.subrange(*old(pos) as int, *old(pos) + n));
    }
    Ok(v)
}

/// Position of the first NUL byte at or after `pos`, or the sequence's
/// length when there is none.
pub open spec fn find_nul(s: Seq<u8>, pos: int) -> int
    decreases s.len() - pos,
{
    if pos < 0 {
        -1
    } else if pos >= s.len() {
        s.len() as int
    } else if s[pos] == 0 {
        pos
    } else {
        find_nul(s, pos + 1)
    }
}

/// The characters of the NUL-terminated string starting at `pos`: each byte
/// before the terminator, read as one character.
pub open spec fn cstr_chars(s: Seq<u8>, pos: int) -> Seq<char> {
    s.subrange(pos, find_nul(s, pos)).map(|ci: int, cb: u8| cb as char)
}

pub proof fn lemma_find_nul(s: Seq<u8>, pos: int)
    requires
        0 <= pos <= s.len(),
    ensures
        pos <= find_nul(s, pos) <= s.len(),
        find_nul(s, pos) < s.len() ==> s[find_nul(s, pos)] == 0,
        forall|i: int| pos <= i < find_nul(s, pos) ==> s[i] != 0,
    decreases s.len() - pos,
{
    if pos < s.len() && s[pos] != 0 {
        lemma_find_nul(s, pos + 1);
    }
}

/// Relies on String::push: appends one character at the end.
#[verifier::external_body]
fn push_char(s: &mut String, c: char)
    ensures
        final(s)@ == old(s)@.push(c),
{
    s.push(c);
}

/// Reads a NUL-terminated string of arbitrary length starting at the cursor,
/// leaving the cursor just past the terminator. Each byte is read as one
/// character. A string that the input ends before terminating is an error.
pub fn read_cstr(data: &Vec<u8>, pos: &mut u64) -> (r: Result<String, ElfError>)
    requires
        *old(pos) <= data@.len(),
    ensures
        find_nul(data@, *old(pos) as int) < data@.len() ==> (r matches Ok(v) && v@ == cstr_chars(
            data@,
            *old(pos) as int,
        ) && *final(pos) == find_nul(data@, *old(pos) as int) + 1),
        find_nul(data@, *old(pos) as int) == data@.len() ==> r == Err::<String, ElfError>(
            ElfError::Truncated,
        ) && *final(pos) == *old(pos),
{
    let ghost p0 = *pos as int;
    let len = data.len();
    let mut s = String::new();
    let mut j: usize = *pos as usize;
    proof {
        lemma_find_nul(data@, p0);
    }
    while j < len && data[j] != 0
        invariant
            0 <= p0 <= j <= data@.len(),
            len == data@.len(),
            find_nul(data@, p0) == find_nul(data@, j as int),
            s@ =~= data@.subrange(p0, j as int).map(|ci: int, cb: u8| cb as char),
        decreases data@.len() - j,
    {
        let b = data[j];
        push_char(&mut s, b as char);
        proof {
            assert(data@.subrange(p0, j as int + 1) =~= data@.subrange(p0, j as int).push(b));
            assert(data@.subrange(p0, j as int + 1).map(|ci: int, cb: u8| cb as char)
                =~= data@.subrange(p0, j as int).map(|ci: int, cb: u8| cb as char).push(b as char));
        }
        j = j + 1;
    }
    if j >= len {
        return Err(ElfError::Truncated);
    }
    proof {
        assert(find_nul(data@, j as int) == j);
        assert(s@ =~= cstr_chars(data@, p0));
    }
    *pos = (j + 1) as u64;
    Ok(s)
}

/// The bytes of a name: each character narrowed to one byte.
pub open spec fn name_bytes(name: Seq<char>) -> Seq<u8> {
    name.map(|ci: int, c: char| c as u8)
}

/// A name written as a NUL-terminated string.
pub open spec fn cstr_bytes(name: Seq<char>) -> Seq<u8> {
    name_bytes(name).push(0)
}

/// `bs` written over `s` at position `pos`, as a seekable sink does it: bytes
/// under the write are replaced, bytes past the old end become zero padding,
/// the rest stay.
pub open spec fn store_at(s: Seq<u8>, pos: int, bs: Seq<u8>) -> Seq<u8> {
    Seq::new(
        if s.len() >= pos + bs.len() {
            s.len()
        } else {
            (pos + bs.len()) as nat
        },
        |i: int|
            if pos <= i < pos + bs.len() {
                bs[i - pos]
            } else if i < s.len() {
                s[i]
            } else {
                0
            },
    )
}

/// An encoded word has exactly the asked-for width.
pub proof fn lemma_word_bytes_len(v: nat, n: nat, en: Endian)
    ensures
        word_bytes(v, n, en).len() == n,
    decreases n,
{
    if n > 0 {
        lemma_word_bytes_len(v / 256, (n - 1) as nat, en);
    }
}

/// Big-endian encoding is the reverse of little-endian encoding.
pub proof fn lemma_be_bytes_reverse(v: nat, n: nat)
    ensures
        be_bytes(v, n) == le_bytes(v, n).reverse(),
    decreases n,
{
    if n == 0 {
        assert(be_bytes(v, n) =~= le_bytes(v, n).reverse());
    } else {
        lemma_be_bytes_reverse(v / 256, (n - 1) as nat);
        lemma_word_bytes_len(v / 256, (n - 1) as nat, Endian::Little);
        lemma_word_bytes_len(v / 256, (n - 1) as nat, Endian::Big);
        assert(be_bytes(v, n) =~= le_bytes(v, n).reverse());
    }
}

/// Encodes `v` into exactly `n` bytes in the given byte order.
pub fn word_to_vec(v: u64, n: usize, en: Endian) -> (r: Vec<u8>)
    requires
        n <= 8,
    ensures
        r@ == word_bytes(v as nat, n as nat, en),
{
    let ghost le_full = le_bytes(v as nat, n as nat);
    proof {
        lemma_word_bytes_len(v as nat, n as nat, Endian::Little);
    }
    let mut digits: Vec<u8> = Vec::new();
    let mut w: u64 = v;
    let mut i: usize = 0;
    while i < n
        invariant
            i <= n <= 8,
            le_full == le_bytes(v as nat, n as nat),
            le_full.len() == n,
            le_bytes(w as nat, (n - i) as nat) == le_full.subrange(i as int, n as int),
            digits@ =~= le_full.subrange(0, i as int),
        decreases n - i,
    {
        let d: u8 = (w % 256) as u8;
        proof {
            let sfx = le_full.subrange(i as int, n as int);
            assert(sfx == le_bytes(w as nat, (n - i) as nat));
            assert(sfx[0] == (w as nat % 256) as u8);
            assert(le_full[i as int] == d);
            assert(le_full.subrange(0, i as int).push(d) =~= le_full.subrange(0, i as int + 1));
            assert(le_bytes((w as nat) / 256, (n - i - 1) as nat) =~= sfx.drop_first());
            assert(sfx.drop_first() =~= le_full.subrange(i as int + 1, n as int));
        }
        digits.push(d);
        w = w / 256;
        i = i + 1;
    }
    proof {
        assert(le_full.subrange(0, n as int) =~= le_full);
    }
    match en {
        Endian::Little => digits,
        Endian::Big => {
            proof {
                lemma_be_bytes_reverse(v as nat, n as nat);
            }
            let mut r: Vec<u8> = Vec::new();
            let mut i: usize = 0;
            while i < n
                invariant
                    i <= n,
                    digits@.len() == n,
                    digits@ == le_bytes(v as nat, n as nat),
                    r@ =~= digits@.reverse().subrange(0, i as int),
                decreases n - i,
            {
                r.push(digits[n - 1 - i]);
                proof {
                    assert(digits@.reverse()[i as int] == digits@[n - 1 - i]);
                    assert(digits@.reverse().subrange(0, i as int).push(digits@[n - 1 - i])
                        =~= digits@.reverse().subrange(0, i as int + 1));
                }
                i = i + 1;
            }
            proof {
                assert(digits@.reverse().subrange(0, n as int) =~= digits@.reverse());
            }
            r
        },
    }
}

/// Writes the bytes of `bs` at the cursor over a growable output buffer,
/// zero-padding any gap between the buffer's end and the cursor, and
/// advancing the cursor.
pub fn put_bytes(out: &mut Vec<u8>, pos: &mut u64, bs: &Vec<u8>) -> (r: Result<(), ElfError>)
    ensures
        *old(pos) + bs@.len() <= usize::MAX ==> (r == Ok::<(), ElfError>(()) && final(out)@
            == store_at(old(out)@, *old(pos) as int, bs@) && *final(pos) == *old(pos)
            + bs@.len()),
        *old(pos) + bs@.len() > usize::MAX ==> (r == Err::<(), ElfError>(ElfError::TooLarge)
            && final(out)@ == old(out)@ && *final(pos) == *old(pos)),
{
    let n = bs.len();
    if *pos > (usize::MAX - n) as u64 {
        return Err(ElfError::TooLarge);
    }
    let p = *pos as usize;
    let ghost out0 = out@;
    while out.len() < p
        invariant
            p + n <= usize::MAX,
            out@.len() >= out0.len(),
            out0.len() < p ==> out@.len() <= p,
            out0.len() >= p ==> out@ == out0,
            forall|i: int| 0 <= i < out0.len() ==> out@[i] == out0[i],
            forall|i: int| out0.len() <= i < out@.len() ==> out@[i] == 0,
        decreases p - out@.len(),
    {
        out.push(0);
    }
    proof {
        assert(out@ =~= store_at(out0, p as int, bs@.subrange(0, 0)));
    }
    let mut i: usize = 0;
    while i < n
        invariant
            i <= n,
            n == bs@.len(),
            p + n <= usize::MAX,
            out@ == store_at(out0, p as int, bs@.subrange(0, i as int)),
        decreases n - i,
    {
        let idx = p + i;
        let b = bs[i];
        proof {
            assert(out@.len() == store_at(out0, p as int, bs@.subrange(0, i as int)).len());
            assert(out@.len() >= p + i);
        }
        if idx < out.len() {
            out[idx] = b;
        } else {
            proof {
                assert(idx == out@.len());
            }
            out.push(b);
        }
        proof {
            assert(out@ =~= store_at(out0, p as int, bs@.subrange(0, i as int + 1)));
        }
        i = i + 1;
    }
    proof {
        assert(bs@.subrange(0, n as int) =~= bs@);
    }
    *pos = *pos + n as u64;
    Ok(())
}

/// Writes an `n`-byte integer at the cursor in the given byte order.
pub fn write_word(out: &mut Vec<u8>, pos: &mut u64, v: u64, n: usize, en: Endian) -> (r: Result<
    (),
    ElfError,
>)
    requires
        n <= 8,
    ensures
        *old(pos) + n <= usize::MAX ==> (r == Ok::<(), ElfError>(()) && final(out)@ == store_at(
            old(out)@,
            *old(pos) as int,
            word_bytes(v as nat, n as nat, en),
        ) && *final(pos) == *old(pos) + n),
        *old(pos) + n > usize::MAX ==> (r == Err::<(), ElfError>(ElfError::TooLarge) && final(out)@ == old(out)@ && *final(pos) == *old(pos)),
{
    let bs = word_to_vec(v, n, en);
    proof {
        lemma_word_bytes_len(v as nat, n as nat, en);
    }
    put_bytes(out, pos, &bs)
}

/// Writes a class word — 4 bytes under the 32-bit class, narrowed, or 8
/// bytes under the 64-bit class — at the cursor in the given byte order.
pub fn write_class(out: &mut Vec<u8>, pos: &mut u64, v: u64, class: Class, en: Endian) -> (r:
    Result<(), ElfError>)
    ensures
        *old(pos) + spec_class_size(class) <= usize::MAX ==> (r == Ok::<(), ElfError>(())
            && final(out)@ == store_at(
            old(out)@,
            *old(pos) as int,
            word_bytes(v as nat, spec_class_size(class), en),
        ) && *final(pos) == *old(pos) + spec_class_size(class)),
        *old(pos) + spec_class_size(class) > usize::MAX ==> (r == Err::<(), ElfError>(
            ElfError::TooLarge,
        ) && final(out)@ == old(out)@ && *final(pos) == *old(pos)),
{
    match class {
        Class::Class32 => write_word(out, pos, v, 4, en),
        Class::Class64 => write_word(out, pos, v, 8, en),
    }
}

/// Appends an `n`-byte integer in the given byte order at the end of a
/// buffer being built.
pub fn append_word(out: &mut Vec<u8>, v: u64, n: usize, en: Endian)
    requires
        n <= 8,
    ensures
        final(out)@ == old(out)@ + word_bytes(v as nat, n as nat, en),
{
    let mut bs = word_to_vec(v, n, en);
    out.append(&mut bs);
}

/// Appends a class word at the end of a buffer being built.
pub fn append_class(out: &mut Vec<u8>, v: u64, class: Class, en: Endian)
    ensures
        final(out)@ == old(out)@ + word_bytes(v as nat, spec_class_size(class), en),
{
    match class {
        Class::Class32 => append_word(out, v, 4, en),
        Class::Class64 => append_word(out, v, 8, en),
    }
}

/// Appends a name as a NUL-terminated string at the end of a buffer being
/// built, each character narrowed to one byte.
pub fn write_cstr(out: &mut Vec<u8>, name: &String)
    ensures
        final(out)@ == old(out)@ + cstr_bytes(name@),
{
    let ghost out0 = out@;
    let s = name.as_str();
    let n = s.unicode_len();
    let mut i: usize = 0;
    while i < n
        invariant
            i <= n,
            n == s@.len(),
            s@ == name@,
            out@ =~= out0 + name_bytes(name@.subrange(0, i as int)),
        decreases n - i,
    {
        let c = s.get_char(i);
        out.push(#[verifier::truncate] (c as u8));
        proof {
            assert(name_bytes(name@.subrange(0, i as int + 1)) =~= name_bytes(
                name@.subrange(0, i as int),
            ).push(c as u8));
        }
        i = i + 1;
    }
    out.push(0);
    proof {
        assert(name@.subrange(0, n as int) =~= name@);
        assert(out@ =~= out0 + cstr_bytes(name@));
    }
}

/// An owned copy of a byte buffer.
pub fn copy_bytes(v: &Vec<u8>) -> (r: Vec<u8>)
    ensures
        r@ == v@,
{
    let mut r: Vec<u8> = Vec::new();
    let n = v.len();
    let mut i: usize = 0;
    while i < n
        invariant
            i <= n,
            n == v@.len(),
            r@ =~= v@.subrange(0, i as int),
        decreases n - i,
    {
        r.push(v[i]);
        proof {
            assert(v@.subrange(0, i as int + 1) =~= v@.subrange(0, i as int).push(v@[i as int]));
        }
        i = i + 1;
    }
    proof {
        assert(v@.subrange(0, n as int) =~= v@);
    }
    r
}

/// Moves the cursor forward to the next multiple of `a`, or fails when that
/// position does not fit in the cursor's width.
pub fn align_to(pos: &mut u64, a: u64) -> (r: Result<(), ElfError>)
    ensures
        spec_align(*old(pos) as int, a as int) <= u64::MAX ==> (r == Ok::<(), ElfError>(())
            && *final(pos) == spec_align(*old(pos) as int, a as int)),
        spec_align(*old(pos) as int, a as int) > u64::MAX ==> (r == Err::<(), ElfError>(
            ElfError::TooLarge,
        ) && *final(pos) == *old(pos)),
{
    if a == 0 {
        return Ok(());
    }
    let rem = *pos % a;
    if rem == 0 {
        return Ok(());
    }
    if *pos > u64::MAX - (a - rem) {
        return Err(ElfError::TooLarge);
    }
    *pos = *pos + (a - rem);
    Ok(())
}

/// Rounds a position up to the next multiple of `a`, or reports that the
/// result does not fit.
pub fn align_checked(pos: u64, a: u64) -> (r: Option<u64>)
    ensures
        spec_align(pos as int, a as int) <= u64::MAX ==> r == Some(
            spec_align(pos as int, a as int) as u64,
        ),
        spec_align(pos as int, a as int) > u64::MAX ==> r is None,
{
    if a == 0 {
        return Some(pos);
    }
    let rem = pos % a;
    if rem == 0 {
        return Some(pos);
    }
    if pos > u64::MAX - (a - rem) {
        return None;
    }
    Some(pos + (a - rem))
}

/// A position rounded up to the next multiple of `a` (`a == 0` means no
/// alignment).
pub open spec fn spec_align(pos: int, a: int) -> int {
    if a == 0 || pos % a == 0 {
        pos
    } else {
        pos + (a - pos % a)
    }
}

/// Rounds a stream position up to an alignment boundary.
///
/// When `alignment` is zero or `pos` is already a multiple of it, `pos` is
/// returned unchanged; otherwise the result is the smallest multiple of
/// `alignment` strictly greater than `pos`.
pub fn align(pos: u64, alignment: u64) -> (r: u64)
    requires
        alignment == 0 || pos % alignment == 0 || pos + (alignment - pos % alignment)
            <= u64::MAX,
    ensures
        r == spec_align(pos as int, alignment as int),
        alignment == 0 || pos % alignment == 0 ==> r == pos,
        !(alignment == 0 || pos % alignment == 0) ==> r > pos && r % alignment == 0
            && forall|m: u64| pos < m < r ==> #[trigger] (m % alignment) != 0,
{
    if alignment == 0 {
        return pos;
    }
    if pos % alignment == 0 {
        return pos;
    }
    let r = pos + (alignment - pos % alignment);
    proof {
        lemma_align_properties(pos as int, alignment as int);
    }
    r
}

/// Aligning never moves a position backwards.
pub proof fn lemma_align_nonneg(pos: int, a: int)
    requires
        0 <= a,
    ensures
        pos <= spec_align(pos, a),
{
    if a > 0 && pos % a != 0 {
        vstd::arithmetic::div_mod::lemma_mod_bound(pos, a);
    }
}

/// The result of `spec_align` with a nonzero alignment is the smallest
/// multiple of the alignment that is not below `pos`.
pub proof fn lemma_align_properties(pos: int, a: int)
    requires
        0 <= pos,
        0 < a,
    ensures
        pos <= spec_align(pos, a),
        spec_align(pos, a) % a == 0,
        forall|m: int| pos <= m < spec_align(pos, a) ==> #[trigger] (m % a) != 0,
        spec_align(pos, a) < pos + a,
{
    let rem = pos % a;
    vstd::arithmetic::div_mod::lemma_fundamental_div_mod(pos, a);
    let q = pos / a;
    vstd::arithmetic::div_mod::lemma_mod_bound(pos, a);
    if rem == 0 {
        assert(spec_align(pos, a) == pos);
        assert(pos % a == 0);
        assert(forall|m: int| pos <= m < spec_align(pos, a) ==> #[trigger] (m % a) != 0);
    } else {
        let r = pos + (a - rem);
        assert(r == (q + 1) * a) by (nonlinear_arith)
            requires
                pos == a * q + rem,
                r == pos + (a - rem),
        ;
        assert(r % a == 0) by {
            vstd::arithmetic::div_mod::lemma_mod_multiples_basic(q + 1, a);
        }
        assert forall|m: int| pos <= m < r implies #[trigger] (m % a) != 0 by {
            if m % a == 0 {
                vstd::arithmetic::div_mod::lemma_fundamental_div_mod(m, a);
                let qm = m / a;
                assert(false) by (nonlinear_arith)
                    requires
                        m == a * qm,
                        pos == a * q + rem,
                        r == pos + (a - rem),
                        0 < rem < a,
                        pos <= m < r,
                ;
            }
        }
    }
}

} // verus!
