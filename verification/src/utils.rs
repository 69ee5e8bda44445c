//! Byte-level helpers shared by the index codec and the store: fixed-width
//! little-endian fields, 32-byte ids, and hexadecimal rendering.

use vstd::prelude::*;

verus! {

use vstd::bytes::{spec_u64_from_le_bytes, spec_u64_to_le_bytes, u64_from_le_bytes, u64_to_le_bytes};

/// Append a `u64` to a buffer in little-endian byte order.
pub fn write_u64(buf: &mut Vec<u8>, value: u64)
    ensures
        final(buf)@ == old(buf)@ + spec_u64_to_le_bytes(value),
{
    let mut bytes = u64_to_le_bytes(value);
    buf.append(&mut bytes);
}

/// Append a 32-byte id to a buffer.
pub fn write_32_bytes(buf: &mut Vec<u8>, bytes: &[u8; 32])
    ensures
        final(buf)@ == old(buf)@ + bytes@,
{
    buf.extend_from_slice(bytes.as_slice());
}

/// Read the little-endian `u64` that starts at `pos`.
pub fn read_u64(buf: &Vec<u8>, pos: usize) -> (r: u64)
    requires
        pos + 8 <= buf@.len(),
    ensures
        r == spec_u64_from_le_bytes(buf@.subrange(pos as int, pos as int + 8)),
{
    let n = buf.len();
    let s = vstd::slice::slice_subrange(buf.as_slice(), pos, pos + 8);
    u64_from_le_bytes(s)
}

/// Read the 32-byte id that starts at `pos`.
pub fn read_32_bytes(buf: &Vec<u8>, pos: usize) -> (r: [u8; 32])
    requires
        pos + 32 <= buf@.len(),
    ensures
        r@ == buf@.subrange(pos as int, pos as int + 32),
{
    let n = buf.len();
    let mut out: [u8; 32] = [0; 32];
    let mut i: usize = 0;
    while i < 32
        invariant
            pos + 32 <= n == buf@.len(),
            i <= 32,
            out@.len() == 32,
            forall|j: int| 0 <= j < i ==> out@[j] == buf@[pos + j],
        decreases 32 - i,
    {
        out[i] = buf[pos + i];
        i = i + 1;
    }
    proof {
        assert(out@ =~= buf@.subrange(pos as int, pos as int + 32));
    }
    out
}

/// Whether two 32-byte ids hold the same bytes.
pub fn ids_equal(a: &[u8; 32], b: &[u8; 32]) -> (r: bool)
    ensures
        r == (a@ == b@),
{
    let mut i: usize = 0;
    while i < 32
        invariant
            i <= 32,
            forall|j: int| 0 <= j < i ==> a@[j] == b@[j],
        decreases 32 - i,
    {
        if a[i] != b[i] {
            return false;
        }
        i = i + 1;
    }
    proof {
        assert(a@ =~= b@);
    }
    true
}

/// The character a hexadecimal digit prints as, lower case.
pub open spec fn hex_digit_char(d: int) -> char {
    if d == 0 {
        '0'
    } else if d == 1 {
        '1'
    } else if d == 2 {
        '2'
    } else if d == 3 {
        '3'
    } else if d == 4 {
        '4'
    } else if d == 5 {
        '5'
    } else if d == 6 {
        '6'
    } else if d == 7 {
        '7'
    } else if d == 8 {
        '8'
    } else if d == 9 {
        '9'
    } else if d == 10 {
        'a'
    } else if d == 11 {
        'b'
    } else if d == 12 {
        'c'
    } else if d == 13 {
        'd'
    } else if d == 14 {
        'e'
    } else {
        'f'
    }
}

/// How one byte prints in the chunk listing: one hexadecimal digit for
/// values below 16, two digits otherwise (no zero padding).
pub open spec fn byte_hex_chars(b: u8) -> Seq<char> {
    if b < 16 {
        seq![hex_digit_char(b as int)]
    } else {
        seq![hex_digit_char(b as int / 16), hex_digit_char(b as int % 16)]
    }
}

/// The unpadded hexadecimal rendering of a byte sequence.
pub open spec fn bytes_hex_chars(bytes: Seq<u8>) -> Seq<char>
    decreases bytes.len(),
{
    if bytes.len() == 0 {
        Seq::empty()
    } else {
        byte_hex_chars(bytes[0]) + bytes_hex_chars(bytes.drop_first())
    }
}

fn push_hex_digit(s: &mut String, d: u8)
    requires
        d < 16,
    ensures
        final(s)@ == old(s)@.push(hex_digit_char(d as int)),
{
    let c: &str = if d == 0 {
        "0"
    } else if d == 1 {
        "1"
    } else if d == 2 {
        "2"
    } else if d == 3 {
        "3"
    } else if d == 4 {
        "4"
    } else if d == 5 {
        "5"
    } else if d == 6 {
        "6"
    } else if d == 7 {
        "7"
    } else if d == 8 {
        "8"
    } else if d == 9 {
        "9"
    } else if d == 10 {
        "a"
    } else if d == 11 {
        "b"
    } else if d == 12 {
        "c"
    } else if d == 13 {
        "d"
    } else if d == 14 {
        "e"
    } else {
        "f"
    };
    proof {
        reveal_strlit("0");
        reveal_strlit("1");
        reveal_strlit("2");
        reveal_strlit("3");
        reveal_strlit("4");
        reveal_strlit("5");
        reveal_strlit("6");
        reveal_strlit("7");
        reveal_strlit("8");
        reveal_strlit("9");
        reveal_strlit("a");
        reveal_strlit("b");
        reveal_strlit("c");
        reveal_strlit("d");
        reveal_strlit("e");
        reveal_strlit("f");
        assert(c@ =~= seq![hex_digit_char(d as int)]);
    }
    s.append(c);
    proof {
        assert(final(s)@ =~= old(s)@.push(hex_digit_char(d as int)));
    }
}

/// Render bytes as unpadded lower-case hexadecimal, one or two digits per
/// byte, exactly as the chunk listing prints them.
pub fn bytes_to_hex(bytes: Vec<u8>) -> (r: String)
    ensures
        r@ == bytes_hex_chars(bytes@),
{
    let mut s = String::new();
    let mut i: usize = 0;
    while i < bytes.len()
        invariant
            i <= bytes@.len(),
            s@ == bytes_hex_chars(bytes@.subrange(0, i as int)),
        decreases bytes@.len() - i,
    {
        let ghost pre = bytes@.subrange(0, i as int);
        let b = bytes[i];
        if b < 16 {
            push_hex_digit(&mut s, b);
        } else {
            push_hex_digit(&mut s, b / 16);
            push_hex_digit(&mut s, b % 16);
        }
        i = i + 1;
        proof {
            lemma_bytes_hex_chars_push(bytes@.subrange(0, i as int));
            assert(bytes@.subrange(0, i as int).drop_last() =~= pre);
            assert(bytes@.subrange(0, i as int).last() == b);
        }
    }
    proof {
        assert(bytes@.subrange(0, bytes@.len() as int) =~= bytes@);
    }
    s
}

/// Appending one byte extends the hexadecimal rendering by that byte's digits.
proof fn lemma_bytes_hex_chars_push(bytes: Seq<u8>)
    requires
        bytes.len() >= 1,
    ensures
        bytes_hex_chars(bytes) == bytes_hex_chars(bytes.drop_last()) + byte_hex_chars(
            bytes.last(),
        ),
    decreases bytes.len(),
{
    if bytes.len() == 1 {
        assert(bytes.drop_first() =~= Seq::<u8>::empty());
        assert(bytes.drop_last() =~= Seq::<u8>::empty());
        assert(bytes_hex_chars(bytes) =~= byte_hex_chars(bytes[0]));
        assert(bytes_hex_chars(bytes.drop_last()) + byte_hex_chars(bytes.last()) =~= byte_hex_chars(
            bytes[0],
        ));
    } else {
        lemma_bytes_hex_chars_push(bytes.drop_first());
        assert(bytes.drop_first().drop_last() =~= bytes.drop_last().drop_first());
        assert(bytes.drop_first().last() == bytes.last());
        assert(bytes_hex_chars(bytes.drop_last()) == byte_hex_chars(bytes[0]) + bytes_hex_chars(
            bytes.drop_last().drop_first(),
        ));
        assert(bytes_hex_chars(bytes) =~= bytes_hex_chars(bytes.drop_last()) + byte_hex_chars(
            bytes.last(),
        ));
    }
}

} // verus!
