//! `sourisdb`: a size-optimised way of transmitting and storing a key-value store.
//!
//! The verified core holds the byte-level formats: a read-only [`utilities::cursor::Cursor`],
//! variable-size [`types::integer::Integer`]s, packed [`utilities::bits::Bits`], the compressions
//! used for binary blobs and the huffman coder that backs them, the [`values::Value`]s of a
//! store and the [`store::Store`] itself with its serialised form. [`sourisd`] holds what the
//! server decides about its named databases, and [`daddy`] a second, smaller format.
pub mod client;
pub mod json;
pub mod daddy;
pub mod net;
pub mod sourisd;
pub mod store;
pub mod types;
pub mod utilities;
pub mod values;
pub mod version;

use vstd::prelude::*;

verus! {

/// Calls `String::push`, which appends one character.
#[verifier::external_body]
pub(crate) fn string_push(s: &mut String, c: char)
    ensures
        final(s)@ == old(s)@.push(c),
{
    s.push(c);
}

/// The uppercase hexadecimal digit of a number below 16.
pub open spec fn hex_digit(d: nat) -> char {
    if d < 10 {
        ('0' as u32 + d) as char
    } else {
        ('A' as u32 + (d - 10)) as char
    }
}

/// A byte written as `{:#X}` does: `0x`, then its uppercase hexadecimal digits without
/// leading zeros.
pub open spec fn hex_byte(b: u8) -> Seq<char> {
    if b < 16 {
        seq!['0', 'x', hex_digit(b as nat)]
    } else {
        seq!['0', 'x', hex_digit((b / 16) as nat), hex_digit((b % 16) as nat)]
    }
}

/// The bytes written with [`hex_byte`], separated by `", "`.
pub open spec fn hex_list(b: Seq<u8>) -> Seq<char>
    decreases b.len(),
{
    if b.len() == 0 {
        Seq::empty()
    } else if b.len() == 1 {
        hex_byte(b[0])
    } else {
        hex_list(b.drop_last()) + seq![',', ' '] + hex_byte(b.last())
    }
}

fn push_hex_digit(out: &mut String, d: u8)
    requires
        d < 16,
    ensures
        final(out)@ == old(out)@.push(hex_digit(d as nat)),
{
    let c = if d < 10 {
        ('0' as u8 + d) as char
    } else {
        ('A' as u8 + (d - 10)) as char
    };
    string_push(out, c);
}

fn push_hex_byte(out: &mut String, b: u8)
    ensures
        final(out)@ == old(out)@ + hex_byte(b),
{
    string_push(out, '0');
    string_push(out, 'x');
    if b < 16 {
        push_hex_digit(out, b);
    } else {
        push_hex_digit(out, b / 16);
        push_hex_digit(out, b % 16);
    }
    assert(out@ =~= old(out)@ + hex_byte(b));
}

/// The bytes as a bracketed, comma-separated list of `0x..` uppercase hexadecimal numbers,
/// e.g. `[0x1, 0xFF]`.
pub fn display_bytes_as_hex_array(b: &[u8]) -> (out: String)
    ensures
        out@ == seq!['['] + hex_list(b@) + seq![']'],
{
    let mut out = String::new();
    string_push(&mut out, '[');
    let mut i: usize = 0;
    while i < b.len()
        invariant
            i <= b@.len(),
            out@ == seq!['['] + hex_list(b@.subrange(0, i as int)),
        decreases b.len() - i,
    {
        proof {
            assert(b@.subrange(0, i as int + 1).drop_last() =~= b@.subrange(0, i as int));
        }
        if i > 0 {
            string_push(&mut out, ',');
            string_push(&mut out, ' ');
        }
        push_hex_byte(&mut out, b[i]);
        i = i + 1;
        proof {
            let t = b@.subrange(0, i as int);
            if i == 1 {
                assert(out@ =~= seq!['['] + hex_list(t));
            } else {
                assert(out@ =~= seq!['['] + hex_list(t));
            }
        }
    }
    string_push(&mut out, ']');
    assert(b@.subrange(0, i as int) =~= b@);
    out
}

} // verus!
