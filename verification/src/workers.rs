use byteorder::{BigEndian, ReadBytesExt, WriteBytesExt};
use std::io::Cursor;
use vstd::prelude::*;
use vstd::std_specs::iter::IteratorSpec;

verus! {

/// The eight bytes of `n` in big-endian order, most significant byte first.
pub open spec fn be_bytes(n: u64) -> Seq<u8> {
    seq![
        (n >> 56u64) as u8,
        (n >> 48u64) as u8,
        (n >> 40u64) as u8,
        (n >> 32u64) as u8,
        (n >> 24u64) as u8,
        (n >> 16u64) as u8,
        (n >> 8u64) as u8,
        n as u8,
    ]
}

/// The `u64` whose big-endian encoding is the first eight bytes of `s`.
pub open spec fn be_value(s: Seq<u8>) -> u64 {
    ((s[0] as u64) << 56u64) | ((s[1] as u64) << 48u64) | ((s[2] as u64) << 40u64) | ((
    s[3] as u64) << 32u64) | ((s[4] as u64) << 24u64) | ((s[5] as u64) << 16u64) | ((s[6] as u64)
        << 8u64) | (s[7] as u64)
}

/// Decoding the big-endian encoding of `n` gives back `n`.
pub proof fn lemma_be_roundtrip(n: u64)
    ensures
        be_bytes(n).len() == 8,
        be_value(be_bytes(n)) == n,
        be_value(be_bytes(n) + seq![]) == n,
{
    let s = be_bytes(n);
    let b0 = s[0];
    let b1 = s[1];
    let b2 = s[2];
    let b3 = s[3];
    let b4 = s[4];
    let b5 = s[5];
    let b6 = s[6];
    let b7 = s[7];
    assert(((b0 as u64) << 56u64) | ((b1 as u64) << 48u64) | ((b2 as u64) << 40u64) | ((
    b3 as u64) << 32u64) | ((b4 as u64) << 24u64) | ((b5 as u64) << 16u64) | ((b6 as u64)
        << 8u64) | (b7 as u64) == n) by (bit_vector)
        requires
            b0 == (n >> 56u64) as u8,
            b1 == (n >> 48u64) as u8,
            b2 == (n >> 40u64) as u8,
            b3 == (n >> 32u64) as u8,
            b4 == (n >> 24u64) as u8,
            b5 == (n >> 16u64) as u8,
            b6 == (n >> 8u64) as u8,
            b7 == n as u8,
    ;
    assert(s + seq![] =~= s);
}

/// Reads a big-endian `u64` from the front of `pool` with byteorder's
/// `ReadBytesExt::read_u64::<BigEndian>` on a `std::io::Cursor`. The read
/// fails exactly when fewer than eight bytes are there; otherwise it gives the
/// first eight bytes read big-endian.
#[verifier::external_body]
fn read_u64_be(pool: Vec<u8>) -> (r: Option<u64>)
    ensures
        match r {
            Some(v) => pool@.len() >= 8 && v == be_value(pool@),
            None => pool@.len() < 8,
        },
{
    let mut rdr = Cursor::new(pool);
    match rdr.read_u64::<BigEndian>() {
        Ok(v) => Some(v),
        Err(_) => None,
    }
}

/// Writes `n` into a new vector with byteorder's
/// `WriteBytesExt::write_u64::<BigEndian>`. Writing into a `Vec<u8>` cannot
/// fail, and the vector then holds the eight big-endian bytes of `n`.
#[verifier::external_body]
fn write_u64_be(n: u64) -> (r: Option<Vec<u8>>)
    ensures
        r.is_some(),
        r.unwrap()@ == be_bytes(n),
{
    let mut v = Vec::new();
    match v.write_u64::<BigEndian>(n) {
        Ok(_) => Some(v),
        Err(_) => None,
    }
}

/// The eight bytes of `u`, least significant first (little-endian, whatever
/// the name says).
pub fn u64_to_be(u: u64) -> (r: Vec<u8>)
    ensures
        r@ == vstd::bytes::spec_u64_to_le_bytes(u),
{
    vstd::bytes::u64_to_le_bytes(u)
}

/// Reads a big-endian `u64` from the first eight bytes of `pool`; fails when
/// `pool` holds fewer than eight bytes.
pub fn u64_from_bytes(pool: Vec<u8>) -> (r: Result<u64, ()>)
    ensures
        r == (if pool@.len() >= 8 {
            Ok::<u64, ()>(be_value(pool@))
        } else {
            Err::<u64, ()>(())
        }),
{
    match read_u64_be(pool) {
        Some(v) => Ok(v),
        None => Err(()),
    }
}

/// The eight big-endian bytes of `n`; never fails.
pub fn u64_to_bytes(n: u64) -> (r: Result<Vec<u8>, ()>)
    ensures
        r matches Ok(v) && v@ == be_bytes(n),
{
    match write_u64_be(n) {
        Some(v) => Ok(v),
        None => Err(()),
    }
}

/// The number of leading characters of `s`, from `k` on, before the first
/// point at which the characters taken make exactly eight bytes of UTF-8;
/// all of `s` when there is no such point.
pub open spec fn eight_byte_cut(s: Seq<char>, k: int) -> int
    decreases s.len() - k,
{
    if k < 0 || k >= s.len() || vstd::utf8::encode_utf8(s.take(k)).len() == 8 {
        if k < 0 { 0 } else if k > s.len() { s.len() as int } else { k }
    } else {
        eight_byte_cut(s, k + 1)
    }
}

/// The UTF-8 encoding of two character strings one after the other is the
/// encodings one after the other.
pub proof fn lemma_encode_utf8_append(a: Seq<char>, b: Seq<char>)
    ensures
        vstd::utf8::encode_utf8(a + b) == vstd::utf8::encode_utf8(a) + vstd::utf8::encode_utf8(b),
    decreases a.len(),
{
    if a.len() > 0 {
        lemma_encode_utf8_append(a.drop_first(), b);
        assert((a + b).drop_first() =~= a.drop_first() + b);
        assert(vstd::utf8::encode_utf8(a + b) =~= vstd::utf8::encode_utf8(a) + vstd::utf8::encode_utf8(b));
    } else {
        assert(a + b =~= b);
        assert(vstd::utf8::encode_utf8(a) + vstd::utf8::encode_utf8(b) =~= vstd::utf8::encode_utf8(b));
    }
}

/// Appends `c` to `s` with `String::push`: the string then holds its
/// characters followed by `c`.
#[verifier::external_body]
pub(crate) fn push_char(s: &mut String, c: char)
    ensures
        final(s)@ == old(s)@.push(c),
{
    s.push(c);
}

/// The characters of `v` up to the first point where they make eight bytes of
/// UTF-8 (all of `v` when they never make exactly eight).
pub fn concat_str(v: String) -> (r: String)
    requires
        vstd::utf8::encode_utf8(v@).len() <= usize::MAX,
    ensures
        r@ == v@.take(eight_byte_cut(v@, 0)),
{
    let mut collect = String::new();
    let mut chars = v.as_str().chars();
    let ghost s = v@;
    let ghost mut n: int = 0;
    loop
        invariant_except_break
            0 <= n <= s.len(),
            collect@ == s.take(n),
            chars.remaining() == s.skip(n),
            vstd::utf8::encode_utf8(s).len() <= usize::MAX,
            eight_byte_cut(s, n) == eight_byte_cut(s, 0),
        ensures
            collect@ == s.take(eight_byte_cut(s, 0)),
        decreases s.len() - n,
    {
        if collect.as_str().len() == 8 {
            proof {
                lemma_encode_utf8_append(s.take(n), s.skip(n));
                assert(s.take(n) + s.skip(n) =~= s);
                assert(vstd::utf8::encode_utf8(s.take(n)).len() == 8);
                assert(eight_byte_cut(s, n) == n);
            }
            break;
        }
        match chars.next() {
            Some(c) => {
                push_char(&mut collect, c);
                proof {
                    assert(s.skip(n)[0] == c);
                    assert(collect@ =~= s.take(n + 1));
                    assert(s.skip(n).drop_first() =~= s.skip(n + 1));
                    n = n + 1;
                }
            },
            None => {
                proof {
                    assert(s.take(n) =~= s.take(s.len() as int));
                }
                break;
            },
        }
    }
    collect
}

} // verus!
