//! The canonical bytes of what is signed and sent: texts, small numbers and
//! arrays in the shortest forms of MessagePack, so that a value has one
//! encoding and an encoding one value.

use vstd::prelude::*;
use vstd::slice::{slice_subrange, slice_to_vec};
use vstd::utf8::{decode_utf8, encode_utf8, valid_utf8};

verus! {

/// The two bytes of `n`, high byte first.
pub open spec fn be16(n: nat) -> Seq<u8> {
    seq![(n / 0x100) as u8, (n % 0x100) as u8]
}

/// The four bytes of `n`, high byte first.
pub open spec fn be32(n: nat) -> Seq<u8> {
    seq![
        (n / 0x100_0000) as u8,
        (n / 0x1_0000 % 0x100) as u8,
        (n / 0x100 % 0x100) as u8,
        (n % 0x100) as u8,
    ]
}

/// The largest length that a header can announce.
pub const MAX_LEN: usize = 0xffff_ffff;

/// The header of a text of `n` bytes, in its shortest form.
pub open spec fn str_header(n: nat) -> Seq<u8> {
    if n < 32 {
        seq![(0xa0 + n) as u8]
    } else if n < 0x100 {
        seq![0xd9u8, n as u8]
    } else if n < 0x1_0000 {
        seq![0xdau8] + be16(n)
    } else {
        seq![0xdbu8] + be32(n)
    }
}

/// The header of an array of `n` items, in its shortest form.
pub open spec fn array_header(n: nat) -> Seq<u8> {
    if n < 16 {
        seq![(0x90 + n) as u8]
    } else if n < 0x1_0000 {
        seq![0xdcu8] + be16(n)
    } else {
        seq![0xddu8] + be32(n)
    }
}

/// The bytes of a small number, in their shortest form.
pub open spec fn uint_bytes(v: u8) -> Seq<u8> {
    if v < 128 {
        seq![v]
    } else {
        seq![0xccu8, v]
    }
}

/// The bytes of a text: the header for its length in UTF-8, then its UTF-8 bytes.
pub open spec fn text_bytes(s: Seq<char>) -> Seq<u8> {
    str_header(encode_utf8(s).len()) + encode_utf8(s)
}

/// The bytes of the items of `items`, one small number after the other.
pub open spec fn uints_bytes(items: Seq<u8>) -> Seq<u8>
    decreases items.len(),
{
    if items.len() == 0 {
        Seq::empty()
    } else {
        uints_bytes(items.drop_last()) + uint_bytes(items.last())
    }
}

/// The bytes of a byte string that is written as an array of small numbers.
pub open spec fn blob_bytes(items: Seq<u8>) -> Seq<u8> {
    array_header(items.len()) + uints_bytes(items)
}

/// Appends the two bytes of `n`, high byte first.
fn put_be16(out: &mut Vec<u8>, n: usize)
    requires
        n < 0x1_0000,
    ensures
        final(out)@ == old(out)@ + be16(n as nat),
{
    out.push((n / 0x100) as u8);
    out.push((n % 0x100) as u8);
    proof {
        assert(out@ =~= old(out)@ + be16(n as nat));
    }
}

/// Appends the four bytes of `n`, high byte first.
fn put_be32(out: &mut Vec<u8>, n: usize)
    requires
        n <= MAX_LEN,
    ensures
        final(out)@ == old(out)@ + be32(n as nat),
{
    out.push((n / 0x100_0000) as u8);
    out.push((n / 0x1_0000 % 0x100) as u8);
    out.push((n / 0x100 % 0x100) as u8);
    out.push((n % 0x100) as u8);
    proof {
        assert(out@ =~= old(out)@ + be32(n as nat));
    }
}

/// Appends the header of a text of `n` bytes.
fn put_str_header(out: &mut Vec<u8>, n: usize)
    requires
        n <= MAX_LEN,
    ensures
        final(out)@ == old(out)@ + str_header(n as nat),
{
    if n < 32 {
        out.push((0xa0 + n) as u8);
    } else if n < 0x100 {
        out.push(0xd9u8);
        out.push(n as u8);
    } else if n < 0x1_0000 {
        out.push(0xdau8);
        put_be16(out, n);
    } else {
        out.push(0xdbu8);
        put_be32(out, n);
    }
    proof {
        assert(out@ =~= old(out)@ + str_header(n as nat));
    }
}

/// Appends the header of an array of `n` items.
fn put_array_header(out: &mut Vec<u8>, n: usize)
    requires
        n <= MAX_LEN,
    ensures
        final(out)@ == old(out)@ + array_header(n as nat),
{
    if n < 16 {
        out.push((0x90 + n) as u8);
    } else if n < 0x1_0000 {
        out.push(0xdcu8);
        put_be16(out, n);
    } else {
        out.push(0xddu8);
        put_be32(out, n);
    }
    proof {
        assert(out@ =~= old(out)@ + array_header(n as nat));
    }
}

/// Appends the bytes of a small number.
pub fn put_uint(out: &mut Vec<u8>, v: u8)
    ensures
        final(out)@ == old(out)@ + uint_bytes(v),
{
    if v < 128 {
        out.push(v);
    } else {
        out.push(0xccu8);
        out.push(v);
    }
    proof {
        assert(out@ =~= old(out)@ + uint_bytes(v));
    }
}

/// Appends the bytes of `bytes` as they are.
fn put_raw(out: &mut Vec<u8>, bytes: &[u8])
    ensures
        final(out)@ == old(out)@ + bytes@,
{
    let mut i: usize = 0;
    while i < bytes.len()
        invariant
            i <= bytes.len(),
            out@ == old(out)@ + bytes@.take(i as int),
        decreases bytes.len() - i,
    {
        out.push(bytes[i]);
        proof {
            assert(out@ =~= old(out)@ + bytes@.take(i + 1));
        }
        i += 1;
    }
    proof {
        assert(bytes@.take(bytes.len() as int) =~= bytes@);
    }
}

/// Whether a text is short enough for a header to announce its length.
pub fn text_fits(s: &str) -> (r: bool)
    ensures
        r == (encode_utf8(s@).len() <= MAX_LEN),
{
    s.as_bytes().len() <= MAX_LEN
}

/// Appends the bytes of a text.
pub fn put_text(out: &mut Vec<u8>, s: &str)
    requires
        encode_utf8(s@).len() <= MAX_LEN,
    ensures
        final(out)@ == old(out)@ + text_bytes(s@),
{
    let bytes = s.as_bytes();
    put_str_header(out, bytes.len());
    put_raw(out, bytes);
    proof {
        assert(out@ =~= old(out)@ + text_bytes(s@));
    }
}

/// Appends a byte string as an array of small numbers.
pub fn put_blob(out: &mut Vec<u8>, items: &[u8])
    requires
        items@.len() <= MAX_LEN,
    ensures
        final(out)@ == old(out)@ + blob_bytes(items@),
{
    put_array_header(out, items.len());
    let ghost start = out@;
    let mut i: usize = 0;
    while i < items.len()
        invariant
            i <= items.len(),
            out@ == start + uints_bytes(items@.take(i as int)),
        decreases items.len() - i,
    {
        put_uint(out, items[i]);
        proof {
            assert(items@.take(i + 1).drop_last() =~= items@.take(i as int));
            assert(out@ =~= start + uints_bytes(items@.take(i + 1)));
        }
        i += 1;
    }
    proof {
        assert(items@.take(items.len() as int) =~= items@);
        assert(out@ =~= old(out)@ + blob_bytes(items@));
    }
}

/// The number that the two bytes at `at` stand for, high byte first.
pub open spec fn read_be16(b: Seq<u8>, at: int) -> nat {
    (b[at] as nat) * 0x100 + (b[at + 1] as nat)
}

/// The number that the four bytes at `at` stand for, high byte first.
pub open spec fn read_be32(b: Seq<u8>, at: int) -> nat {
    (b[at] as nat) * 0x100_0000 + (b[at + 1] as nat) * 0x1_0000 + (b[at + 2] as nat) * 0x100 + (
    b[at + 3] as nat)
}

/// Reads the header of a text at the front of `b`: the length it announces
/// and its own length. `None` where `b` does not begin with such a header in
/// its shortest form.
pub open spec fn parse_str_header(b: Seq<u8>) -> Option<(nat, int)> {
    if b.len() >= 1 && 0xa0 <= b[0] < 0xc0 {
        Some(((b[0] - 0xa0) as nat, 1))
    } else if b.len() >= 2 && b[0] == 0xd9 && b[1] >= 32 {
        Some((b[1] as nat, 2))
    } else if b.len() >= 3 && b[0] == 0xda && read_be16(b, 1) >= 0x100 {
        Some((read_be16(b, 1), 3))
    } else if b.len() >= 5 && b[0] == 0xdb && read_be32(b, 1) >= 0x1_0000 {
        Some((read_be32(b, 1), 5))
    } else {
        None
    }
}

/// Reads the header of an array at the front of `b`: the number of items it
/// announces and its own length. `None` where `b` does not begin with such a
/// header in its shortest form.
pub open spec fn parse_array_header(b: Seq<u8>) -> Option<(nat, int)> {
    if b.len() >= 1 && 0x90 <= b[0] < 0xa0 {
        Some(((b[0] - 0x90) as nat, 1))
    } else if b.len() >= 3 && b[0] == 0xdc && read_be16(b, 1) >= 16 {
        Some((read_be16(b, 1), 3))
    } else if b.len() >= 5 && b[0] == 0xdd && read_be32(b, 1) >= 0x1_0000 {
        Some((read_be32(b, 1), 5))
    } else {
        None
    }
}

/// Reads a small number at the front of `b`: the number and the length of its
/// bytes. `None` where `b` does not begin with one in its shortest form.
pub open spec fn parse_uint(b: Seq<u8>) -> Option<(u8, int)> {
    if b.len() >= 1 && b[0] < 128 {
        Some((b[0], 1))
    } else if b.len() >= 2 && b[0] == 0xcc && b[1] >= 128 {
        Some((b[1], 2))
    } else {
        None
    }
}

/// Reads a text at the front of `b`: the text and the length of its bytes.
pub open spec fn parse_text(b: Seq<u8>) -> Option<(Seq<char>, int)> {
    match parse_str_header(b) {
        Some((n, k)) => if k + n <= b.len() && valid_utf8(b.subrange(k, k + n)) {
            Some((decode_utf8(b.subrange(k, k + n)), k + n))
        } else {
            None
        },
        None => None,
    }
}

/// Reads `n` small numbers at the front of `b`: the numbers and the length of
/// their bytes.
pub open spec fn parse_uints(b: Seq<u8>, n: nat) -> Option<(Seq<u8>, int)>
    decreases n,
{
    if n == 0 {
        Some((Seq::empty(), 0))
    } else {
        match parse_uints(b, (n - 1) as nat) {
            Some((items, k)) => match parse_uint(b.skip(k)) {
                Some((v, j)) => Some((items.push(v), k + j)),
                None => None,
            },
            None => None,
        }
    }
}

/// Reads a byte string, written as an array of small numbers, at the front of
/// `b`: the string and the length of its bytes.
pub open spec fn parse_blob(b: Seq<u8>) -> Option<(Seq<u8>, int)> {
    match parse_array_header(b) {
        Some((n, k)) => match parse_uints(b.skip(k), n) {
            Some((items, j)) => Some((items, k + j)),
            None => None,
        },
        None => None,
    }
}

/// What was read is what the header of that length looks like.
pub proof fn lemma_str_header_sound(b: Seq<u8>)
    ensures
        parse_str_header(b) matches Some((n, k)) ==> 0 < k <= b.len() && n <= MAX_LEN && b.take(k)
            == str_header(n),
{
    if let Some((n, k)) = parse_str_header(b) {
        assert(b.take(k) =~= str_header(n));
    }
}

/// A header is read back, whatever follows it.
pub proof fn lemma_str_header_complete(n: nat, rest: Seq<u8>)
    requires
        n <= MAX_LEN,
    ensures
        parse_str_header(str_header(n) + rest) == Some((n, str_header(n).len() as int)),
{
    let b = str_header(n) + rest;
    if n < 32 {
        assert(b[0] == (0xa0 + n) as u8);
    } else if n < 0x100 {
        assert(b[0] == 0xd9 && b[1] == n as u8);
    } else if n < 0x1_0000 {
        assert(b[0] == 0xda && b[1] == (n / 0x100) as u8 && b[2] == (n % 0x100) as u8);
    } else {
        assert(b[0] == 0xdb && b[1] == (n / 0x100_0000) as u8 && b[2] == (n / 0x1_0000 % 0x100) as u8
            && b[3] == (n / 0x100 % 0x100) as u8 && b[4] == (n % 0x100) as u8);
    }
}

/// What was read is what the header for that many items looks like.
pub proof fn lemma_array_header_sound(b: Seq<u8>)
    ensures
        parse_array_header(b) matches Some((n, k)) ==> 0 < k <= b.len() && n <= MAX_LEN
            && b.take(k) == array_header(n),
{
    if let Some((n, k)) = parse_array_header(b) {
        assert(b.take(k) =~= array_header(n));
    }
}

/// A header is read back, whatever follows it.
pub proof fn lemma_array_header_complete(n: nat, rest: Seq<u8>)
    requires
        n <= MAX_LEN,
    ensures
        parse_array_header(array_header(n) + rest) == Some((n, array_header(n).len() as int)),
{
    let b = array_header(n) + rest;
    if n < 16 {
        assert(b[0] == (0x90 + n) as u8);
    } else if n < 0x1_0000 {
        assert(b[0] == 0xdc && b[1] == (n / 0x100) as u8 && b[2] == (n % 0x100) as u8);
    } else {
        assert(b[0] == 0xdd && b[1] == (n / 0x100_0000) as u8 && b[2] == (n / 0x1_0000 % 0x100) as u8
            && b[3] == (n / 0x100 % 0x100) as u8 && b[4] == (n % 0x100) as u8);
    }
}

/// What was read is what the bytes of that number look like.
pub proof fn lemma_uint_sound(b: Seq<u8>)
    ensures
        parse_uint(b) matches Some((v, k)) ==> 0 < k <= b.len() && b.take(k) == uint_bytes(v),
{
    if let Some((v, k)) = parse_uint(b) {
        assert(b.take(k) =~= uint_bytes(v));
    }
}

/// A small number is read back, whatever follows it.
pub proof fn lemma_uint_complete(v: u8, rest: Seq<u8>)
    ensures
        parse_uint(uint_bytes(v) + rest) == Some((v, uint_bytes(v).len() as int)),
{
    let b = uint_bytes(v) + rest;
    if v < 128 {
        assert(b[0] == v);
    } else {
        assert(b[0] == 0xcc && b[1] == v);
    }
}

/// What was read is what the bytes of that text look like.
pub proof fn lemma_text_sound(b: Seq<u8>)
    ensures
        parse_text(b) matches Some((s, k)) ==> 0 < k <= b.len() && encode_utf8(s).len() <= MAX_LEN
            && b.take(k) == text_bytes(s),
{
    if let Some((s, k)) = parse_text(b) {
        lemma_str_header_sound(b);
        let (n, h) = parse_str_header(b)->0;
        let body = b.subrange(h, h + n);
        vstd::utf8::decode_utf8_encode_utf8(body);
        assert(b.take(k) =~= b.take(h) + body);
    }
}

/// A text is read back, whatever follows it.
pub proof fn lemma_text_complete(s: Seq<char>, rest: Seq<u8>)
    requires
        encode_utf8(s).len() <= MAX_LEN,
    ensures
        parse_text(text_bytes(s) + rest) == Some((s, text_bytes(s).len() as int)),
{
    let body = encode_utf8(s);
    let head = str_header(body.len());
    let b = text_bytes(s) + rest;
    assert(b =~= head + (body + rest));
    lemma_str_header_complete(body.len(), body + rest);
    assert(b.subrange(head.len() as int, (head.len() + body.len()) as int) =~= body);
    vstd::utf8::encode_utf8_valid_utf8(s);
    vstd::utf8::encode_utf8_decode_utf8(s);
}

/// What was read is what the bytes of those numbers look like.
pub proof fn lemma_uints_sound(b: Seq<u8>, n: nat)
    ensures
        parse_uints(b, n) matches Some((items, k)) ==> 0 <= k <= b.len() && items.len() == n
            && b.take(k) == uints_bytes(items),
    decreases n,
{
    if n > 0 {
        lemma_uints_sound(b, (n - 1) as nat);
        if let Some((items, k)) = parse_uints(b, n) {
            let (front, k0) = parse_uints(b, (n - 1) as nat)->0;
            let (v, j) = parse_uint(b.skip(k0))->0;
            lemma_uint_sound(b.skip(k0));
            assert(items.drop_last() =~= front);
            assert(b.take(k) =~= b.take(k0) + b.skip(k0).take(j));
        }
    } else {
        assert(b.take(0) =~= uints_bytes(Seq::<u8>::empty()));
    }
}

/// Small numbers are read back, whatever follows them.
pub proof fn lemma_uints_complete(items: Seq<u8>, rest: Seq<u8>)
    ensures
        parse_uints(uints_bytes(items) + rest, items.len()) == Some(
            (items, uints_bytes(items).len() as int),
        ),
    decreases items.len(),
{
    if items.len() > 0 {
        let front = items.drop_last();
        let b = uints_bytes(items) + rest;
        let tail = uint_bytes(items.last()) + rest;
        assert(b =~= uints_bytes(front) + tail);
        lemma_uints_complete(front, tail);
        lemma_uint_complete(items.last(), rest);
        assert(b.skip(uints_bytes(front).len() as int) =~= tail);
        assert(front.push(items.last()) =~= items);
    }
}

/// Where fewer numbers cannot be read, more cannot either.
proof fn lemma_uints_fail(b: Seq<u8>, i: nat, n: nat)
    requires
        i < n,
        parse_uints(b, i + 1) is None,
    ensures
        parse_uints(b, n) is None,
    decreases n,
{
    if n > i + 1 {
        lemma_uints_fail(b, i, (n - 1) as nat);
    }
}

/// What was read is what the bytes of that byte string look like.
pub proof fn lemma_blob_sound(b: Seq<u8>)
    ensures
        parse_blob(b) matches Some((items, k)) ==> 0 < k <= b.len() && items.len() <= MAX_LEN
            && b.take(k) == blob_bytes(items),
{
    if let Some((items, k)) = parse_blob(b) {
        lemma_array_header_sound(b);
        let (n, h) = parse_array_header(b)->0;
        lemma_uints_sound(b.skip(h), n);
        let (_, j) = parse_uints(b.skip(h), n)->0;
        assert(b.take(k) =~= b.take(h) + b.skip(h).take(j));
    }
}

/// A byte string is read back, whatever follows it.
pub proof fn lemma_blob_complete(items: Seq<u8>, rest: Seq<u8>)
    requires
        items.len() <= MAX_LEN,
    ensures
        parse_blob(blob_bytes(items) + rest) == Some((items, blob_bytes(items).len() as int)),
{
    let head = array_header(items.len());
    let b = blob_bytes(items) + rest;
    assert(b =~= head + (uints_bytes(items) + rest));
    lemma_array_header_complete(items.len(), uints_bytes(items) + rest);
    assert(b.skip(head.len() as int) =~= uints_bytes(items) + rest);
    lemma_uints_complete(items, rest);
}

/// Turns bytes into the text that they encode in UTF-8, if they encode one.
///
/// Wraps `String::from_utf8`, of which the standard library says that it
/// fails exactly on bytes that are not UTF-8, and otherwise keeps the bytes
/// as the text's own.
#[verifier::external_body]
fn string_from_utf8(bytes: Vec<u8>) -> (r: Option<String>)
    ensures
        r is Some <==> valid_utf8(bytes@),
        r matches Some(s) ==> s@ == decode_utf8(bytes@),
{
    match String::from_utf8(bytes) {
        Ok(s) => Some(s),
        Err(_) => None,
    }
}

/// Reads the two bytes at `at` as a number, high byte first.
fn get_be16(b: &[u8], at: usize) -> (n: usize)
    requires
        at + 2 <= b@.len(),
    ensures
        n == read_be16(b@, at as int),
{
    (b[at] as usize) * 0x100 + (b[at + 1] as usize)
}

/// Reads the four bytes at `at` as a number, high byte first.
fn get_be32(b: &[u8], at: usize) -> (n: usize)
    requires
        at + 4 <= b@.len(),
    ensures
        n == read_be32(b@, at as int),
{
    let n: u32 = (b[at] as u32) * 0x100_0000 + (b[at + 1] as u32) * 0x1_0000 + (b[at + 2] as u32)
        * 0x100 + (b[at + 3] as u32);
    n as usize
}

/// Reads the header of a text at `pos`: the length it announces and the
/// position behind the header.
fn get_str_header(b: &[u8], pos: usize) -> (r: Option<(usize, usize)>)
    requires
        pos <= b@.len(),
    ensures
        match r {
            Some((n, next)) => pos < next <= b@.len() && n <= MAX_LEN && parse_str_header(
                b@.skip(pos as int),
            ) == Some((n as nat, next - pos)),
            None => parse_str_header(b@.skip(pos as int)) is None,
        },
{
    let left = b.len() - pos;
    if left < 1 {
        return None;
    }
    let first = b[pos];
    if 0xa0 <= first && first < 0xc0 {
        Some(((first - 0xa0) as usize, pos + 1))
    } else if first == 0xd9 {
        if left >= 2 && b[pos + 1] >= 32 {
            Some((b[pos + 1] as usize, pos + 2))
        } else {
            None
        }
    } else if first == 0xda {
        if left >= 3 && get_be16(b, pos + 1) >= 0x100 {
            Some((get_be16(b, pos + 1), pos + 3))
        } else {
            None
        }
    } else if first == 0xdb {
        if left >= 5 && get_be32(b, pos + 1) >= 0x1_0000 {
            Some((get_be32(b, pos + 1), pos + 5))
        } else {
            None
        }
    } else {
        None
    }
}

/// Reads the header of an array at `pos`: the number of items it announces
/// and the position behind the header.
fn get_array_header(b: &[u8], pos: usize) -> (r: Option<(usize, usize)>)
    requires
        pos <= b@.len(),
    ensures
        match r {
            Some((n, next)) => pos < next <= b@.len() && n <= MAX_LEN && parse_array_header(
                b@.skip(pos as int),
            ) == Some((n as nat, next - pos)),
            None => parse_array_header(b@.skip(pos as int)) is None,
        },
{
    let left = b.len() - pos;
    if left < 1 {
        return None;
    }
    let first = b[pos];
    if 0x90 <= first && first < 0xa0 {
        Some(((first - 0x90) as usize, pos + 1))
    } else if first == 0xdc {
        if left >= 3 && get_be16(b, pos + 1) >= 16 {
            Some((get_be16(b, pos + 1), pos + 3))
        } else {
            None
        }
    } else if first == 0xdd {
        if left >= 5 && get_be32(b, pos + 1) >= 0x1_0000 {
            Some((get_be32(b, pos + 1), pos + 5))
        } else {
            None
        }
    } else {
        None
    }
}

/// Reads a small number at `pos`: the number and the position behind it.
pub fn get_uint(b: &[u8], pos: usize) -> (r: Option<(u8, usize)>)
    requires
        pos <= b@.len(),
    ensures
        match r {
            Some((v, next)) => pos < next <= b@.len() && parse_uint(b@.skip(pos as int)) == Some(
                (v, next - pos),
            ),
            None => parse_uint(b@.skip(pos as int)) is None,
        },
{
    let left = b.len() - pos;
    if left < 1 {
        return None;
    }
    let first = b[pos];
    if first < 128 {
        Some((first, pos + 1))
    } else if first == 0xcc && left >= 2 && b[pos + 1] >= 128 {
        Some((b[pos + 1], pos + 2))
    } else {
        None
    }
}

/// Reads a text at `pos`: the text and the position behind it.
pub fn get_text(b: &[u8], pos: usize) -> (r: Option<(String, usize)>)
    requires
        pos <= b@.len(),
    ensures
        match r {
            Some((text, next)) => pos < next <= b@.len() && parse_text(b@.skip(pos as int))
                == Some((text@, next - pos)),
            None => parse_text(b@.skip(pos as int)) is None,
        },
{
    match get_str_header(b, pos) {
        None => None,
        Some((n, start)) => {
            if n > b.len() - start {
                return None;
            }
            let body = slice_to_vec(slice_subrange(b, start, start + n));
            proof {
                let rest = b@.skip(pos as int);
                assert(rest.subrange(start - pos, start - pos + n) =~= body@);
            }
            match string_from_utf8(body) {
                Some(text) => Some((text, start + n)),
                None => None,
            }
        },
    }
}

/// Reads a byte string, written as an array of small numbers, at `pos`: the
/// string and the position behind it.
pub fn get_blob(b: &[u8], pos: usize) -> (r: Option<(Vec<u8>, usize)>)
    requires
        pos <= b@.len(),
    ensures
        match r {
            Some((blob, next)) => pos < next <= b@.len() && parse_blob(b@.skip(pos as int))
                == Some((blob@, next - pos)),
            None => parse_blob(b@.skip(pos as int)) is None,
        },
{
    match get_array_header(b, pos) {
        None => None,
        Some((n, start)) => {
            let ghost body = b@.skip(start as int);
            let mut items: Vec<u8> = Vec::new();
            let mut at: usize = start;
            let mut i: usize = 0;
            proof {
                lemma_array_header_sound(b@.skip(pos as int));
                assert(b@.skip(pos as int).skip(start - pos) =~= body);
            }
            while i < n
                invariant
                    i <= n,
                    pos < start <= at <= b@.len(),
                    body == b@.skip(start as int),
                    body == b@.skip(pos as int).skip(start - pos),
                    parse_array_header(b@.skip(pos as int)) == Some((n as nat, start - pos)),
                    parse_uints(body, i as nat) == Some((items@, at - start)),
                decreases n - i,
            {
                proof {
                    assert(body.skip(at - start) =~= b@.skip(at as int));
                    lemma_uint_sound(b@.skip(at as int));
                }
                let ghost before = items@;
                match get_uint(b, at) {
                    None => {
                        proof {
                            assert(parse_uints(body, (i + 1) as nat) is None);
                            lemma_uints_fail(body, i as nat, n as nat);
                        }
                        return None;
                    },
                    Some((v, next)) => {
                        items.push(v);
                        proof {
                            assert(parse_uints(body, (i + 1) as nat) == Some(
                                (before.push(v), next - start),
                            ));
                        }
                        at = next;
                    },
                }
                i += 1;
            }
            Some((items, at))
        },
    }
}

} // verus!
