//! Kafka wire primitives: big-endian integers, booleans, length-prefixed
//! strings and byte strings, and counted arrays.
use vstd::prelude::*;
use vstd::utf8::*;
use vstd::string::*;

verus! {

/// Why a value could not be written or read.
#[derive(Debug, Clone, Copy, PartialEq, Eq, Structural)]
pub enum KfError {
    /// The input ended before the value did.
    UnexpectedEof,
    /// A length or count was negative where the format allows no null.
    InvalidLength,
    /// A string's bytes were not UTF-8.
    InvalidUtf8,
    /// A string, byte string or array is too long for its length prefix.
    TooLong,
}

/// A decoding result with the consumed length as a natural number and the
/// value taken by its model.
pub open spec fn lift<T: DeepView>(r: Result<(T, usize), KfError>) -> Result<(T::V, nat), KfError> {
    match r {
        Ok((v, n)) => Ok((v.deep_view(), n as nat)),
        Err(e) => Err(e),
    }
}

/// An encoding step leaves what was there before as a prefix.
pub open spec fn extends(old_bytes: Seq<u8>, new_bytes: Seq<u8>) -> bool {
    old_bytes.len() <= new_bytes.len() && new_bytes.take(old_bytes.len() as int) == old_bytes
}

// ---------------------------------------------------------------- integers

/// Two's complement value of a 16-bit integer, as an unsigned number.
pub open spec fn u16_of(v: i16) -> int {
    if v < 0 { v + 0x1_0000 } else { v as int }
}

/// Two's complement value of a 32-bit integer, as an unsigned number.
pub open spec fn u32_of(v: i32) -> int {
    if v < 0 { v + 0x1_0000_0000 } else { v as int }
}

/// INT16: two bytes, big-endian.
pub open spec fn enc_i16(v: i16) -> Seq<u8> {
    let u = u16_of(v);
    seq![(u / 0x100) as u8, (u % 0x100) as u8]
}

/// INT32: four bytes, big-endian.
pub open spec fn enc_i32(v: i32) -> Seq<u8> {
    let u = u32_of(v);
    seq![
        (u / 0x100_0000) as u8,
        (u / 0x1_0000 % 0x100) as u8,
        (u / 0x100 % 0x100) as u8,
        (u % 0x100) as u8,
    ]
}

/// The 16-bit integer whose big-endian bytes are `b0 b1`.
pub open spec fn i16_from(b0: u8, b1: u8) -> i16 {
    let u = b0 * 0x100 + b1;
    (if u >= 0x8000 { u - 0x1_0000 } else { u }) as i16
}

/// The 32-bit integer whose big-endian bytes are `b0 b1 b2 b3`.
pub open spec fn i32_from(b0: u8, b1: u8, b2: u8, b3: u8) -> i32 {
    let u = b0 * 0x100_0000 + b1 * 0x1_0000 + b2 * 0x100 + b3;
    (if u >= 0x8000_0000 { u - 0x1_0000_0000 } else { u }) as i32
}

/// Reading an INT16: two bytes, or the input ended.
pub open spec fn parse_i16(b: Seq<u8>) -> Result<(i16, nat), KfError> {
    if b.len() < 2 {
        Err(KfError::UnexpectedEof)
    } else {
        Ok((i16_from(b[0], b[1]), 2))
    }
}

/// Reading an INT32: four bytes, or the input ended.
pub open spec fn parse_i32(b: Seq<u8>) -> Result<(i32, nat), KfError> {
    if b.len() < 4 {
        Err(KfError::UnexpectedEof)
    } else {
        Ok((i32_from(b[0], b[1], b[2], b[3]), 4))
    }
}

/// BOOLEAN: one byte, 1 for true and 0 for false.
pub open spec fn enc_bool(v: bool) -> Seq<u8> {
    seq![if v { 1u8 } else { 0u8 }]
}

/// Reading a BOOLEAN, any byte but 0 is true.
pub open spec fn parse_bool(b: Seq<u8>) -> Result<(bool, nat), KfError> {
    if b.len() < 1 {
        Err(KfError::UnexpectedEof)
    } else {
        Ok((b[0] != 0, 1))
    }
}

/// Reading back an INT16 gives the value written, whatever follows it.
pub proof fn lemma_i16_roundtrip(v: i16, rest: Seq<u8>)
    ensures
        parse_i16(enc_i16(v) + rest) == Ok::<(i16, nat), KfError>((v, 2nat)),
{
    let b = enc_i16(v) + rest;
    assert(b[0] == enc_i16(v)[0] && b[1] == enc_i16(v)[1]);
}

/// Reading back an INT32 gives the value written, whatever follows it.
pub proof fn lemma_i32_roundtrip(v: i32, rest: Seq<u8>)
    ensures
        parse_i32(enc_i32(v) + rest) == Ok::<(i32, nat), KfError>((v, 4nat)),
{
    let b = enc_i32(v) + rest;
    assert(b[0] == enc_i32(v)[0] && b[1] == enc_i32(v)[1] && b[2] == enc_i32(v)[2]
        && b[3] == enc_i32(v)[3]);
}

/// Reading back a BOOLEAN gives the value written, whatever follows it.
pub proof fn lemma_bool_roundtrip(v: bool, rest: Seq<u8>)
    ensures
        parse_bool(enc_bool(v) + rest) == Ok::<(bool, nat), KfError>((v, 1nat)),
{
    let b = enc_bool(v) + rest;
    assert(b[0] == enc_bool(v)[0]);
}

/// Appends an INT16.
pub fn put_i16(dest: &mut Vec<u8>, v: i16)
    ensures
        final(dest)@ == old(dest)@ + enc_i16(v),
{
    let u: i32 = if v < 0 { v as i32 + 0x1_0000 } else { v as i32 };
    dest.push((u / 0x100) as u8);
    dest.push((u % 0x100) as u8);
    assert(final(dest)@ =~= old(dest)@ + enc_i16(v));
}

/// Appends an INT32.
pub fn put_i32(dest: &mut Vec<u8>, v: i32)
    ensures
        final(dest)@ == old(dest)@ + enc_i32(v),
{
    let u: i64 = if v < 0 { v as i64 + 0x1_0000_0000 } else { v as i64 };
    dest.push((u / 0x100_0000) as u8);
    dest.push((u / 0x1_0000 % 0x100) as u8);
    dest.push((u / 0x100 % 0x100) as u8);
    dest.push((u % 0x100) as u8);
    assert(final(dest)@ =~= old(dest)@ + enc_i32(v));
}

/// Appends a BOOLEAN.
pub fn put_bool(dest: &mut Vec<u8>, v: bool)
    ensures
        final(dest)@ == old(dest)@ + enc_bool(v),
{
    dest.push(if v { 1u8 } else { 0u8 });
    assert(final(dest)@ =~= old(dest)@ + enc_bool(v));
}

/// Reads an INT16 at `pos`, returning it and the bytes it took.
pub fn get_i16(src: &[u8], pos: usize) -> (r: Result<(i16, usize), KfError>)
    requires
        pos <= src@.len(),
    ensures
        lift(r) == parse_i16(src@.skip(pos as int)),
        r matches Ok((_, n)) ==> n <= src@.len() - pos,
{
    if src.len() - pos < 2 {
        return Err(KfError::UnexpectedEof);
    }
    let b0 = src[pos];
    let b1 = src[pos + 1];
    let u: i32 = b0 as i32 * 0x100 + b1 as i32;
    let v: i16 = if u >= 0x8000 { (u - 0x1_0000) as i16 } else { u as i16 };
    Ok((v, 2))
}

/// Reads an INT32 at `pos`, returning it and the bytes it took.
pub fn get_i32(src: &[u8], pos: usize) -> (r: Result<(i32, usize), KfError>)
    requires
        pos <= src@.len(),
    ensures
        lift(r) == parse_i32(src@.skip(pos as int)),
        r matches Ok((_, n)) ==> n <= src@.len() - pos,
{
    if src.len() - pos < 4 {
        return Err(KfError::UnexpectedEof);
    }
    let b0 = src[pos];
    let b1 = src[pos + 1];
    let b2 = src[pos + 2];
    let b3 = src[pos + 3];
    let u: i64 = b0 as i64 * 0x100_0000 + b1 as i64 * 0x1_0000 + b2 as i64 * 0x100 + b3 as i64;
    let v: i32 = if u >= 0x8000_0000 { (u - 0x1_0000_0000) as i32 } else { u as i32 };
    Ok((v, 4))
}

/// Reads a BOOLEAN at `pos`, returning it and the bytes it took.
pub fn get_bool(src: &[u8], pos: usize) -> (r: Result<(bool, usize), KfError>)
    requires
        pos <= src@.len(),
    ensures
        lift(r) == parse_bool(src@.skip(pos as int)),
        r matches Ok((_, n)) ==> n <= src@.len() - pos,
{
    if src.len() - pos < 1 {
        return Err(KfError::UnexpectedEof);
    }
    Ok((src[pos] != 0, 1))
}


// ----------------------------------------------------------------- strings

/// The UTF-8 bytes of a string.
pub open spec fn utf8(s: Seq<char>) -> Seq<u8> {
    encode_utf8(s)
}

/// A STRING's bytes fit its INT16 length prefix.
pub open spec fn string_fits(s: Seq<char>) -> bool {
    utf8(s).len() <= 0x7fff
}

/// STRING: INT16 byte length, then the UTF-8 bytes.
pub open spec fn enc_string(s: Seq<char>) -> Seq<u8> {
    enc_i16(utf8(s).len() as i16) + utf8(s)
}

/// NULLABLE_STRING: length -1 for null, else as STRING.
pub open spec fn enc_nullable_string(s: Option<Seq<char>>) -> Seq<u8> {
    match s {
        None => enc_i16(-1i16),
        Some(s) => enc_string(s),
    }
}

/// A NULLABLE_STRING fits when it is null or its string fits.
pub open spec fn nullable_string_fits(s: Option<Seq<char>>) -> bool {
    match s {
        None => true,
        Some(s) => string_fits(s),
    }
}

/// The string of `len` UTF-8 bytes that follow a two-byte prefix.
#[verifier::opaque]
pub open spec fn parse_string_body(b: Seq<u8>, len: int) -> Result<(Seq<char>, nat), KfError> {
    if b.len() < 2 + len {
        Err(KfError::UnexpectedEof)
    } else if !valid_utf8(b.subrange(2, 2 + len)) {
        Err(KfError::InvalidUtf8)
    } else {
        Ok((decode_utf8(b.subrange(2, 2 + len)), (2 + len) as nat))
    }
}

/// Reading a STRING: a negative length is refused, then the bytes must be
/// there and be UTF-8.
#[verifier::opaque]
pub open spec fn parse_string(b: Seq<u8>) -> Result<(Seq<char>, nat), KfError> {
    match parse_i16(b) {
        Err(e) => Err(e),
        Ok((len, _)) => if len < 0 {
            Err(KfError::InvalidLength)
        } else {
            parse_string_body(b, len as int)
        },
    }
}

/// Reading a NULLABLE_STRING: length -1 is null, another negative length is
/// refused, else as STRING.
#[verifier::opaque]
pub open spec fn parse_nullable_string(b: Seq<u8>) -> Result<(Option<Seq<char>>, nat), KfError> {
    match parse_i16(b) {
        Err(e) => Err(e),
        Ok((len, _)) => if len == -1 {
            Ok((None, 2))
        } else if len < 0 {
            Err(KfError::InvalidLength)
        } else {
            match parse_string_body(b, len as int) {
                Err(e) => Err(e),
                Ok((s, n)) => Ok((Some(s), n)),
            }
        },
    }
}

proof fn lemma_string_body_roundtrip(s: Seq<char>, rest: Seq<u8>)
    requires
        string_fits(s),
    ensures
        parse_string_body(enc_string(s) + rest, utf8(s).len() as int)
            == Ok::<(Seq<char>, nat), KfError>((s, (2 + utf8(s).len()) as nat)),
{
    reveal(parse_string_body);
    let body = utf8(s);
    let b = enc_string(s) + rest;
    assert(b.subrange(2, 2 + body.len() as int) =~= body);
    encode_utf8_valid_utf8(s);
    encode_utf8_decode_utf8(s);
}

/// Reading back a STRING gives the string written, whatever follows it.
pub proof fn lemma_string_roundtrip(s: Seq<char>, rest: Seq<u8>)
    requires
        string_fits(s),
    ensures
        parse_string(enc_string(s) + rest)
            == Ok::<(Seq<char>, nat), KfError>((s, (2 + utf8(s).len()) as nat)),
{
    reveal(parse_string);
    let len = utf8(s).len() as i16;
    assert(enc_string(s) + rest =~= enc_i16(len) + (utf8(s) + rest));
    lemma_i16_roundtrip(len, utf8(s) + rest);
    lemma_string_body_roundtrip(s, rest);
}

/// Reading back a NULLABLE_STRING gives the value written, whatever follows it.
pub proof fn lemma_nullable_string_roundtrip(s: Option<Seq<char>>, rest: Seq<u8>)
    requires
        nullable_string_fits(s),
    ensures
        parse_nullable_string(enc_nullable_string(s) + rest)
            == Ok::<(Option<Seq<char>>, nat), KfError>((s, enc_nullable_string(s).len())),
{
    reveal(parse_nullable_string);
    match s {
        None => {
            lemma_i16_roundtrip(-1i16, rest);
        },
        Some(t) => {
            let len = utf8(t).len() as i16;
            assert(enc_string(t) + rest =~= enc_i16(len) + (utf8(t) + rest));
            lemma_i16_roundtrip(len, utf8(t) + rest);
            lemma_string_body_roundtrip(t, rest);
        },
    }
}

/// Appends the bytes of `b`.
pub fn put_slice(dest: &mut Vec<u8>, b: &[u8])
    ensures
        final(dest)@ == old(dest)@ + b@,
{
    let n = b.len();
    let mut i: usize = 0;
    while i < n
        invariant
            n == b@.len(),
            i <= n,
            dest@ == old(dest)@ + b@.take(i as int),
        decreases n - i,
    {
        dest.push(b[i]);
        i = i + 1;
        assert(dest@ =~= old(dest)@ + b@.take(i as int));
    }
    assert(b@.take(n as int) =~= b@);
}

/// Writes a STRING; a string of more than 32767 bytes is refused and
/// nothing is written.
pub fn put_string(dest: &mut Vec<u8>, s: &String) -> (r: Result<(), KfError>)
    ensures
        r is Ok <==> string_fits(s@),
        r is Ok ==> final(dest)@ == old(dest)@ + enc_string(s@),
        r is Err ==> r == Err::<(), KfError>(KfError::TooLong) && final(dest)@ == old(dest)@,
{
    let bytes = s.as_str().as_bytes();
    if bytes.len() > 0x7fff {
        return Err(KfError::TooLong);
    }
    put_i16(dest, bytes.len() as i16);
    put_slice(dest, bytes);
    assert(final(dest)@ =~= old(dest)@ + enc_string(s@));
    Ok(())
}

/// Writes a NULLABLE_STRING; a string of more than 32767 bytes is refused and
/// nothing is written.
pub fn put_nullable_string(dest: &mut Vec<u8>, s: &Option<String>) -> (r: Result<(), KfError>)
    ensures
        r is Ok <==> nullable_string_fits(s.deep_view()),
        r is Ok ==> final(dest)@ == old(dest)@ + enc_nullable_string(s.deep_view()),
        r is Err ==> r == Err::<(), KfError>(KfError::TooLong) && final(dest)@ == old(dest)@,
{
    match s {
        None => {
            put_i16(dest, -1);
            Ok(())
        },
        Some(t) => put_string(dest, t),
    }
}

/// `std::str::from_utf8`: the string whose UTF-8 bytes are `v`, or `None`
/// when `v` is not UTF-8.
#[verifier::external_body]
fn str_from_utf8(v: &[u8]) -> (r: Option<&str>)
    ensures
        r is Some <==> valid_utf8(v@),
        r matches Some(s) ==> s.spec_bytes() == v@,
{
    std::str::from_utf8(v).ok()
}

fn get_string_body(src: &[u8], pos: usize, len: usize) -> (r: Result<(String, usize), KfError>)
    requires
        pos <= src@.len(),
        len <= 0x7fff,
    ensures
        lift(r) == parse_string_body(src@.skip(pos as int), len as int),
        r matches Ok((_, n)) ==> n <= src@.len() - pos,
{
    proof {
        reveal(parse_string_body);
    }
    if src.len() - pos < 2 + len {
        return Err(KfError::UnexpectedEof);
    }
    let body = &src[pos + 2..pos + 2 + len];
    assert(body@ =~= src@.skip(pos as int).subrange(2, 2 + len));
    match str_from_utf8(body) {
        None => Err(KfError::InvalidUtf8),
        Some(t) => {
            proof {
                decode_utf8_encode_utf8(body@);
                encode_utf8_decode_utf8(t@);
            }
            Ok((t.to_owned(), 2 + len))
        },
    }
}

/// Reads a STRING at `pos`, returning it and the bytes it took.
pub fn get_string(src: &[u8], pos: usize) -> (r: Result<(String, usize), KfError>)
    requires
        pos <= src@.len(),
    ensures
        lift(r) == parse_string(src@.skip(pos as int)),
        r matches Ok((_, n)) ==> n <= src@.len() - pos,
{
    proof {
        reveal(parse_string);
    }
    let (len, _) = get_i16(src, pos)?;
    if len < 0 {
        return Err(KfError::InvalidLength);
    }
    get_string_body(src, pos, len as usize)
}

/// Reads a NULLABLE_STRING at `pos`, returning it and the bytes it took.
pub fn get_nullable_string(src: &[u8], pos: usize) -> (r: Result<(Option<String>, usize), KfError>)
    requires
        pos <= src@.len(),
    ensures
        lift(r) == parse_nullable_string(src@.skip(pos as int)),
        r matches Ok((_, n)) ==> n <= src@.len() - pos,
{
    proof {
        reveal(parse_nullable_string);
    }
    let (len, _) = get_i16(src, pos)?;
    if len == -1 {
        return Ok((None, 2));
    }
    if len < 0 {
        return Err(KfError::InvalidLength);
    }
    let (s, n) = get_string_body(src, pos, len as usize)?;
    Ok((Some(s), n))
}

// ------------------------------------------------------------ byte strings

/// BYTES fit their INT32 length prefix.
pub open spec fn bytes_fit(b: Seq<u8>) -> bool {
    b.len() <= 0x7fff_ffff
}

/// BYTES: INT32 length, then the bytes.
pub open spec fn enc_bytes(b: Seq<u8>) -> Seq<u8> {
    enc_i32(b.len() as i32) + b
}

/// Reading BYTES: a negative length is refused, then the bytes must be there.
#[verifier::opaque]
pub open spec fn parse_bytes(b: Seq<u8>) -> Result<(Seq<u8>, nat), KfError> {
    match parse_i32(b) {
        Err(e) => Err(e),
        Ok((len, _)) => if len < 0 {
            Err(KfError::InvalidLength)
        } else if b.len() < 4 + len {
            Err(KfError::UnexpectedEof)
        } else {
            Ok((b.subrange(4, 4 + len), (4 + len) as nat))
        },
    }
}

/// Reading back BYTES gives the bytes written, whatever follows them.
pub proof fn lemma_bytes_roundtrip(v: Seq<u8>, rest: Seq<u8>)
    requires
        bytes_fit(v),
    ensures
        parse_bytes(enc_bytes(v) + rest) == Ok::<(Seq<u8>, nat), KfError>((v, (4 + v.len()) as nat)),
{
    reveal(parse_bytes);
    assert(enc_bytes(v) + rest =~= enc_i32(v.len() as i32) + (v + rest));
    lemma_i32_roundtrip(v.len() as i32, v + rest);
    assert((enc_bytes(v) + rest).subrange(4, 4 + v.len() as int) =~= v);
}

/// Writes BYTES; more than `i32::MAX` bytes are refused and nothing is written.
pub fn put_bytes(dest: &mut Vec<u8>, v: &Vec<u8>) -> (r: Result<(), KfError>)
    ensures
        r is Ok <==> bytes_fit(v@),
        r is Ok ==> final(dest)@ == old(dest)@ + enc_bytes(v@),
        r is Err ==> r == Err::<(), KfError>(KfError::TooLong) && final(dest)@ == old(dest)@,
{
    if v.len() > 0x7fff_ffff {
        return Err(KfError::TooLong);
    }
    put_i32(dest, v.len() as i32);
    put_slice(dest, v.as_slice());
    assert(final(dest)@ =~= old(dest)@ + enc_bytes(v@));
    Ok(())
}

/// Reads BYTES at `pos`, returning them and the bytes they took.
pub fn get_bytes(src: &[u8], pos: usize) -> (r: Result<(Vec<u8>, usize), KfError>)
    requires
        pos <= src@.len(),
    ensures
        lift(r) == parse_bytes(src@.skip(pos as int)),
        r matches Ok((_, n)) ==> n <= src@.len() - pos,
{
    proof {
        reveal(parse_bytes);
    }
    let (len, _) = get_i32(src, pos)?;
    if len < 0 {
        return Err(KfError::InvalidLength);
    }
    let len = len as usize;
    if src.len() - pos < 4 + len {
        return Err(KfError::UnexpectedEof);
    }
    let body = vstd::slice::slice_to_vec(&src[pos + 4..pos + 4 + len]);
    assert(body@ =~= src@.skip(pos as int).subrange(4, 4 + len));
    assert(body.deep_view() =~= body@);
    Ok((body, 4 + len))
}


// ------------------------------------------------------------------ arrays

/// The encodings of `items`, one after another.
pub open spec fn concat_map<T>(items: Seq<T>, f: spec_fn(T) -> Seq<u8>) -> Seq<u8>
    decreases items.len(),
{
    if items.len() == 0 {
        Seq::empty()
    } else {
        concat_map(items.drop_last(), f) + f(items.last())
    }
}

/// An array's element count fits its INT32 prefix.
pub open spec fn array_fits<T>(items: Seq<T>) -> bool {
    items.len() <= 0x7fff_ffff
}

/// ARRAY: INT32 element count, then each element.
pub open spec fn enc_array<T>(items: Seq<T>, f: spec_fn(T) -> Seq<u8>) -> Seq<u8> {
    enc_i32(items.len() as i32) + concat_map(items, f)
}

/// Nullable ARRAY: count -1 for null, else as ARRAY.
pub open spec fn enc_nullable_array<T>(items: Option<Seq<T>>, f: spec_fn(T) -> Seq<u8>) -> Seq<u8> {
    match items {
        None => enc_i32(-1i32),
        Some(items) => enc_array(items, f),
    }
}

/// Reads `n` elements one after another with `p`.
pub open spec fn parse_items<T>(
    b: Seq<u8>,
    n: nat,
    p: spec_fn(Seq<u8>) -> Result<(T, nat), KfError>,
) -> Result<(Seq<T>, nat), KfError>
    decreases n,
{
    if n == 0 {
        Ok((Seq::empty(), 0))
    } else {
        match parse_items(b, (n - 1) as nat, p) {
            Err(e) => Err(e),
            Ok((items, off)) => match p(b.skip(off as int)) {
                Err(e) => Err(e),
                Ok((x, l)) => Ok((items.push(x), off + l)),
            },
        }
    }
}

/// Reading an ARRAY: a negative count is refused, then the elements one
/// after another.
#[verifier::opaque]
pub open spec fn parse_array<T>(b: Seq<u8>, p: spec_fn(Seq<u8>) -> Result<(T, nat), KfError>) -> Result<(Seq<T>, nat), KfError> {
    match parse_i32(b) {
        Err(e) => Err(e),
        Ok((n, _)) => if n < 0 {
            Err(KfError::InvalidLength)
        } else {
            match parse_items(b.skip(4), n as nat, p) {
                Err(e) => Err(e),
                Ok((items, l)) => Ok((items, 4 + l)),
            }
        },
    }
}

/// Reading a nullable ARRAY: count -1 is null, another negative count is
/// refused, else as ARRAY.
#[verifier::opaque]
pub open spec fn parse_nullable_array<T>(
    b: Seq<u8>,
    p: spec_fn(Seq<u8>) -> Result<(T, nat), KfError>,
) -> Result<(Option<Seq<T>>, nat), KfError> {
    match parse_i32(b) {
        Err(e) => Err(e),
        Ok((n, _)) => if n == -1 {
            Ok((None, 4))
        } else if n < 0 {
            Err(KfError::InvalidLength)
        } else {
            match parse_items(b.skip(4), n as nat, p) {
                Err(e) => Err(e),
                Ok((items, l)) => Ok((Some(items), 4 + l)),
            }
        },
    }
}

/// Once reading the elements has failed, reading more of them fails the same way.
pub proof fn lemma_items_err_persists<T>(
    b: Seq<u8>,
    i: nat,
    n: nat,
    p: spec_fn(Seq<u8>) -> Result<(T, nat), KfError>,
)
    requires
        i <= n,
        parse_items(b, i, p) is Err,
    ensures
        parse_items(b, n, p) == parse_items(b, i, p),
    decreases n,
{
    if i < n {
        lemma_items_err_persists(b, i, (n - 1) as nat, p);
    }
}

/// Adding one element to what was encoded.
pub proof fn lemma_concat_map_push<T>(items: Seq<T>, i: int, f: spec_fn(T) -> Seq<u8>)
    requires
        0 <= i < items.len(),
    ensures
        concat_map(items.take(i + 1), f) == concat_map(items.take(i), f) + f(items[i]),
{
    assert(items.take(i + 1).drop_last() =~= items.take(i));
}

/// When each element reads back as `g` of itself, whatever follows it, the
/// elements of an encoded sequence read back as their images under `g`.
pub proof fn lemma_items_roundtrip<T, U>(
    items: Seq<T>,
    rest: Seq<u8>,
    f: spec_fn(T) -> Seq<u8>,
    p: spec_fn(Seq<u8>) -> Result<(U, nat), KfError>,
    g: spec_fn(T) -> U,
)
    requires
        forall|i: int, r: Seq<u8>|
            0 <= i < items.len() ==> #[trigger] p(f(items[i]) + r) == Ok::<(U, nat), KfError>(
                (g(items[i]), f(items[i]).len()),
            ),
    ensures
        parse_items(concat_map(items, f) + rest, items.len(), p) == Ok::<(Seq<U>, nat), KfError>(
            (items.map_values(g), concat_map(items, f).len()),
        ),
    decreases items.len(),
{
    if items.len() == 0 {
        assert(items.map_values(g) =~= Seq::<U>::empty());
    } else {
        let init = items.drop_last();
        let last = items.last();
        let tail = f(last) + rest;
        assert(concat_map(items, f) + rest =~= concat_map(init, f) + tail);
        assert forall|i: int, r: Seq<u8>| 0 <= i < init.len() implies #[trigger] p(f(init[i]) + r)
            == Ok::<(U, nat), KfError>((g(init[i]), f(init[i]).len())) by {
            assert(init[i] == items[i]);
        }
        lemma_items_roundtrip(init, tail, f, p, g);
        let b = concat_map(init, f) + tail;
        assert(b.skip(concat_map(init, f).len() as int) =~= tail);
        assert(p(f(items[items.len() - 1]) + rest) == Ok::<(U, nat), KfError>(
            (g(items[items.len() - 1]), f(items[items.len() - 1]).len()),
        ));
        assert(init.map_values(g).push(g(last)) =~= items.map_values(g));
    }
}

/// Reading back an ARRAY gives the images of its elements under `g`.
pub proof fn lemma_array_roundtrip<T, U>(
    items: Seq<T>,
    rest: Seq<u8>,
    f: spec_fn(T) -> Seq<u8>,
    p: spec_fn(Seq<u8>) -> Result<(U, nat), KfError>,
    g: spec_fn(T) -> U,
)
    requires
        array_fits(items),
        forall|i: int, r: Seq<u8>|
            0 <= i < items.len() ==> #[trigger] p(f(items[i]) + r) == Ok::<(U, nat), KfError>(
                (g(items[i]), f(items[i]).len()),
            ),
    ensures
        parse_array(enc_array(items, f) + rest, p) == Ok::<(Seq<U>, nat), KfError>(
            (items.map_values(g), enc_array(items, f).len()),
        ),
{
    reveal(parse_array);
    let body = concat_map(items, f) + rest;
    assert(enc_array(items, f) + rest =~= enc_i32(items.len() as i32) + body);
    lemma_i32_roundtrip(items.len() as i32, body);
    assert((enc_array(items, f) + rest).skip(4) =~= body);
    lemma_items_roundtrip(items, rest, f, p, g);
}

// ------------------------------------------------- arrays of INT32 and STRING

/// Writing an INT32 element.
pub open spec fn i32_enc() -> spec_fn(i32) -> Seq<u8> {
    |x: i32| enc_i32(x)
}

/// Reading an INT32 element.
pub open spec fn i32_parse() -> spec_fn(Seq<u8>) -> Result<(i32, nat), KfError> {
    |b: Seq<u8>| parse_i32(b)
}

/// Writing a STRING element.
pub open spec fn string_enc() -> spec_fn(Seq<char>) -> Seq<u8> {
    |s: Seq<char>| enc_string(s)
}

/// Reading a STRING element.
pub open spec fn string_parse() -> spec_fn(Seq<u8>) -> Result<(Seq<char>, nat), KfError> {
    |b: Seq<u8>| parse_string(b)
}

/// An ARRAY of STRING fits: not too many, each fitting its prefix.
pub open spec fn strings_fit(items: Seq<Seq<char>>) -> bool {
    array_fits(items) && forall|i: int| 0 <= i < items.len() ==> string_fits(#[trigger] items[i])
}

/// Reading back an ARRAY of INT32 gives the integers written.
pub proof fn lemma_i32_array_roundtrip(items: Seq<i32>, rest: Seq<u8>)
    requires
        array_fits(items),
    ensures
        parse_array(enc_array(items, i32_enc()) + rest, i32_parse()) == Ok::<(Seq<i32>, nat), KfError>(
            (items, enc_array(items, i32_enc()).len()),
        ),
{
    assert forall|i: int, r: Seq<u8>| 0 <= i < items.len() implies #[trigger] i32_parse()(i32_enc()(items[i]) + r)
        == Ok::<(i32, nat), KfError>((items[i], i32_enc()(items[i]).len())) by {
        lemma_i32_roundtrip(items[i], r);
    }
    lemma_array_roundtrip(items, rest, i32_enc(), i32_parse(), |x: i32| x);
    assert(items.map_values(|x: i32| x) =~= items);
}

/// Reading back an ARRAY of STRING gives the strings written.
pub proof fn lemma_string_array_roundtrip(items: Seq<Seq<char>>, rest: Seq<u8>)
    requires
        strings_fit(items),
    ensures
        parse_array(enc_array(items, string_enc()) + rest, string_parse())
            == Ok::<(Seq<Seq<char>>, nat), KfError>((items, enc_array(items, string_enc()).len())),
{
    assert forall|i: int, r: Seq<u8>| 0 <= i < items.len() implies #[trigger] string_parse()(string_enc()(items[i]) + r)
        == Ok::<(Seq<char>, nat), KfError>((items[i], string_enc()(items[i]).len())) by {
        lemma_string_roundtrip(items[i], r);
    }
    lemma_array_roundtrip(items, rest, string_enc(), string_parse(), |x: Seq<char>| x);
    assert(items.map_values(|x: Seq<char>| x) =~= items);
}

/// Writes an ARRAY of INT32; more than `i32::MAX` elements are refused and
/// nothing is written.
pub fn put_i32_array(dest: &mut Vec<u8>, v: &Vec<i32>) -> (r: Result<(), KfError>)
    ensures
        r is Ok <==> array_fits(v@),
        r is Ok ==> final(dest)@ == old(dest)@ + enc_array(v@, i32_enc()),
        r is Err ==> r == Err::<(), KfError>(KfError::TooLong) && final(dest)@ == old(dest)@,
{
    let n = v.len();
    if n > 0x7fff_ffff {
        return Err(KfError::TooLong);
    }
    put_i32(dest, n as i32);
    let ghost start = dest@;
    let mut i: usize = 0;
    while i < n
        invariant
            n == v@.len(),
            i <= n,
            dest@ == start + concat_map(v@.take(i as int), i32_enc()),
        decreases n - i,
    {
        proof {
            lemma_concat_map_push(v@, i as int, i32_enc());
        }
        put_i32(dest, v[i]);
        i = i + 1;
    }
    assert(v@.take(n as int) =~= v@);
    Ok(())
}

/// Reads an ARRAY of INT32.
pub fn get_i32_array(src: &[u8], pos: usize) -> (r: Result<(Vec<i32>, usize), KfError>)
    requires
        pos <= src@.len(),
    ensures
        lift(r) == parse_array(src@.skip(pos as int), i32_parse()),
        r matches Ok((_, n)) ==> n <= src@.len() - pos,
{
    proof {
        reveal(parse_array);
    }
    let len = src.len();
    let (n, k) = get_i32(src, pos)?;
    assert(k == 4);
    if n < 0 {
        return Err(KfError::InvalidLength);
    }
    let ghost b = src@.skip(pos as int).skip(4);
    let start = pos + 4;
    assert(b =~= src@.skip(start as int));
    let mut items: Vec<i32> = Vec::new();
    assert(items.deep_view() =~= Seq::<i32>::empty());
    let mut off: usize = 0;
    let mut i: i32 = 0;
    while i < n
        invariant
            0 <= i <= n,
            len == src@.len(),
            start == pos + 4,
            parse_i32(src@.skip(pos as int)) == Ok::<(i32, nat), KfError>((n, 4nat)),
            b == src@.skip(pos as int).skip(4),
            start <= src@.len(),
            b == src@.skip(start as int),
            off <= src@.len() - start,
            parse_items(b, i as nat, i32_parse()) == Ok::<(Seq<i32>, nat), KfError>((items.deep_view(), off as nat)),
        decreases n - i,
    {
        assert(src@.skip((start + off) as int) =~= b.skip(off as int));
        match get_i32(src, start + off) {
            Err(e) => {
                proof {
                    reveal(parse_array);
                    assert(parse_items(b, (i + 1) as nat, i32_parse()) == Err::<(Seq<i32>, nat), KfError>(e));
                    lemma_items_err_persists(b, (i + 1) as nat, n as nat, i32_parse());
                }
                return Err(e);
            },
            Ok((x, l)) => {
                let ghost old_items = items.deep_view();
                items.push(x);
                off = off + l;
                i = i + 1;
                assert(items.deep_view() =~= old_items.push(x));
            },
        }
    }
    assert(items.deep_view() =~= items@);
    Ok((items, 4 + off))
}

/// Writes an ARRAY of STRING; too many elements, or an element of more than
/// 32767 bytes, is refused, and what was written before the refusal stays.
pub fn put_string_array(dest: &mut Vec<u8>, v: &Vec<String>) -> (r: Result<(), KfError>)
    ensures
        r is Ok <==> strings_fit(v.deep_view()),
        r is Ok ==> final(dest)@ == old(dest)@ + enc_array(v.deep_view(), string_enc()),
        r is Err ==> r == Err::<(), KfError>(KfError::TooLong) && extends(old(dest)@, final(dest)@),
{
    let n = v.len();
    if n > 0x7fff_ffff {
        assert(dest@.take(dest@.len() as int) =~= dest@);
        return Err(KfError::TooLong);
    }
    put_i32(dest, n as i32);
    let ghost start = dest@;
    let ghost items = v.deep_view();
    let mut i: usize = 0;
    while i < n
        invariant
            n == v@.len(),
            items == v.deep_view(),
            i <= n,
            start == old(dest)@ + enc_i32(n as i32),
            dest@ == start + concat_map(items.take(i as int), string_enc()),
            forall|j: int| 0 <= j < i ==> string_fits(#[trigger] items[j]),
        decreases n - i,
    {
        proof {
            lemma_concat_map_push(items, i as int, string_enc());
        }
        let ghost before = dest@;
        match put_string(dest, &v[i]) {
            Err(e) => {
                assert(dest@.take(old(dest)@.len() as int) =~= old(dest)@);
                return Err(e);
            },
            Ok(()) => {},
        }
        i = i + 1;
    }
    assert(items.take(n as int) =~= items);
    Ok(())
}

/// Reads an ARRAY of STRING.
pub fn get_string_array(src: &[u8], pos: usize) -> (r: Result<(Vec<String>, usize), KfError>)
    requires
        pos <= src@.len(),
    ensures
        lift(r) == parse_array(src@.skip(pos as int), string_parse()),
        r matches Ok((_, n)) ==> n <= src@.len() - pos,
{
    proof {
        reveal(parse_array);
    }
    let len = src.len();
    let (n, k) = get_i32(src, pos)?;
    assert(k == 4);
    if n < 0 {
        return Err(KfError::InvalidLength);
    }
    let ghost b = src@.skip(pos as int).skip(4);
    let start = pos + 4;
    assert(b =~= src@.skip(start as int));
    let mut items: Vec<String> = Vec::new();
    assert(items.deep_view() =~= Seq::<Seq<char>>::empty());
    let mut off: usize = 0;
    let mut i: i32 = 0;
    while i < n
        invariant
            0 <= i <= n,
            len == src@.len(),
            start == pos + 4,
            parse_i32(src@.skip(pos as int)) == Ok::<(i32, nat), KfError>((n, 4nat)),
            b == src@.skip(pos as int).skip(4),
            start <= src@.len(),
            b == src@.skip(start as int),
            off <= src@.len() - start,
            parse_items(b, i as nat, string_parse()) == Ok::<(Seq<Seq<char>>, nat), KfError>(
                (items.deep_view(), off as nat),
            ),
        decreases n - i,
    {
        assert(src@.skip((start + off) as int) =~= b.skip(off as int));
        match get_string(src, start + off) {
            Err(e) => {
                proof {
                    reveal(parse_array);
                    assert(parse_items(b, (i + 1) as nat, string_parse()) == Err::<(Seq<Seq<char>>, nat), KfError>(e));
                    lemma_items_err_persists(b, (i + 1) as nat, n as nat, string_parse());
                }
                return Err(e);
            },
            Ok((x, l)) => {
                let ghost old_items = items.deep_view();
                items.push(x);
                off = off + l;
                i = i + 1;
                assert(items.deep_view() =~= old_items.push(x@));
            },
        }
    }
    Ok((items, 4 + off))
}


// ------------------------------------------------------- versioned fields

/// A field that the version carries is written; one it does not carry is not.
pub open spec fn gated(present: bool, e: Seq<u8>) -> Seq<u8> {
    if present { e } else { Seq::empty() }
}

/// A field that the version carries is read; one it does not carry keeps
/// the value it had, and takes no bytes.
pub open spec fn parse_when<T>(present: bool, kept: T, r: Result<(T, nat), KfError>) -> Result<(T, nat), KfError> {
    if present { r } else { Ok((kept, 0)) }
}


/// A nullable ARRAY whose count is not -1 reads as the ARRAY does.
pub proof fn lemma_nullable_array_not_null<T>(b: Seq<u8>, p: spec_fn(Seq<u8>) -> Result<(T, nat), KfError>)
    requires
        !(parse_i32(b) matches Ok((n, _)) && n == -1),
    ensures
        parse_nullable_array(b, p) == match parse_array(b, p) {
            Err(e) => Err(e),
            Ok((s, l)) => Ok((Some(s), l)),
        },
{
    reveal(parse_nullable_array);
    reveal(parse_array);
}


/// Splitting off the front of a message: re-nesting, then skipping the front.
pub proof fn lemma_split(x: Seq<u8>, y: Seq<u8>, z: Seq<u8>)
    ensures
        (x + y) + z == x + (y + z),
        ((x + y) + z).skip(x.len() as int) == y + z,
{
    assert((x + y) + z =~= x + (y + z));
    assert(((x + y) + z).skip(x.len() as int) =~= y + z);
}


/// Skipping twice is skipping the sum.
pub proof fn lemma_skip_skip(s: Seq<u8>, i: int, j: int)
    requires
        0 <= i,
        0 <= j,
        i + j <= s.len(),
    ensures
        s.skip(i).skip(j) == s.skip(i + j),
{
    assert(s.skip(i).skip(j) =~= s.skip(i + j));
}

} // verus!
