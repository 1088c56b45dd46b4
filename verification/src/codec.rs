//! The byte format of checkpoints: numbers, texts and lists.
//!
//! Each shape has an encoding and a parser. A parser takes a sequence of bytes
//! and gives a value with the bytes behind it, or an error. Numbers are stored
//! with the least significant byte first; texts and lists start with their
//! length.

use vstd::prelude::*;

use crate::error::DataError;
use crate::text;

verus! {

/// The `n` lowest bytes of `v`, least significant first.
pub open spec fn le_bytes(v: nat, n: nat) -> Seq<u8>
    decreases n,
{
    if n == 0 {
        Seq::empty()
    } else {
        seq![(v % 256) as u8] + le_bytes(v / 256, (n - 1) as nat)
    }
}

/// The number whose bytes are `b`, least significant first.
pub open spec fn le_value(b: Seq<u8>) -> nat
    decreases b.len(),
{
    if b.len() == 0 {
        0
    } else {
        b[0] as nat + 256 * le_value(b.skip(1))
    }
}

/// How many numbers `n` bytes can hold.
pub open spec fn range_of(n: nat) -> nat
    decreases n,
{
    if n == 0 {
        1
    } else {
        256 * range_of((n - 1) as nat)
    }
}

/// Four bytes hold a `u32`, and eight bytes a `u64`.
pub proof fn lemma_ranges()
    ensures
        range_of(4) == u32::MAX + 1,
        range_of(8) == u64::MAX + 1,
{
    reveal_with_fuel(range_of, 9);
}

/// `n` bytes give back every number that fits them.
pub proof fn lemma_le_round_trip(v: nat, n: nat)
    requires
        v < range_of(n),
    ensures
        le_bytes(v, n).len() == n,
        le_value(le_bytes(v, n)) == v,
    decreases n,
{
    if n > 0 {
        lemma_le_round_trip(v / 256, (n - 1) as nat);
        assert(le_bytes(v, n).skip(1) =~= le_bytes(v / 256, (n - 1) as nat));
    }
}

/// The length and the range of what bytes stand for.
pub proof fn lemma_le_value_fits(b: Seq<u8>)
    ensures
        le_value(b) < range_of(b.len()),
    decreases b.len(),
{
    if b.len() > 0 {
        lemma_le_value_fits(b.skip(1));
    }
}

proof fn lemma_le_bytes_len(v: nat, n: nat)
    ensures
        le_bytes(v, n).len() == n,
    decreases n,
{
    if n > 0 {
        lemma_le_bytes_len(v / 256, (n - 1) as nat);
    }
}

pub open spec fn encode_u32(v: u32) -> Seq<u8> {
    le_bytes(v as nat, 4)
}

pub open spec fn encode_u64(v: u64) -> Seq<u8> {
    le_bytes(v as nat, 8)
}

/// A text: the number of its UTF-8 bytes, then the bytes.
pub open spec fn encode_text(s: Seq<char>) -> Seq<u8> {
    encode_u64(vstd::utf8::encode_utf8(s).len() as u64) + vstd::utf8::encode_utf8(s)
}

/// The encodings of all elements, one behind the other.
pub open spec fn encode_each<T>(list: Seq<T>, f: spec_fn(T) -> Seq<u8>) -> Seq<u8>
    decreases list.len(),
{
    if list.len() == 0 {
        Seq::empty()
    } else {
        encode_each(list.drop_last(), f) + f(list.last())
    }
}

/// A list: the number of its elements, then the elements.
pub open spec fn encode_list<T>(list: Seq<T>, f: spec_fn(T) -> Seq<u8>) -> Seq<u8> {
    encode_u64(list.len() as u64) + encode_each(list, f)
}

pub open spec fn encode_vector(v: Seq<u32>) -> Seq<u8> {
    encode_list(v, |x: u32| encode_u32(x))
}

pub open spec fn encode_matrix(m: Seq<Seq<u32>>) -> Seq<u8> {
    encode_list(m, |row: Seq<u32>| encode_vector(row))
}

pub open spec fn encode_texts(list: Seq<Seq<char>>) -> Seq<u8> {
    encode_list(list, |s: Seq<char>| encode_text(s))
}

/// What a parser gives.
pub type Parsed<T> = Result<(T, Seq<u8>), DataError>;

pub open spec fn parse_u8(b: Seq<u8>) -> Parsed<u8> {
    if b.len() < 1 {
        Err(DataError::Truncated)
    } else {
        Ok((b[0], b.skip(1)))
    }
}

pub open spec fn parse_u32(b: Seq<u8>) -> Parsed<u32> {
    if b.len() < 4 {
        Err(DataError::Truncated)
    } else {
        Ok((le_value(b.take(4)) as u32, b.skip(4)))
    }
}

pub open spec fn parse_u64(b: Seq<u8>) -> Parsed<u64> {
    if b.len() < 8 {
        Err(DataError::Truncated)
    } else {
        Ok((le_value(b.take(8)) as u64, b.skip(8)))
    }
}

pub open spec fn parse_text(b: Seq<u8>) -> Parsed<Seq<char>> {
    match parse_u64(b) {
        Err(e) => Err(e),
        Ok((n, rest)) => if n > rest.len() {
            Err(DataError::Truncated)
        } else if !vstd::utf8::valid_utf8(rest.take(n as int)) {
            Err(DataError::InvalidUtf8)
        } else {
            Ok((vstd::utf8::decode_utf8(rest.take(n as int)), rest.skip(n as int)))
        },
    }
}

/// `n` elements, one behind the other.
pub open spec fn parse_each<T>(b: Seq<u8>, n: nat, p: spec_fn(Seq<u8>) -> Parsed<T>) -> Parsed<
    Seq<T>,
>
    decreases n,
{
    if n == 0 {
        Ok((Seq::empty(), b))
    } else {
        match parse_each(b, (n - 1) as nat, p) {
            Err(e) => Err(e),
            Ok((list, rest)) => match p(rest) {
                Err(e) => Err(e),
                Ok((x, rest)) => Ok((list.push(x), rest)),
            },
        }
    }
}

pub open spec fn parse_list<T>(b: Seq<u8>, p: spec_fn(Seq<u8>) -> Parsed<T>) -> Parsed<Seq<T>> {
    match parse_u64(b) {
        Err(e) => Err(e),
        Ok((n, rest)) => parse_each(rest, n as nat, p),
    }
}

pub open spec fn parse_vector(b: Seq<u8>) -> Parsed<Seq<u32>> {
    parse_list(b, |c: Seq<u8>| parse_u32(c))
}

pub open spec fn parse_matrix(b: Seq<u8>) -> Parsed<Seq<Seq<u32>>> {
    parse_list(b, |c: Seq<u8>| parse_vector(c))
}

pub open spec fn parse_texts(b: Seq<u8>) -> Parsed<Seq<Seq<char>>> {
    parse_list(b, |c: Seq<u8>| parse_text(c))
}

/// A number is parsed back from its bytes.
pub proof fn lemma_u32_round_trip(v: u32, rest: Seq<u8>)
    ensures
        parse_u32(encode_u32(v) + rest) == Ok::<(u32, Seq<u8>), DataError>((v, rest)),
{
    lemma_ranges();
    lemma_le_round_trip(v as nat, 4);
    assert((encode_u32(v) + rest).take(4) =~= encode_u32(v));
    assert((encode_u32(v) + rest).skip(4) =~= rest);
}

/// A number is parsed back from its bytes.
pub proof fn lemma_u64_round_trip(v: u64, rest: Seq<u8>)
    ensures
        parse_u64(encode_u64(v) + rest) == Ok::<(u64, Seq<u8>), DataError>((v, rest)),
{
    lemma_ranges();
    lemma_le_round_trip(v as nat, 8);
    assert((encode_u64(v) + rest).take(8) =~= encode_u64(v));
    assert((encode_u64(v) + rest).skip(8) =~= rest);
}

/// A text is parsed back from its bytes.
pub proof fn lemma_text_round_trip(s: Seq<char>, rest: Seq<u8>)
    requires
        vstd::utf8::encode_utf8(s).len() <= u64::MAX,
    ensures
        parse_text(encode_text(s) + rest) == Ok::<(Seq<char>, Seq<u8>), DataError>((s, rest)),
{
    let bytes = vstd::utf8::encode_utf8(s);
    let n = bytes.len() as u64;
    lemma_u64_round_trip(n, bytes + rest);
    assert(encode_text(s) + rest =~= encode_u64(n) + (bytes + rest));
    vstd::utf8::encode_utf8_valid_utf8(s);
    vstd::utf8::encode_utf8_decode_utf8(s);
    assert((bytes + rest).take(n as int) =~= bytes);
    assert((bytes + rest).skip(n as int) =~= rest);
}

/// Elements are parsed back from their bytes if each of them is.
pub proof fn lemma_each_round_trip<T>(
    list: Seq<T>,
    f: spec_fn(T) -> Seq<u8>,
    p: spec_fn(Seq<u8>) -> Parsed<T>,
    rest: Seq<u8>,
)
    requires
        forall|i: int, c: Seq<u8>|
            0 <= i < list.len() ==> #[trigger] p(f(list[i]) + c) == Ok::<(T, Seq<u8>), DataError>(
                (list[i], c),
            ),
    ensures
        parse_each(encode_each(list, f) + rest, list.len(), p) == Ok::<
            (Seq<T>, Seq<u8>),
            DataError,
        >((list, rest)),
    decreases list.len(),
{
    if list.len() == 0 {
        assert(encode_each(list, f) + rest =~= rest);
        assert(list =~= Seq::empty());
    } else {
        let shorter = list.drop_last();
        assert forall|i: int, c: Seq<u8>| 0 <= i < shorter.len() implies #[trigger] p(
            f(shorter[i]) + c,
        ) == Ok::<(T, Seq<u8>), DataError>((shorter[i], c)) by {
            assert(shorter[i] == list[i]);
        }
        let last = f(list.last()) + rest;
        lemma_each_round_trip(shorter, f, p, last);
        assert(encode_each(list, f) + rest =~= encode_each(shorter, f) + last);
        assert(list[list.len() - 1] == list.last());
        assert(shorter.push(list.last()) =~= list);
    }
}

/// A list is parsed back from its bytes if each element is.
pub proof fn lemma_list_round_trip<T>(
    list: Seq<T>,
    f: spec_fn(T) -> Seq<u8>,
    p: spec_fn(Seq<u8>) -> Parsed<T>,
    rest: Seq<u8>,
)
    requires
        list.len() <= u64::MAX,
        forall|i: int, c: Seq<u8>|
            0 <= i < list.len() ==> #[trigger] p(f(list[i]) + c) == Ok::<(T, Seq<u8>), DataError>(
                (list[i], c),
            ),
    ensures
        parse_list(encode_list(list, f) + rest, p) == Ok::<(Seq<T>, Seq<u8>), DataError>(
            (list, rest),
        ),
{
    let body = encode_each(list, f) + rest;
    lemma_u64_round_trip(list.len() as u64, body);
    lemma_each_round_trip(list, f, p, rest);
    assert(encode_list(list, f) + rest =~= encode_u64(list.len() as u64) + body);
}

/// A vector is parsed back from its bytes.
pub proof fn lemma_vector_round_trip(v: Seq<u32>, rest: Seq<u8>)
    requires
        v.len() <= u64::MAX,
    ensures
        parse_vector(encode_vector(v) + rest) == Ok::<(Seq<u32>, Seq<u8>), DataError>((v, rest)),
{
    let f = |x: u32| encode_u32(x);
    let p = |c: Seq<u8>| parse_u32(c);
    assert forall|i: int, c: Seq<u8>| 0 <= i < v.len() implies #[trigger] p(f(v[i]) + c) == Ok::<
        (u32, Seq<u8>),
        DataError,
    >((v[i], c)) by {
        lemma_u32_round_trip(v[i], c);
    }
    lemma_list_round_trip(v, f, p, rest);
}

/// A matrix is parsed back from its bytes.
pub proof fn lemma_matrix_round_trip(m: Seq<Seq<u32>>, rest: Seq<u8>)
    requires
        m.len() <= u64::MAX,
        forall|i: int| 0 <= i < m.len() ==> (#[trigger] m[i]).len() <= u64::MAX,
    ensures
        parse_matrix(encode_matrix(m) + rest) == Ok::<(Seq<Seq<u32>>, Seq<u8>), DataError>(
            (m, rest),
        ),
{
    let f = |row: Seq<u32>| encode_vector(row);
    let p = |c: Seq<u8>| parse_vector(c);
    assert forall|i: int, c: Seq<u8>| 0 <= i < m.len() implies #[trigger] p(f(m[i]) + c) == Ok::<
        (Seq<u32>, Seq<u8>),
        DataError,
    >((m[i], c)) by {
        lemma_vector_round_trip(m[i], c);
    }
    lemma_list_round_trip(m, f, p, rest);
}

/// A list of texts is parsed back from its bytes.
pub proof fn lemma_texts_round_trip(list: Seq<Seq<char>>, rest: Seq<u8>)
    requires
        list.len() <= u64::MAX,
        forall|i: int|
            0 <= i < list.len() ==> vstd::utf8::encode_utf8(#[trigger] list[i]).len() <= u64::MAX,
    ensures
        parse_texts(encode_texts(list) + rest) == Ok::<(Seq<Seq<char>>, Seq<u8>), DataError>(
            (list, rest),
        ),
{
    let f = |s: Seq<char>| encode_text(s);
    let p = |c: Seq<u8>| parse_text(c);
    assert forall|i: int, c: Seq<u8>| 0 <= i < list.len() implies #[trigger] p(f(list[i]) + c)
        == Ok::<(Seq<char>, Seq<u8>), DataError>((list[i], c)) by {
        lemma_text_round_trip(list[i], c);
    }
    lemma_list_round_trip(list, f, p, rest);
}

/// Appends one byte.
pub fn write_u8(out: &mut Vec<u8>, v: u8)
    ensures
        final(out)@ == old(out)@ + seq![v],
{
    out.push(v);
    assert(out@ =~= old(out)@ + seq![v]);
}

/// Appends the `n` lowest bytes of `v`.
fn write_le(out: &mut Vec<u8>, v: u64, n: usize)
    ensures
        final(out)@ == old(out)@ + le_bytes(v as nat, n as nat),
{
    let mut rest: u64 = v;
    let mut left: usize = n;
    assert(out@ + le_bytes(rest as nat, left as nat) =~= old(out)@ + le_bytes(v as nat, n as nat));
    while left > 0
        invariant
            out@ + le_bytes(rest as nat, left as nat) == old(out)@ + le_bytes(v as nat, n as nat),
        decreases left,
    {
        let ghost before = out@;
        out.push((rest % 256) as u8);
        proof {
            assert(out@ + le_bytes((rest / 256) as nat, (left - 1) as nat) =~= before + le_bytes(
                rest as nat,
                left as nat,
            ));
        }
        rest = rest / 256;
        left -= 1;
    }
    assert(out@ + le_bytes(rest as nat, 0) =~= out@);
}

/// Appends a `u32`.
pub fn write_u32(out: &mut Vec<u8>, v: u32)
    ensures
        final(out)@ == old(out)@ + encode_u32(v),
{
    write_le(out, v as u64, 4);
}

/// Appends a `u64`.
pub fn write_u64(out: &mut Vec<u8>, v: u64)
    ensures
        final(out)@ == old(out)@ + encode_u64(v),
{
    write_le(out, v, 8);
}

/// Appends a text.
pub fn write_string(out: &mut Vec<u8>, s: &str)
    ensures
        final(out)@ == old(out)@ + encode_text(s@),
{
    let bytes: &[u8] = s.as_bytes();
    let n: usize = bytes.len();
    write_u64(out, n as u64);
    let ghost before = out@;
    let mut i: usize = 0;
    while i < n
        invariant
            i <= n == bytes@.len(),
            out@ == before + bytes@.take(i as int),
        decreases n - i,
    {
        out.push(bytes[i]);
        i += 1;
        assert(out@ =~= before + bytes@.take(i as int));
    }
    assert(out@ =~= old(out)@ + encode_text(s@));
}

/// Appends a vector.
pub fn write_vector(out: &mut Vec<u8>, v: &Vec<u32>)
    ensures
        final(out)@ == old(out)@ + encode_vector(v.deep_view()),
{
    let ghost list = v.deep_view();
    let ghost f = |x: u32| encode_u32(x);
    write_u64(out, v.len() as u64);
    let ghost before = out@;
    let mut i: usize = 0;
    assert(out@ =~= before + encode_each(list.take(0), f));
    while i < v.len()
        invariant
            i <= v@.len(),
            list == v.deep_view(),
            f == (|x: u32| encode_u32(x)),
            out@ == before + encode_each(list.take(i as int), f),
        decreases v@.len() - i,
    {
        write_u32(out, v[i]);
        i += 1;
        proof {
            assert(list.take(i as int).drop_last() =~= list.take(i - 1));
            assert(out@ =~= before + encode_each(list.take(i as int), f));
        }
    }
    assert(list.take(i as int) =~= list);
    assert(out@ =~= old(out)@ + encode_vector(list));
}

/// Appends a matrix.
pub fn write_matrix(out: &mut Vec<u8>, m: &Vec<Vec<u32>>)
    ensures
        final(out)@ == old(out)@ + encode_matrix(m.deep_view()),
{
    let ghost list = m.deep_view();
    let ghost f = |row: Seq<u32>| encode_vector(row);
    write_u64(out, m.len() as u64);
    let ghost before = out@;
    let mut i: usize = 0;
    assert(out@ =~= before + encode_each(list.take(0), f));
    while i < m.len()
        invariant
            i <= m@.len(),
            list == m.deep_view(),
            f == (|row: Seq<u32>| encode_vector(row)),
            out@ == before + encode_each(list.take(i as int), f),
        decreases m@.len() - i,
    {
        write_vector(out, &m[i]);
        i += 1;
        proof {
            assert(list.take(i as int).drop_last() =~= list.take(i - 1));
            assert(out@ =~= before + encode_each(list.take(i as int), f));
        }
    }
    assert(list.take(i as int) =~= list);
    assert(out@ =~= old(out)@ + encode_matrix(list));
}

/// Appends a list of texts.
pub fn write_strings(out: &mut Vec<u8>, v: &Vec<String>)
    ensures
        final(out)@ == old(out)@ + encode_texts(v.deep_view()),
{
    let ghost list = v.deep_view();
    let ghost f = |s: Seq<char>| encode_text(s);
    write_u64(out, v.len() as u64);
    let ghost before = out@;
    let mut i: usize = 0;
    assert(out@ =~= before + encode_each(list.take(0), f));
    while i < v.len()
        invariant
            i <= v@.len(),
            list == v.deep_view(),
            f == (|s: Seq<char>| encode_text(s)),
            out@ == before + encode_each(list.take(i as int), f),
        decreases v@.len() - i,
    {
        write_string(out, v[i].as_str());
        i += 1;
        proof {
            assert(list.take(i as int).drop_last() =~= list.take(i - 1));
            assert(out@ =~= before + encode_each(list.take(i as int), f));
        }
    }
    assert(list.take(i as int) =~= list);
    assert(out@ =~= old(out)@ + encode_texts(list));
}

/// A reader that stood at `pos` found what the parser finds there.
pub open spec fn reads<T>(
    found: Result<(T, usize), DataError>,
    parsed: Parsed<T>,
    b: Seq<u8>,
    pos: usize,
) -> bool {
    match found {
        Ok((v, next)) => pos <= next <= b.len() && parsed == Ok::<(T, Seq<u8>), DataError>(
            (v, b.skip(next as int)),
        ),
        Err(e) => parsed == Err::<(T, Seq<u8>), DataError>(e),
    }
}

/// Reads one byte.
pub fn read_u8(b: &[u8], pos: usize) -> (r: Result<(u8, usize), DataError>)
    requires
        pos <= b@.len(),
    ensures
        reads(r, parse_u8(b@.skip(pos as int)), b@, pos),
{
    if pos == b.len() {
        return Err(DataError::Truncated);
    }
    assert(b@.skip(pos as int).skip(1) =~= b@.skip(pos + 1));
    Ok((b[pos], pos + 1))
}

/// The number in the `n` bytes at `pos`.
fn read_le(b: &[u8], pos: usize, n: usize) -> (v: u64)
    requires
        n <= 8,
        pos + n <= b@.len(),
    ensures
        v == le_value(b@.subrange(pos as int, pos + n)),
        v < range_of(n as nat),
{
    let total: usize = b.len();
    let mut v: u64 = 0;
    let mut i: usize = n;
    assert(b@.subrange(pos + i, pos + n) =~= Seq::<u8>::empty());
    while i > 0
        invariant
            i <= n <= 8,
            pos + n <= total == b@.len(),
            v == le_value(b@.subrange(pos + i, pos + n)),
        decreases i,
    {
        let ghost rest = b@.subrange(pos + i, pos + n);
        i -= 1;
        proof {
            let longer = b@.subrange(pos + i, pos + n);
            assert(longer.skip(1) =~= rest);
            lemma_le_value_fits(longer);
            lemma_ranges();
            lemma_range_grows(longer.len(), 8);
        }
        v = v * 256 + b[pos + i] as u64;
    }
    proof {
        lemma_le_value_fits(b@.subrange(pos as int, pos + n));
    }
    v
}

/// More bytes hold more numbers.
proof fn lemma_range_grows(m: nat, n: nat)
    requires
        m <= n,
    ensures
        1 <= range_of(m) <= range_of(n),
    decreases n,
{
    if n > 0 && m < n {
        lemma_range_grows(m, (n - 1) as nat);
    } else if n > 0 {
        lemma_range_grows((m - 1) as nat, (n - 1) as nat);
    }
}

/// Reads a `u32`.
pub fn read_u32(b: &[u8], pos: usize) -> (r: Result<(u32, usize), DataError>)
    requires
        pos <= b@.len(),
    ensures
        reads(r, parse_u32(b@.skip(pos as int)), b@, pos),
{
    if b.len() - pos < 4 {
        return Err(DataError::Truncated);
    }
    let v: u64 = read_le(b, pos, 4);
    proof {
        lemma_ranges();
        assert(b@.skip(pos as int).take(4) =~= b@.subrange(pos as int, pos + 4));
        assert(b@.skip(pos as int).skip(4) =~= b@.skip(pos + 4));
    }
    Ok((v as u32, pos + 4))
}

/// Reads a `u64`.
pub fn read_u64(b: &[u8], pos: usize) -> (r: Result<(u64, usize), DataError>)
    requires
        pos <= b@.len(),
    ensures
        reads(r, parse_u64(b@.skip(pos as int)), b@, pos),
{
    if b.len() - pos < 8 {
        return Err(DataError::Truncated);
    }
    let v: u64 = read_le(b, pos, 8);
    proof {
        assert(b@.skip(pos as int).take(8) =~= b@.subrange(pos as int, pos + 8));
        assert(b@.skip(pos as int).skip(8) =~= b@.skip(pos + 8));
    }
    Ok((v, pos + 8))
}

/// The outside type behind a failed UTF-8 check.
#[verifier::external_type_specification]
#[verifier::external_body]
pub struct ExUtf8Error(core::str::Utf8Error);

/// `str::from_utf8` succeeds exactly on valid UTF-8, and gives the text whose
/// bytes it was handed.
pub assume_specification[ core::str::from_utf8 ](v: &[u8]) -> (r: Result<
    &str,
    core::str::Utf8Error,
>)
    ensures
        match r {
            Ok(s) => vstd::utf8::valid_utf8(v@) && vstd::utf8::encode_utf8(s@) == v@,
            Err(_) => !vstd::utf8::valid_utf8(v@),
        },
;

/// A found value, as the parser sees it.
pub open spec fn value_found<V: DeepView>(found: Result<(V, usize), DataError>) -> Result<
    (V::V, usize),
    DataError,
> {
    match found {
        Ok((v, next)) => Ok((v.deep_view(), next)),
        Err(e) => Err(e),
    }
}

/// Reads a text.
pub fn read_string(b: &[u8], pos: usize) -> (r: Result<(String, usize), DataError>)
    requires
        pos <= b@.len(),
    ensures
        reads(value_found(r), parse_text(b@.skip(pos as int)), b@, pos),
{
    match read_u64(b, pos) {
        Err(e) => Err(e),
        Ok((n, at)) => {
            if n > (b.len() - at) as u64 {
                return Err(DataError::Truncated);
            }
            let n: usize = n as usize;
            let part: &[u8] = vstd::slice::slice_subrange(b, at, at + n);
            assert(b@.skip(at as int).take(n as int) =~= part@);
            assert(b@.skip(at as int).skip(n as int) =~= b@.skip(at + n));
            match core::str::from_utf8(part) {
                Err(_) => Err(DataError::InvalidUtf8),
                Ok(s) => {
                    proof {
                        vstd::utf8::encode_utf8_decode_utf8(s@);
                    }
                    Ok((s.to_owned(), at + n))
                },
            }
        },
    }
}

/// An element that cannot be parsed spoils every longer list.
pub proof fn lemma_error_stays<T>(b: Seq<u8>, m: nat, n: nat, p: spec_fn(Seq<u8>) -> Parsed<T>)
    requires
        m <= n,
        parse_each(b, m, p) is Err,
    ensures
        parse_each(b, n, p) == parse_each(b, m, p),
    decreases n,
{
    if m < n {
        lemma_error_stays(b, m, (n - 1) as nat, p);
    }
}

/// Reads a vector.
pub fn read_vector(b: &[u8], pos: usize) -> (r: Result<(Vec<u32>, usize), DataError>)
    requires
        pos <= b@.len(),
    ensures
        reads(value_found(r), parse_vector(b@.skip(pos as int)), b@, pos),
{
    let ghost p = |c: Seq<u8>| parse_u32(c);
    match read_u64(b, pos) {
        Err(e) => Err(e),
        Ok((n, start)) => {
            let ghost body = b@.skip(start as int);
            let mut v: Vec<u32> = Vec::new();
            let mut at: usize = start;
            let mut i: u64 = 0;
            assert(v.deep_view() =~= Seq::<u32>::empty());
            while i < n
                invariant
                    i <= n,
                    pos <= start <= at <= b@.len(),
                    p == (|c: Seq<u8>| parse_u32(c)),
                    body == b@.skip(start as int),
                    parse_vector(b@.skip(pos as int)) == parse_each(body, n as nat, p),
                    parse_each(body, i as nat, p) == Ok::<(Seq<u32>, Seq<u8>), DataError>(
                        (v.deep_view(), b@.skip(at as int)),
                    ),
                decreases n - i,
            {
                let ghost before = v.deep_view();
                match read_u32(b, at) {
                    Err(e) => {
                        proof {
                            lemma_error_stays(body, (i + 1) as nat, n as nat, p);
                        }
                        return Err(e);
                    },
                    Ok((x, next)) => {
                        v.push(x);
                        at = next;
                        i += 1;
                        assert(v.deep_view() =~= before.push(x));
                    },
                }
            }
            Ok((v, at))
        },
    }
}

/// Reads a matrix.
pub fn read_matrix(b: &[u8], pos: usize) -> (r: Result<(Vec<Vec<u32>>, usize), DataError>)
    requires
        pos <= b@.len(),
    ensures
        reads(value_found(r), parse_matrix(b@.skip(pos as int)), b@, pos),
{
    let ghost p = |c: Seq<u8>| parse_vector(c);
    match read_u64(b, pos) {
        Err(e) => Err(e),
        Ok((n, start)) => {
            let ghost body = b@.skip(start as int);
            let mut v: Vec<Vec<u32>> = Vec::new();
            let mut at: usize = start;
            let mut i: u64 = 0;
            assert(v.deep_view() =~= Seq::<Seq<u32>>::empty());
            while i < n
                invariant
                    i <= n,
                    pos <= start <= at <= b@.len(),
                    p == (|c: Seq<u8>| parse_vector(c)),
                    body == b@.skip(start as int),
                    parse_matrix(b@.skip(pos as int)) == parse_each(body, n as nat, p),
                    parse_each(body, i as nat, p) == Ok::<(Seq<Seq<u32>>, Seq<u8>), DataError>(
                        (v.deep_view(), b@.skip(at as int)),
                    ),
                decreases n - i,
            {
                let ghost before = v.deep_view();
                match read_vector(b, at) {
                    Err(e) => {
                        proof {
                            lemma_error_stays(body, (i + 1) as nat, n as nat, p);
                        }
                        return Err(e);
                    },
                    Ok((x, next)) => {
                        let ghost row = x.deep_view();
                        v.push(x);
                        at = next;
                        i += 1;
                        assert(v.deep_view() =~= before.push(row));
                    },
                }
            }
            Ok((v, at))
        },
    }
}

/// Reads a list of texts.
pub fn read_strings(b: &[u8], pos: usize) -> (r: Result<(Vec<String>, usize), DataError>)
    requires
        pos <= b@.len(),
    ensures
        reads(value_found(r), parse_texts(b@.skip(pos as int)), b@, pos),
{
    let ghost p = |c: Seq<u8>| parse_text(c);
    match read_u64(b, pos) {
        Err(e) => Err(e),
        Ok((n, start)) => {
            let ghost body = b@.skip(start as int);
            let mut v: Vec<String> = Vec::new();
            let mut at: usize = start;
            let mut i: u64 = 0;
            assert(v.deep_view() =~= Seq::<Seq<char>>::empty());
            while i < n
                invariant
                    i <= n,
                    pos <= start <= at <= b@.len(),
                    p == (|c: Seq<u8>| parse_text(c)),
                    body == b@.skip(start as int),
                    parse_texts(b@.skip(pos as int)) == parse_each(body, n as nat, p),
                    parse_each(body, i as nat, p) == Ok::<(Seq<Seq<char>>, Seq<u8>), DataError>(
                        (v.deep_view(), b@.skip(at as int)),
                    ),
                decreases n - i,
            {
                let ghost before = v.deep_view();
                match read_string(b, at) {
                    Err(e) => {
                        proof {
                            lemma_error_stays(body, (i + 1) as nat, n as nat, p);
                        }
                        return Err(e);
                    },
                    Ok((x, next)) => {
                        let ghost s = x.deep_view();
                        v.push(x);
                        at = next;
                        i += 1;
                        assert(v.deep_view() =~= before.push(s));
                    },
                }
            }
            Ok((v, at))
        },
    }
}

} // verus!
