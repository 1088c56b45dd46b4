//! What the bytes of a checkpoint are, and what is refused.

use vstd::prelude::*;

use crate::checkpoint::{self, Record, Weights};
use crate::codec::{self, Parsed};
use crate::error::DataError;
use crate::table;

verus! {

/// A number of 32 bits is stored in four bytes, the lowest first.
pub proof fn law_small_numbers_are_stored_low_byte_first(v: u32)
    ensures
        codec::encode_u32(v).len() == 4,
        v == codec::encode_u32(v)[0] + 0x100 * codec::encode_u32(v)[1] + 0x1_0000
            * codec::encode_u32(v)[2] + 0x100_0000 * codec::encode_u32(v)[3],
{
    codec::lemma_ranges();
    codec::lemma_le_round_trip(v as nat, 4);
    lemma_value_of_four(codec::encode_u32(v));
}

/// A number of 64 bits is stored in eight bytes, the lowest first.
pub proof fn law_numbers_are_stored_low_byte_first(v: u64)
    ensures
        codec::encode_u64(v).len() == 8,
        ({
            let b = codec::encode_u64(v);
            v == b[0] + 0x100 * b[1] + 0x1_0000 * b[2] + 0x100_0000 * b[3] + 0x1_0000_0000 * (b[4]
                + 0x100 * b[5] + 0x1_0000 * b[6] + 0x100_0000 * b[7])
        }),
{
    let b = codec::encode_u64(v);
    codec::lemma_ranges();
    codec::lemma_le_round_trip(v as nat, 8);
    let b1 = b.skip(1);
    let b2 = b1.skip(1);
    let b3 = b2.skip(1);
    let b4 = b3.skip(1);
    lemma_value_of_four(b4);
    assert(codec::le_value(b3) == b3[0] as nat + 256 * codec::le_value(b4));
    assert(codec::le_value(b2) == b2[0] as nat + 256 * codec::le_value(b3));
    assert(codec::le_value(b1) == b1[0] as nat + 256 * codec::le_value(b2));
    assert(codec::le_value(b) == b[0] as nat + 256 * codec::le_value(b1));
}

/// What four bytes stand for.
proof fn lemma_value_of_four(b: Seq<u8>)
    requires
        b.len() == 4,
    ensures
        codec::le_value(b) == b[0] + 0x100 * b[1] + 0x1_0000 * b[2] + 0x100_0000 * b[3],
{
    let b1 = b.skip(1);
    let b2 = b1.skip(1);
    let b3 = b2.skip(1);
    let b4 = b3.skip(1);
    assert(codec::le_value(b4) == 0);
    assert(codec::le_value(b3) == b3[0] as nat + 256 * codec::le_value(b4));
    assert(codec::le_value(b2) == b2[0] as nat + 256 * codec::le_value(b3));
    assert(codec::le_value(b1) == b1[0] as nat + 256 * codec::le_value(b2));
    assert(codec::le_value(b) == b[0] as nat + 256 * codec::le_value(b1));
}

/// A number is read from as many bytes as it has, and from fewer it is not read.
pub proof fn law_numbers_are_read(b: Seq<u8>)
    ensures
        b.len() < 4 ==> codec::parse_u32(b) == Err::<(u32, Seq<u8>), DataError>(
            DataError::Truncated,
        ),
        b.len() >= 4 ==> codec::parse_u32(b) is Ok && codec::encode_u32(
            codec::parse_u32(b)->Ok_0.0,
        ) + codec::parse_u32(b)->Ok_0.1 == b,
        b.len() < 8 ==> codec::parse_u64(b) == Err::<(u64, Seq<u8>), DataError>(
            DataError::Truncated,
        ),
        b.len() >= 8 ==> codec::parse_u64(b) is Ok && codec::encode_u64(
            codec::parse_u64(b)->Ok_0.0,
        ) + codec::parse_u64(b)->Ok_0.1 == b,
{
    if b.len() >= 4 {
        lemma_bytes_of_value(b.take(4));
        codec::lemma_ranges();
        codec::lemma_le_value_fits(b.take(4));
        assert(b.take(4) + b.skip(4) =~= b);
    }
    if b.len() >= 8 {
        lemma_bytes_of_value(b.take(8));
        codec::lemma_ranges();
        codec::lemma_le_value_fits(b.take(8));
        assert(b.take(8) + b.skip(8) =~= b);
    }
}

/// The bytes of the number that some bytes stand for are these bytes.
proof fn lemma_bytes_of_value(b: Seq<u8>)
    ensures
        codec::le_bytes(codec::le_value(b), b.len()) == b,
    decreases b.len(),
{
    if b.len() == 0 {
        assert(codec::le_bytes(0, 0) =~= b);
    } else {
        let rest = codec::le_value(b.skip(1));
        lemma_bytes_of_value(b.skip(1));
        assert((b[0] as nat + 256 * rest) % 256 == b[0]);
        assert((b[0] as nat + 256 * rest) / 256 == rest);
        assert(seq![b[0]] + b.skip(1) =~= b);
    }
}

/// A text is stored as its UTF-8 bytes behind their number.
pub proof fn law_texts_are_stored_behind_their_length(s: Seq<char>)
    requires
        checkpoint::text_fits(s),
    ensures
        codec::encode_text(s) == codec::encode_u64(
            vstd::utf8::encode_utf8(s).len() as u64,
        ) + vstd::utf8::encode_utf8(s),
        codec::encode_text(s).len() == 8 + vstd::utf8::encode_utf8(s).len(),
{
    law_numbers_are_stored_low_byte_first(vstd::utf8::encode_utf8(s).len() as u64);
}

/// Of the bytes behind a number as many are read as a text as the number says: no
/// text where there are not so many, and none where they are not UTF-8.
pub proof fn law_texts_are_read(n: u64, rest: Seq<u8>)
    ensures
        ({
            let found = codec::parse_text(codec::encode_u64(n) + rest);
            let bytes = rest.take(n as int);
            if rest.len() < n {
                found == Err::<(Seq<char>, Seq<u8>), DataError>(DataError::Truncated)
            } else if vstd::utf8::valid_utf8(bytes) {
                found is Ok && vstd::utf8::encode_utf8(found->Ok_0.0) == bytes && found->Ok_0.1
                    == rest.skip(n as int)
            } else {
                found == Err::<(Seq<char>, Seq<u8>), DataError>(DataError::InvalidUtf8)
            }
        }),
{
    codec::lemma_u64_round_trip(n, rest);
    if n <= rest.len() && vstd::utf8::valid_utf8(rest.take(n as int)) {
        vstd::utf8::decode_utf8_encode_utf8(rest.take(n as int));
    }
}

/// The elements of a list are stored one behind the other.
pub proof fn law_elements_are_stored_in_order<T>(list: Seq<T>, f: spec_fn(T) -> Seq<u8>)
    ensures
        codec::encode_each(list, f) == list.map_values(f).flatten(),
        codec::encode_list(list, f) == codec::encode_u64(list.len() as u64) + list.map_values(
            f,
        ).flatten(),
    decreases list.len(),
{
    let all = list.map_values(f);
    if list.len() == 0 {
        assert(all.flatten() =~= Seq::<u8>::empty());
    } else {
        law_elements_are_stored_in_order(list.drop_last(), f);
        all.lemma_flatten_and_flatten_alt_are_equivalent();
        all.drop_last().lemma_flatten_and_flatten_alt_are_equivalent();
        assert(all.drop_last() =~= list.drop_last().map_values(f));
        assert(all.last() == f(list.last()));
        assert(codec::encode_each(list, f) =~= all.flatten());
    }
}

/// Vectors, matrices and lists of texts are stored as the number of their elements
/// and the elements.
pub proof fn law_lists_are_stored_behind_their_length(
    v: Seq<u32>,
    m: Seq<Seq<u32>>,
    l: Seq<Seq<char>>,
)
    ensures
        codec::encode_vector(v) == codec::encode_u64(v.len() as u64) + v.map_values(
            |x: u32| codec::encode_u32(x),
        ).flatten(),
        codec::encode_matrix(m) == codec::encode_u64(m.len() as u64) + m.map_values(
            |row: Seq<u32>| codec::encode_vector(row),
        ).flatten(),
        codec::encode_texts(l) == codec::encode_u64(l.len() as u64) + l.map_values(
            |s: Seq<char>| codec::encode_text(s),
        ).flatten(),
{
    law_elements_are_stored_in_order(v, |x: u32| codec::encode_u32(x));
    law_elements_are_stored_in_order(m, |row: Seq<u32>| codec::encode_vector(row));
    law_elements_are_stored_in_order(l, |s: Seq<char>| codec::encode_text(s));
}

/// A list that was read has as many elements as were asked for.
pub proof fn law_all_elements_are_read<T>(b: Seq<u8>, n: nat, p: spec_fn(Seq<u8>) -> Parsed<T>)
    ensures
        codec::parse_each(b, n, p) is Ok ==> codec::parse_each(b, n, p)->Ok_0.0.len() == n,
    decreases n,
{
    if n > 0 {
        law_all_elements_are_read(b, (n - 1) as nat, p);
    }
}

/// The first element that cannot be read decides what is wrong with a list.
pub proof fn law_the_first_failure_counts<T>(
    b: Seq<u8>,
    m: nat,
    n: nat,
    p: spec_fn(Seq<u8>) -> Parsed<T>,
    list: Seq<T>,
    rest: Seq<u8>,
    e: DataError,
)
    requires
        m < n,
        codec::parse_each(b, m, p) == Ok::<(Seq<T>, Seq<u8>), DataError>((list, rest)),
        p(rest) == Err::<(T, Seq<u8>), DataError>(e),
    ensures
        codec::parse_each(b, n, p) == Err::<(Seq<T>, Seq<u8>), DataError>(e),
    decreases n,
{
    if m < n - 1 {
        law_the_first_failure_counts(b, m, (n - 1) as nat, p, list, rest, e);
    }
}

/// A record starts with 1 for a scalar, 2 for a vector, 3 for a matrix and 4 for a
/// list of strings; then come its key and its value.
pub proof fn law_records_start_with_their_kind(
    k: Seq<char>,
    x: u64,
    v: Seq<u32>,
    m: Seq<Seq<u32>>,
    l: Seq<Seq<char>>,
)
    ensures
        checkpoint::encode_record(Record::Scalar(k, x)) == seq![1u8] + codec::encode_text(k)
            + codec::encode_u64(x),
        checkpoint::encode_record(Record::Vector(k, v)) == seq![2u8] + codec::encode_text(k)
            + codec::encode_vector(v),
        checkpoint::encode_record(Record::Matrix(k, m)) == seq![3u8] + codec::encode_text(k)
            + codec::encode_matrix(m),
        checkpoint::encode_record(Record::Strings(k, l)) == seq![4u8] + codec::encode_text(k)
            + codec::encode_texts(l),
{
}

/// A record of any other kind is refused, whatever stands behind its key.
pub proof fn law_other_records_are_refused(kind: u8, k: Seq<char>, rest: Seq<u8>)
    requires
        kind == 0 || kind > 4,
        checkpoint::text_fits(k),
    ensures
        checkpoint::parse_record(seq![kind] + codec::encode_text(k) + rest) == Err::<
            (Record, Seq<u8>),
            DataError,
        >(DataError::UnknownRecord(kind)),
{
    let b = seq![kind] + codec::encode_text(k) + rest;
    assert(b.skip(1) =~= codec::encode_text(k) + rest);
    codec::lemma_text_round_trip(k, rest);
}

/// A checkpoint starts with the four letters `TFWM` and the version 1. Then come
/// the number of its records and the records, one behind the other.
pub proof fn law_checkpoints_start_alike(records: Seq<Record>)
    ensures
        checkpoint::encode_records(records) == seq![0x54u8, 0x46u8, 0x57u8, 0x4du8, 1u8, 0u8, 0u8, 0u8]
            + codec::encode_u64(records.len() as u64) + records.map_values(
            |r: Record| checkpoint::encode_record(r),
        ).flatten(),
{
    reveal_with_fuel(codec::le_bytes, 5);
    law_elements_are_stored_in_order(records, |r: Record| checkpoint::encode_record(r));
    assert(checkpoint::magic() + codec::encode_u32(1) =~= seq![
        0x54u8,
        0x46u8,
        0x57u8,
        0x4du8,
        1u8,
        0u8,
        0u8,
        0u8,
    ]);
}

/// What does not start with these four letters is no checkpoint, and neither is a
/// checkpoint of another version.
pub proof fn law_foreign_bytes_are_refused(b: Seq<u8>, version: u32, rest: Seq<u8>)
    ensures
        b.len() < 4 ==> checkpoint::parse_records(b) == Err::<Seq<Record>, DataError>(
            DataError::Truncated,
        ),
        b.len() >= 4 && !(b[0] == 0x54 && b[1] == 0x46 && b[2] == 0x57 && b[3] == 0x4d)
            ==> checkpoint::parse_records(b) == Err::<Seq<Record>, DataError>(DataError::BadMagic),
        version != 1 ==> checkpoint::parse_records(
            seq![0x54u8, 0x46u8, 0x57u8, 0x4du8] + codec::encode_u32(version) + rest,
        ) == Err::<Seq<Record>, DataError>(DataError::UnsupportedVersion(version)),
{
    let start = seq![0x54u8, 0x46u8, 0x57u8, 0x4du8];
    let c = start + codec::encode_u32(version) + rest;
    if b.len() >= 4 && b.take(4) == checkpoint::magic() {
        assert(b[0] == b.take(4)[0] && b[1] == b.take(4)[1] && b[2] == b.take(4)[2] && b[3]
            == b.take(4)[3]);
    }
    assert(c.take(4) =~= start);
    assert(c.skip(4) =~= codec::encode_u32(version) + rest);
    codec::lemma_u32_round_trip(version, rest);
}

/// What stands behind the last record is not looked at.
pub proof fn law_bytes_behind_a_checkpoint_are_ignored(records: Seq<Record>, rest: Seq<u8>)
    requires
        records.len() <= u64::MAX,
        forall|i: int| 0 <= i < records.len() ==> checkpoint::fits(#[trigger] records[i]),
    ensures
        checkpoint::parse_records(checkpoint::encode_records(records) + rest) == Ok::<
            Seq<Record>,
            DataError,
        >(records),
{
    let f = |r: Record| checkpoint::encode_record(r);
    let p = |c: Seq<u8>| checkpoint::parse_record(c);
    let n = records.len() as u64;
    let body = codec::encode_each(records, f);
    let b = checkpoint::encode_records(records) + rest;
    law_small_numbers_are_stored_low_byte_first(checkpoint::VERSION);
    assert(b.take(4) =~= checkpoint::magic());
    assert(b.skip(4) =~= codec::encode_u32(checkpoint::VERSION) + (codec::encode_u64(n) + (body
        + rest)));
    codec::lemma_u32_round_trip(checkpoint::VERSION, codec::encode_u64(n) + (body + rest));
    codec::lemma_u64_round_trip(n, body + rest);
    assert forall|i: int, c: Seq<u8>| 0 <= i < records.len() implies #[trigger] p(
        f(records[i]) + c,
    ) == Ok::<(Record, Seq<u8>), DataError>((records[i], c)) by {
        checkpoint::lemma_record_round_trip(records[i], c);
    }
    codec::lemma_each_round_trip(records, f, p, rest);
}

/// No beginning of the bytes can be read, only all of them.
pub open spec fn needs_all<T>(p: spec_fn(Seq<u8>) -> Parsed<T>, bytes: Seq<u8>) -> bool {
    forall|n: int|
        0 <= n < bytes.len() ==> #[trigger] p(bytes.take(n)) == Err::<(T, Seq<u8>), DataError>(
            DataError::Truncated,
        )
}

proof fn lemma_text_needs_all(s: Seq<char>)
    requires
        checkpoint::text_fits(s),
    ensures
        needs_all(|c: Seq<u8>| codec::parse_text(c), codec::encode_text(s)),
{
    let p = |c: Seq<u8>| codec::parse_text(c);
    let bytes = vstd::utf8::encode_utf8(s);
    let e = codec::encode_text(s);
    law_texts_are_stored_behind_their_length(s);
    assert forall|n: int| 0 <= n < e.len() implies #[trigger] p(e.take(n)) == Err::<
        (Seq<char>, Seq<u8>),
        DataError,
    >(DataError::Truncated) by {
        if n >= 8 {
            law_numbers_are_stored_low_byte_first(bytes.len() as u64);
            assert(e.take(n) =~= codec::encode_u64(bytes.len() as u64) + bytes.take(n - 8));
            law_texts_are_read(bytes.len() as u64, bytes.take(n - 8));
        }
    }
}

/// A list can be read from all its bytes only, where that holds of its elements.
proof fn lemma_each_needs_all<T>(
    list: Seq<T>,
    f: spec_fn(T) -> Seq<u8>,
    p: spec_fn(Seq<u8>) -> Parsed<T>,
    n: int,
)
    requires
        0 <= n < codec::encode_each(list, f).len(),
        forall|i: int, c: Seq<u8>|
            0 <= i < list.len() ==> #[trigger] p(f(list[i]) + c) == Ok::<(T, Seq<u8>), DataError>(
                (list[i], c),
            ),
        forall|i: int| 0 <= i < list.len() ==> #[trigger] needs_all(p, f(list[i])),
    ensures
        codec::parse_each(codec::encode_each(list, f).take(n), list.len(), p) == Err::<
            (Seq<T>, Seq<u8>),
            DataError,
        >(DataError::Truncated),
    decreases list.len(),
{
    let all = codec::encode_each(list, f);
    let shorter = list.drop_last();
    let head = codec::encode_each(shorter, f);
    let tail = f(list.last());
    assert(all == head + tail);
    assert forall|i: int, c: Seq<u8>| 0 <= i < shorter.len() implies #[trigger] p(
        f(shorter[i]) + c,
    ) == Ok::<(T, Seq<u8>), DataError>((shorter[i], c)) by {
        assert(p(f(list[i]) + c) == Ok::<(T, Seq<u8>), DataError>((list[i], c)));
    }
    if n < head.len() {
        assert forall|i: int| 0 <= i < shorter.len() implies #[trigger] needs_all(
            p,
            f(shorter[i]),
        ) by {
            assert(needs_all(p, f(list[i])));
        }
        lemma_each_needs_all(shorter, f, p, n);
        assert(all.take(n) =~= head.take(n));
    } else {
        let c = tail.take(n - head.len());
        assert(all.take(n) =~= head + c);
        codec::lemma_each_round_trip(shorter, f, p, c);
        assert(needs_all(p, f(list[list.len() - 1])));
        assert(p(c) == Err::<(T, Seq<u8>), DataError>(DataError::Truncated));
    }
}

/// A list with its length in front can be read from all its bytes only.
proof fn lemma_list_needs_all<T>(
    list: Seq<T>,
    f: spec_fn(T) -> Seq<u8>,
    p: spec_fn(Seq<u8>) -> Parsed<T>,
    n: int,
)
    requires
        list.len() <= u64::MAX,
        0 <= n < codec::encode_list(list, f).len(),
        forall|i: int, c: Seq<u8>|
            0 <= i < list.len() ==> #[trigger] p(f(list[i]) + c) == Ok::<(T, Seq<u8>), DataError>(
                (list[i], c),
            ),
        forall|i: int| 0 <= i < list.len() ==> #[trigger] needs_all(p, f(list[i])),
    ensures
        codec::parse_list(codec::encode_list(list, f).take(n), p) == Err::<
            (Seq<T>, Seq<u8>),
            DataError,
        >(DataError::Truncated),
{
    let all = codec::encode_list(list, f);
    let body = codec::encode_each(list, f);
    let len = list.len() as u64;
    law_numbers_are_stored_low_byte_first(len);
    if n >= 8 {
        assert(all.take(n) =~= codec::encode_u64(len) + body.take(n - 8));
        codec::lemma_u64_round_trip(len, body.take(n - 8));
        lemma_each_needs_all(list, f, p, n - 8);
    }
}

proof fn lemma_vector_needs_all(v: Seq<u32>)
    requires
        v.len() <= u64::MAX,
    ensures
        needs_all(|c: Seq<u8>| codec::parse_vector(c), codec::encode_vector(v)),
{
    let f = |x: u32| codec::encode_u32(x);
    let p = |c: Seq<u8>| codec::parse_u32(c);
    let q = |c: Seq<u8>| codec::parse_vector(c);
    let e = codec::encode_vector(v);
    assert forall|i: int, c: Seq<u8>| 0 <= i < v.len() implies #[trigger] p(f(v[i]) + c) == Ok::<
        (u32, Seq<u8>),
        DataError,
    >((v[i], c)) by {
        codec::lemma_u32_round_trip(v[i], c);
    }
    assert forall|i: int| 0 <= i < v.len() implies #[trigger] needs_all(p, f(v[i])) by {
        law_small_numbers_are_stored_low_byte_first(v[i]);
    }
    assert forall|n: int| 0 <= n < e.len() implies #[trigger] q(e.take(n)) == Err::<
        (Seq<u32>, Seq<u8>),
        DataError,
    >(DataError::Truncated) by {
        lemma_list_needs_all(v, f, p, n);
    }
}

proof fn lemma_matrix_needs_all(m: Seq<Seq<u32>>)
    requires
        m.len() <= u64::MAX,
        forall|i: int| 0 <= i < m.len() ==> (#[trigger] m[i]).len() <= u64::MAX,
    ensures
        needs_all(|c: Seq<u8>| codec::parse_matrix(c), codec::encode_matrix(m)),
{
    let f = |row: Seq<u32>| codec::encode_vector(row);
    let p = |c: Seq<u8>| codec::parse_vector(c);
    let q = |c: Seq<u8>| codec::parse_matrix(c);
    let e = codec::encode_matrix(m);
    assert forall|i: int, c: Seq<u8>| 0 <= i < m.len() implies #[trigger] p(f(m[i]) + c) == Ok::<
        (Seq<u32>, Seq<u8>),
        DataError,
    >((m[i], c)) by {
        codec::lemma_vector_round_trip(m[i], c);
    }
    assert forall|i: int| 0 <= i < m.len() implies #[trigger] needs_all(p, f(m[i])) by {
        lemma_vector_needs_all(m[i]);
    }
    assert forall|n: int| 0 <= n < e.len() implies #[trigger] q(e.take(n)) == Err::<
        (Seq<Seq<u32>>, Seq<u8>),
        DataError,
    >(DataError::Truncated) by {
        lemma_list_needs_all(m, f, p, n);
    }
}

proof fn lemma_texts_need_all(l: Seq<Seq<char>>)
    requires
        l.len() <= u64::MAX,
        forall|i: int| 0 <= i < l.len() ==> checkpoint::text_fits(#[trigger] l[i]),
    ensures
        needs_all(|c: Seq<u8>| codec::parse_texts(c), codec::encode_texts(l)),
{
    let f = |s: Seq<char>| codec::encode_text(s);
    let p = |c: Seq<u8>| codec::parse_text(c);
    let q = |c: Seq<u8>| codec::parse_texts(c);
    let e = codec::encode_texts(l);
    assert forall|i: int, c: Seq<u8>| 0 <= i < l.len() implies #[trigger] p(f(l[i]) + c) == Ok::<
        (Seq<char>, Seq<u8>),
        DataError,
    >((l[i], c)) by {
        assert(checkpoint::text_fits(l[i]));
        codec::lemma_text_round_trip(l[i], c);
    }
    assert forall|i: int| 0 <= i < l.len() implies #[trigger] needs_all(p, f(l[i])) by {
        assert(checkpoint::text_fits(l[i]));
        lemma_text_needs_all(l[i]);
    }
    assert forall|n: int| 0 <= n < e.len() implies #[trigger] q(e.take(n)) == Err::<
        (Seq<Seq<char>>, Seq<u8>),
        DataError,
    >(DataError::Truncated) by {
        lemma_list_needs_all(l, f, p, n);
    }
}

/// The bytes of a record's value.
spec fn value_bytes(r: Record) -> Seq<u8> {
    match r {
        Record::Scalar(_, v) => codec::encode_u64(v),
        Record::Vector(_, v) => codec::encode_vector(v),
        Record::Matrix(_, m) => codec::encode_matrix(m),
        Record::Strings(_, l) => codec::encode_texts(l),
    }
}

/// A record's key.
pub open spec fn key_of(r: Record) -> Seq<char> {
    match r {
        Record::Scalar(k, _) => k,
        Record::Vector(k, _) => k,
        Record::Matrix(k, _) => k,
        Record::Strings(k, _) => k,
    }
}

proof fn lemma_value_needs_all(r: Record, n: int)
    requires
        checkpoint::fits(r),
        0 <= n < value_bytes(r).len(),
    ensures
        checkpoint::parse_value(checkpoint::encode_record(r)[0], key_of(r), value_bytes(r).take(n))
            == Err::<(Record, Seq<u8>), DataError>(DataError::Truncated),
{
    let c = value_bytes(r).take(n);
    match r {
        Record::Scalar(_, v) => {
            law_numbers_are_stored_low_byte_first(v);
        },
        Record::Vector(_, v) => {
            lemma_vector_needs_all(v);
            let q = |c: Seq<u8>| codec::parse_vector(c);
            assert(q(c) == codec::parse_vector(c));
        },
        Record::Matrix(_, m) => {
            lemma_matrix_needs_all(m);
            let q = |c: Seq<u8>| codec::parse_matrix(c);
            assert(q(c) == codec::parse_matrix(c));
        },
        Record::Strings(_, l) => {
            lemma_texts_need_all(l);
            let q = |c: Seq<u8>| codec::parse_texts(c);
            assert(q(c) == codec::parse_texts(c));
        },
    }
}

proof fn lemma_record_needs_all(r: Record)
    requires
        checkpoint::fits(r),
    ensures
        needs_all(|c: Seq<u8>| checkpoint::parse_record(c), checkpoint::encode_record(r)),
{
    let p = |c: Seq<u8>| checkpoint::parse_record(c);
    let e = checkpoint::encode_record(r);
    let k = key_of(r);
    let value = value_bytes(r);
    assert(checkpoint::text_fits(k));
    law_texts_are_stored_behind_their_length(k);
    assert(e =~= seq![e[0]] + codec::encode_text(k) + value);
    assert forall|n: int| 0 <= n < e.len() implies #[trigger] p(e.take(n)) == Err::<
        (Record, Seq<u8>),
        DataError,
    >(DataError::Truncated) by {
        let b = e.take(n);
        if n > 0 {
            let key_len = codec::encode_text(k).len() as int;
            if n < 1 + key_len {
                lemma_text_needs_all(k);
                let q = |c: Seq<u8>| codec::parse_text(c);
                assert(b.skip(1) =~= codec::encode_text(k).take(n - 1));
                assert(q(codec::encode_text(k).take(n - 1)) == codec::parse_text(b.skip(1)));
            } else {
                let c = value.take(n - 1 - key_len);
                assert(b.skip(1) =~= codec::encode_text(k) + c);
                codec::lemma_text_round_trip(k, c);
                lemma_value_needs_all(r, n - 1 - key_len);
            }
        }
    }
}

/// A checkpoint that was cut off anywhere is refused as cut off.
pub proof fn law_truncated_checkpoints_are_refused(records: Seq<Record>, n: int)
    requires
        records.len() <= u64::MAX,
        forall|i: int| 0 <= i < records.len() ==> checkpoint::fits(#[trigger] records[i]),
        0 <= n < checkpoint::encode_records(records).len(),
    ensures
        checkpoint::parse_records(checkpoint::encode_records(records).take(n)) == Err::<
            Seq<Record>,
            DataError,
        >(DataError::Truncated),
{
    let f = |r: Record| checkpoint::encode_record(r);
    let p = |c: Seq<u8>| checkpoint::parse_record(c);
    let len = records.len() as u64;
    let body = codec::encode_each(records, f);
    let version = codec::encode_u32(checkpoint::VERSION);
    let b = checkpoint::encode_records(records).take(n);
    law_small_numbers_are_stored_low_byte_first(checkpoint::VERSION);
    law_numbers_are_stored_low_byte_first(len);
    if n >= 4 {
        assert(b.take(4) =~= checkpoint::magic());
        if n >= 8 {
            let rest = (codec::encode_u64(len) + body).take(n - 8);
            assert(b.skip(4) =~= version + rest);
            codec::lemma_u32_round_trip(checkpoint::VERSION, rest);
            if n >= 16 {
                assert(rest =~= codec::encode_u64(len) + body.take(n - 16));
                codec::lemma_u64_round_trip(len, body.take(n - 16));
                assert forall|i: int, c: Seq<u8>| 0 <= i < records.len() implies #[trigger] p(
                    f(records[i]) + c,
                ) == Ok::<(Record, Seq<u8>), DataError>((records[i], c)) by {
                    checkpoint::lemma_record_round_trip(records[i], c);
                }
                assert forall|i: int| 0 <= i < records.len() implies #[trigger] needs_all(
                    p,
                    f(records[i]),
                ) by {
                    lemma_record_needs_all(records[i]);
                }
                lemma_each_needs_all(records, f, p, n - 16);
            }
        }
    }
}

/// Of two texts of bytes the one comes first that ends where they differ, or has the
/// lower byte there.
pub proof fn law_the_first_difference_decides(a: Seq<u8>, b: Seq<u8>)
    ensures
        table::bytes_before(a, b) <==> exists|i: int|
            #![trigger a.take(i)]
            0 <= i <= a.len() && i < b.len() && a.take(i) == b.take(i) && (i == a.len() || a[i]
                < b[i]),
    decreases a.len(),
{
    if a.len() > 0 && b.len() > 0 && a[0] == b[0] {
        let c = a.skip(1);
        let d = b.skip(1);
        law_the_first_difference_decides(c, d);
        if table::bytes_before(a, b) {
            let i = choose|i: int|
                #![trigger c.take(i)]
                0 <= i <= c.len() && i < d.len() && c.take(i) == d.take(i) && (i == c.len() || c[i]
                    < d[i]);
            assert forall|j: int| 0 <= j < i + 1 implies a[j] == b[j] by {
                if j > 0 {
                    assert(c.take(i)[j - 1] == d.take(i)[j - 1]);
                }
            }
            assert(a.take(i + 1) =~= b.take(i + 1));
        }
        if exists|i: int|
            #![trigger a.take(i)]
            0 <= i <= a.len() && i < b.len() && a.take(i) == b.take(i) && (i == a.len() || a[i]
                < b[i]) {
            let i = choose|i: int|
                #![trigger a.take(i)]
                0 <= i <= a.len() && i < b.len() && a.take(i) == b.take(i) && (i == a.len() || a[i]
                    < b[i]);
            assert forall|j: int| 0 <= j < i - 1 implies c[j] == d[j] by {
                assert(a.take(i)[j + 1] == b.take(i)[j + 1]);
            }
            assert(c.take(i - 1) =~= d.take(i - 1));
        }
    } else {
        assert(a.take(0) =~= b.take(0));
        if exists|i: int|
            #![trigger a.take(i)]
            0 <= i <= a.len() && i < b.len() && a.take(i) == b.take(i) && (i == a.len() || a[i]
                < b[i]) {
            let i = choose|i: int|
                #![trigger a.take(i)]
                0 <= i <= a.len() && i < b.len() && a.take(i) == b.take(i) && (i == a.len() || a[i]
                    < b[i]);
            if i > 0 {
                assert(a.take(i)[0] == b.take(i)[0]);
            }
        }
    }
}

/// Keys are ordered by their UTF-8 bytes: a key comes before what it starts.
pub proof fn law_keys_come_before_their_continuations(k: Seq<char>, more: Seq<char>)
    requires
        vstd::utf8::encode_utf8(more).len() > 0,
        vstd::utf8::encode_utf8(k + more) == vstd::utf8::encode_utf8(k)
            + vstd::utf8::encode_utf8(more),
    ensures
        table::before(k, k + more),
        !table::before(k + more, k),
{
    let a = vstd::utf8::encode_utf8(k);
    let b = vstd::utf8::encode_utf8(k + more);
    law_the_first_difference_decides(a, b);
    law_the_first_difference_decides(b, a);
    assert(a.take(a.len() as int) =~= b.take(a.len() as int));
    if table::before(k + more, k) {
        let i = choose|i: int|
            #![trigger b.take(i)]
            0 <= i <= b.len() && i < a.len() && b.take(i) == a.take(i) && (i == b.len() || b[i]
                < a[i]);
        assert(b[i] == a[i]);
    }
}

/// The last entry of a key says what the key stands for.
pub proof fn law_the_last_entry_counts<T>(entries: Seq<(Seq<char>, T)>, i: int)
    requires
        0 <= i < entries.len(),
        forall|j: int| i < j < entries.len() ==> (#[trigger] entries[j]).0 != entries[i].0,
    ensures
        table::map_of(entries).contains_key(entries[i].0),
        table::map_of(entries)[entries[i].0] == entries[i].1,
    decreases entries.len(),
{
    if i < entries.len() - 1 {
        let shorter = entries.drop_last();
        assert forall|j: int| i < j < shorter.len() implies (#[trigger] shorter[j]).0
            != shorter[i].0 by {
            assert(entries[j].0 != entries[i].0);
        }
        law_the_last_entry_counts(shorter, i);
        assert(entries[entries.len() - 1].0 != entries[i].0);
    }
}

/// A key without an entry stands for nothing.
pub proof fn law_only_entries_count<T>(entries: Seq<(Seq<char>, T)>, k: Seq<char>)
    requires
        forall|i: int| 0 <= i < entries.len() ==> (#[trigger] entries[i]).0 != k,
    ensures
        !table::map_of(entries).contains_key(k),
    decreases entries.len(),
{
    if entries.len() > 0 {
        let shorter = entries.drop_last();
        assert forall|i: int| 0 <= i < shorter.len() implies (#[trigger] shorter[i]).0 != k by {
            assert(entries[i].0 != k);
        }
        law_only_entries_count(shorter, k);
        assert(entries[entries.len() - 1].0 != k);
    }
}

/// The keys and values of the scalars of some records, in their order; and so of
/// the vectors, the matrices and the lists of strings.
pub open spec fn scalars_of(records: Seq<Record>) -> Seq<(Seq<char>, u64)> {
    records.filter(|r: Record| r is Scalar).map_values(
        |r: Record| (r->Scalar_0, r->Scalar_1),
    )
}

pub open spec fn vectors_of(records: Seq<Record>) -> Seq<(Seq<char>, Seq<u32>)> {
    records.filter(|r: Record| r is Vector).map_values(
        |r: Record| (r->Vector_0, r->Vector_1),
    )
}

pub open spec fn matrices_of(records: Seq<Record>) -> Seq<(Seq<char>, Seq<Seq<u32>>)> {
    records.filter(|r: Record| r is Matrix).map_values(
        |r: Record| (r->Matrix_0, r->Matrix_1),
    )
}

pub open spec fn strings_of(records: Seq<Record>) -> Seq<(Seq<char>, Seq<Seq<char>>)> {
    records.filter(|r: Record| r is Strings).map_values(
        |r: Record| (r->Strings_0, r->Strings_1),
    )
}

/// What is left of one more record.
proof fn lemma_filter_map_push<T>(
    records: Seq<Record>,
    keep: spec_fn(Record) -> bool,
    f: spec_fn(Record) -> T,
)
    requires
        records.len() > 0,
    ensures
        records.filter(keep).map_values(f) == if keep(records.last()) {
            records.drop_last().filter(keep).map_values(f).push(f(records.last()))
        } else {
            records.drop_last().filter(keep).map_values(f)
        },
{
    reveal(Seq::filter);
    assert(records.filter(keep).map_values(f) =~= if keep(records.last()) {
        records.drop_last().filter(keep).map_values(f).push(f(records.last()))
    } else {
        records.drop_last().filter(keep).map_values(f)
    });
}

/// Records hold their scalars, vectors, matrices and lists of strings, each kind
/// under keys of its own.
pub proof fn law_records_hold_their_values(records: Seq<Record>)
    ensures
        checkpoint::weights_of(records).scalars == table::map_of(scalars_of(records)),
        checkpoint::weights_of(records).vectors == table::map_of(vectors_of(records)),
        checkpoint::weights_of(records).matrices == table::map_of(matrices_of(records)),
        checkpoint::weights_of(records).strings == table::map_of(strings_of(records)),
    decreases records.len(),
{
    reveal(Seq::filter);
    if records.len() > 0 {
        law_records_hold_their_values(records.drop_last());
        lemma_filter_map_push(
            records,
            |r: Record| r is Scalar,
            |r: Record| (r->Scalar_0, r->Scalar_1),
        );
        lemma_filter_map_push(
            records,
            |r: Record| r is Vector,
            |r: Record| (r->Vector_0, r->Vector_1),
        );
        lemma_filter_map_push(
            records,
            |r: Record| r is Matrix,
            |r: Record| (r->Matrix_0, r->Matrix_1),
        );
        lemma_filter_map_push(
            records,
            |r: Record| r is Strings,
            |r: Record| (r->Strings_0, r->Strings_1),
        );
        assert(scalars_of(records).drop_last() =~= scalars_of(records.drop_last())
            || !(records.last() is Scalar));
        assert(vectors_of(records).drop_last() =~= vectors_of(records.drop_last())
            || !(records.last() is Vector));
        assert(matrices_of(records).drop_last() =~= matrices_of(records.drop_last())
            || !(records.last() is Matrix));
        assert(strings_of(records).drop_last() =~= strings_of(records.drop_last())
            || !(records.last() is Strings));
    }
}

/// Records are listed by kind, and within a kind by key.
pub proof fn law_records_are_listed_in_order(w: Weights, i: int, j: int)
    requires
        w.listable(),
        0 <= i < j < w.records().len(),
    ensures
        ({
            let a = checkpoint::encode_record(w.records()[i])[0];
            let b = checkpoint::encode_record(w.records()[j])[0];
            a < b || a == b && table::before(key_of(w.records()[i]), key_of(w.records()[j]))
        }),
{
    let s = checkpoint::scalar_records(table::ordered(w.scalars));
    let v = checkpoint::vector_records(table::ordered(w.vectors));
    let m = checkpoint::matrix_records(table::ordered(w.matrices));
    let t = checkpoint::strings_records(table::ordered(w.strings));
    assert(w.records() =~= s + v + m + t);
    lemma_place(s, v, m, t, i);
    lemma_place(s, v, m, t, j);
}

/// Where an element of four lists stands, one behind the other.
proof fn lemma_place(
    s: Seq<Record>,
    v: Seq<Record>,
    m: Seq<Record>,
    t: Seq<Record>,
    i: int,
)
    requires
        0 <= i < (s + v + m + t).len(),
    ensures
        (s + v + m + t)[i] == if i < s.len() {
            s[i]
        } else if i < s.len() + v.len() {
            v[i - s.len()]
        } else if i < s.len() + v.len() + m.len() {
            m[i - s.len() - v.len()]
        } else {
            t[i - s.len() - v.len() - m.len()]
        },
{
}

/// `all` holds what `part` holds, under its keys behind `prefix` and a dot; anything
/// else stands there as in `m`.
pub open spec fn holds_in_scope<T>(
    all: Map<Seq<char>, T>,
    m: Map<Seq<char>, T>,
    part: Map<Seq<char>, T>,
    prefix: Seq<char>,
) -> bool {
    &&& forall|k: Seq<char>| #[trigger]
        part.contains_key(k) ==> all.contains_key(prefix.push('.') + k) && all[prefix.push('.') + k]
            == part[k]
    &&& forall|k: Seq<char>| #[trigger]
        all.contains_key(k) ==> m.contains_key(k) && all[k] == m[k] || prefix.push('.').is_prefix_of(
            k,
        ) && part.contains_key(k.skip(prefix.len() as int + 1))
    &&& forall|k: Seq<char>| #[trigger] m.contains_key(k) ==> all.contains_key(k)
}

proof fn lemma_holds_in_scope<T>(
    m: Map<Seq<char>, T>,
    part: Map<Seq<char>, T>,
    prefix: Seq<char>,
)
    ensures
        holds_in_scope(m.union_prefer_right(table::prefixed(part, prefix)), m, part, prefix),
{
    let all = m.union_prefer_right(table::prefixed(part, prefix));
    assert forall|k: Seq<char>| #[trigger] part.contains_key(k) implies all.contains_key(
        prefix.push('.') + k,
    ) && all[prefix.push('.') + k] == part[k] by {
        assert(prefix.push('.') + k =~= table::scoped_key(prefix, k));
        table::lemma_scoped_key(prefix, k);
    }
    assert forall|k: Seq<char>| #[trigger] all.contains_key(k) implies m.contains_key(k) && all[k]
        == m[k] || prefix.push('.').is_prefix_of(k) && part.contains_key(
        k.skip(prefix.len() as int + 1),
    ) by {
        if table::prefixed(part, prefix).contains_key(k) {
            assert(prefix.push('.') =~= k.subrange(0, prefix.len() as int + 1));
        }
    }
}

/// What is merged into a scope stands under its keys behind the scope's name and a
/// dot, and everything else stays as it was.
pub proof fn law_scopes_are_named_with_a_dot(w: Weights, part: Weights, prefix: Seq<char>)
    ensures
        holds_in_scope(w.merged(prefix, part).scalars, w.scalars, part.scalars, prefix),
        holds_in_scope(w.merged(prefix, part).vectors, w.vectors, part.vectors, prefix),
        holds_in_scope(w.merged(prefix, part).matrices, w.matrices, part.matrices, prefix),
        holds_in_scope(w.merged(prefix, part).strings, w.strings, part.strings, prefix),
{
    lemma_holds_in_scope(w.scalars, part.scalars, prefix);
    lemma_holds_in_scope(w.vectors, part.vectors, prefix);
    lemma_holds_in_scope(w.matrices, part.matrices, prefix);
    lemma_holds_in_scope(w.strings, part.strings, prefix);
}

/// `found` holds what `m` holds behind `prefix` and a dot, under what stands behind
/// the dot, and nothing else.
pub open spec fn holds_scope<T>(
    found: Map<Seq<char>, T>,
    m: Map<Seq<char>, T>,
    prefix: Seq<char>,
) -> bool {
    forall|k: Seq<char>| #[trigger]
        found.contains_key(k) == m.contains_key(prefix.push('.') + k) && (found.contains_key(k)
            ==> found[k] == m[prefix.push('.') + k])
}

proof fn lemma_holds_scope<T>(m: Map<Seq<char>, T>, prefix: Seq<char>)
    ensures
        holds_scope(table::unprefixed(m, prefix), m, prefix),
{
    assert forall|k: Seq<char>| #[trigger]
        table::unprefixed(m, prefix).contains_key(k) == m.contains_key(prefix.push('.') + k) && (
        table::unprefixed(m, prefix).contains_key(k) ==> table::unprefixed(m, prefix)[k]
            == m[prefix.push('.') + k]) by {
        assert(prefix.push('.') + k =~= table::scoped_key(prefix, k));
    }
}

/// A scope is what stands behind its name and a dot.
pub proof fn law_scopes_are_found_behind_a_dot(w: Weights, prefix: Seq<char>)
    ensures
        holds_scope(w.scoped(prefix).scalars, w.scalars, prefix),
        holds_scope(w.scoped(prefix).vectors, w.vectors, prefix),
        holds_scope(w.scoped(prefix).matrices, w.matrices, prefix),
        holds_scope(w.scoped(prefix).strings, w.strings, prefix),
{
    lemma_holds_scope(w.scalars, prefix);
    lemma_holds_scope(w.vectors, prefix);
    lemma_holds_scope(w.matrices, prefix);
    lemma_holds_scope(w.strings, prefix);
}

} // verus!
