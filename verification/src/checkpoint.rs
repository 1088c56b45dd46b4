//! Checkpoints: named scalars, vectors, matrices and lists of strings.
//!
//! The entries of vectors and matrices are the bit patterns of 32-bit floats.

use vstd::prelude::*;

use crate::codec::{self, Parsed};
use crate::error::DataError;
use crate::table::{self, Table};

verus! {

/// The number of the format's version.
pub const VERSION: u32 = 1;

/// The kinds of records.
pub const KIND_SCALAR: u8 = 1;

pub const KIND_VECTOR: u8 = 2;

pub const KIND_MATRIX: u8 = 3;

pub const KIND_STRINGS: u8 = 4;

/// The four bytes that a checkpoint starts with: `TFWM`.
pub open spec fn magic() -> Seq<u8> {
    seq![0x54u8, 0x46u8, 0x57u8, 0x4du8]
}

/// What a `WeightMap` stands for.
#[verifier::ext_equal]
pub struct Weights {
    pub scalars: Map<Seq<char>, u64>,
    pub vectors: Map<Seq<char>, Seq<u32>>,
    pub matrices: Map<Seq<char>, Seq<Seq<u32>>>,
    pub strings: Map<Seq<char>, Seq<Seq<char>>>,
}

impl Weights {
    pub open spec fn empty() -> Self {
        Weights {
            scalars: Map::empty(),
            vectors: Map::empty(),
            matrices: Map::empty(),
            strings: Map::empty(),
        }
    }

    /// What this and `part`, moved into the scope `prefix`, hold together.
    pub open spec fn merged(self, prefix: Seq<char>, part: Weights) -> Self {
        Weights {
            scalars: self.scalars.union_prefer_right(table::prefixed(part.scalars, prefix)),
            vectors: self.vectors.union_prefer_right(table::prefixed(part.vectors, prefix)),
            matrices: self.matrices.union_prefer_right(table::prefixed(part.matrices, prefix)),
            strings: self.strings.union_prefer_right(table::prefixed(part.strings, prefix)),
        }
    }

    /// What stands in the scope `prefix`.
    pub open spec fn scoped(self, prefix: Seq<char>) -> Self {
        Weights {
            scalars: table::unprefixed(self.scalars, prefix),
            vectors: table::unprefixed(self.vectors, prefix),
            matrices: table::unprefixed(self.matrices, prefix),
            strings: table::unprefixed(self.strings, prefix),
        }
    }

    /// What this and `other` hold together; `other` wins.
    pub open spec fn overlaid(self, other: Weights) -> Self {
        Weights {
            scalars: self.scalars.union_prefer_right(other.scalars),
            vectors: self.vectors.union_prefer_right(other.vectors),
            matrices: self.matrices.union_prefer_right(other.matrices),
            strings: self.strings.union_prefer_right(other.strings),
        }
    }

    /// All entries: scalars, vectors, matrices, lists of strings, each in the
    /// order of their keys.
    pub open spec fn records(self) -> Seq<Record> {
        scalar_records(table::ordered(self.scalars)) + vector_records(table::ordered(self.vectors))
            + matrix_records(table::ordered(self.matrices)) + strings_records(
            table::ordered(self.strings),
        )
    }

    /// There is an ordered list of the entries.
    pub open spec fn listable(self) -> bool {
        &&& table::in_order(table::ordered(self.scalars))
        &&& table::in_order(table::ordered(self.vectors))
        &&& table::in_order(table::ordered(self.matrices))
        &&& table::in_order(table::ordered(self.strings))
        &&& table::map_of(table::ordered(self.scalars)) == self.scalars
        &&& table::map_of(table::ordered(self.vectors)) == self.vectors
        &&& table::map_of(table::ordered(self.matrices)) == self.matrices
        &&& table::map_of(table::ordered(self.strings)) == self.strings
    }

    /// This with one more record.
    pub open spec fn with(self, r: Record) -> Self {
        match r {
            Record::Scalar(k, v) => Weights { scalars: self.scalars.insert(k, v), ..self },
            Record::Vector(k, v) => Weights { vectors: self.vectors.insert(k, v), ..self },
            Record::Matrix(k, v) => Weights { matrices: self.matrices.insert(k, v), ..self },
            Record::Strings(k, v) => Weights { strings: self.strings.insert(k, v), ..self },
        }
    }
}

/// One stored value with its key.
pub enum Record {
    Scalar(Seq<char>, u64),
    Vector(Seq<char>, Seq<u32>),
    Matrix(Seq<char>, Seq<Seq<u32>>),
    Strings(Seq<char>, Seq<Seq<char>>),
}

/// A record: its kind, its key and its value.
pub open spec fn encode_record(r: Record) -> Seq<u8> {
    match r {
        Record::Scalar(k, v) => seq![KIND_SCALAR] + codec::encode_text(k) + codec::encode_u64(v),
        Record::Vector(k, v) => seq![KIND_VECTOR] + codec::encode_text(k) + codec::encode_vector(v),
        Record::Matrix(k, v) => seq![KIND_MATRIX] + codec::encode_text(k) + codec::encode_matrix(v),
        Record::Strings(k, v) => seq![KIND_STRINGS] + codec::encode_text(k) + codec::encode_texts(
            v,
        ),
    }
}

/// A checkpoint: magic number, version, number of records, records.
pub open spec fn encode_records(records: Seq<Record>) -> Seq<u8> {
    magic() + codec::encode_u32(VERSION) + codec::encode_u64(records.len() as u64)
        + codec::encode_each(records, |r: Record| encode_record(r))
}

/// The value behind kind and key.
pub open spec fn parse_value(kind: u8, k: Seq<char>, b: Seq<u8>) -> Parsed<Record> {
    if kind == KIND_SCALAR {
        match codec::parse_u64(b) {
            Ok((v, rest)) => Ok((Record::Scalar(k, v), rest)),
            Err(e) => Err(e),
        }
    } else if kind == KIND_VECTOR {
        match codec::parse_vector(b) {
            Ok((v, rest)) => Ok((Record::Vector(k, v), rest)),
            Err(e) => Err(e),
        }
    } else if kind == KIND_MATRIX {
        match codec::parse_matrix(b) {
            Ok((v, rest)) => Ok((Record::Matrix(k, v), rest)),
            Err(e) => Err(e),
        }
    } else if kind == KIND_STRINGS {
        match codec::parse_texts(b) {
            Ok((v, rest)) => Ok((Record::Strings(k, v), rest)),
            Err(e) => Err(e),
        }
    } else {
        Err(DataError::UnknownRecord(kind))
    }
}

pub open spec fn parse_record(b: Seq<u8>) -> Parsed<Record> {
    match codec::parse_u8(b) {
        Err(e) => Err(e),
        Ok((kind, rest)) => match codec::parse_text(rest) {
            Err(e) => Err(e),
            Ok((k, rest)) => parse_value(kind, k, rest),
        },
    }
}

/// The records of a checkpoint. Bytes behind the last record are ignored.
pub open spec fn parse_records(b: Seq<u8>) -> Result<Seq<Record>, DataError> {
    if b.len() < 4 {
        Err(DataError::Truncated)
    } else if b.take(4) != magic() {
        Err(DataError::BadMagic)
    } else {
        match codec::parse_u32(b.skip(4)) {
            Err(e) => Err(e),
            Ok((version, rest)) => if version != VERSION {
                Err(DataError::UnsupportedVersion(version))
            } else {
                match codec::parse_u64(rest) {
                    Err(e) => Err(e),
                    Ok((n, rest)) => match codec::parse_each(
                        rest,
                        n as nat,
                        |c: Seq<u8>| parse_record(c),
                    ) {
                        Err(e) => Err(e),
                        Ok((records, _)) => Ok(records),
                    },
                }
            },
        }
    }
}

/// What a list of records holds; of records with the same key the last counts.
pub open spec fn weights_of(records: Seq<Record>) -> Weights
    decreases records.len(),
{
    if records.len() == 0 {
        Weights::empty()
    } else {
        weights_of(records.drop_last()).with(records.last())
    }
}

/// Named values that are stored and loaded together.
pub struct WeightMap {
    scalars: Table<u64>,
    vectors: Table<Vec<u32>>,
    matrices: Table<Vec<Vec<u32>>>,
    strings: Table<Vec<String>>,
}

impl View for WeightMap {
    type V = Weights;

    closed spec fn view(&self) -> Weights {
        Weights {
            scalars: self.scalars@,
            vectors: self.vectors@,
            matrices: self.matrices@,
            strings: self.strings@,
        }
    }
}

impl WeightMap {
    pub closed spec fn wf(&self) -> bool {
        &&& self.scalars.wf()
        &&& self.vectors.wf()
        &&& self.matrices.wf()
        &&& self.strings.wf()
    }

    /// The tables list what the view holds.
    proof fn lemma_listings(&self)
        requires
            self.wf(),
        ensures
            table::ordered(self@.scalars) == self.scalars.listing(),
            table::ordered(self@.vectors) == self.vectors.listing(),
            table::ordered(self@.matrices) == self.matrices.listing(),
            table::ordered(self@.strings) == self.strings.listing(),
    {
        table::lemma_ordered(self.scalars.listing());
        table::lemma_ordered(self.vectors.listing());
        table::lemma_ordered(self.matrices.listing());
        table::lemma_ordered(self.strings.listing());
    }

    /// Whatever a map holds can be listed in order, and so be saved.
    pub proof fn law_maps_can_be_listed(&self)
        requires
            self.wf(),
        ensures
            self@.listable(),
    {
        self.lemma_listings();
    }

    pub fn new() -> (r: Self)
        ensures
            r.wf(),
            r@ == Weights::empty(),
    {
        WeightMap {
            scalars: Table::new(),
            vectors: Table::new(),
            matrices: Table::new(),
            strings: Table::new(),
        }
    }

    pub fn insert_scalar(&mut self, key: &str, v: u64)
        requires
            old(self).wf(),
        ensures
            final(self).wf(),
            final(self)@ == old(self)@.with(Record::Scalar(key@, v)),
    {
        self.scalars.insert(key, v);
    }

    pub fn insert_vector(&mut self, key: &str, v: Vec<u32>)
        requires
            old(self).wf(),
        ensures
            final(self).wf(),
            final(self)@ == old(self)@.with(Record::Vector(key@, v.deep_view())),
    {
        self.vectors.insert(key, v);
    }

    pub fn insert_matrix(&mut self, key: &str, v: Vec<Vec<u32>>)
        requires
            old(self).wf(),
        ensures
            final(self).wf(),
            final(self)@ == old(self)@.with(Record::Matrix(key@, v.deep_view())),
    {
        self.matrices.insert(key, v);
    }

    pub fn insert_string(&mut self, key: &str, v: Vec<String>)
        requires
            old(self).wf(),
        ensures
            final(self).wf(),
            final(self)@ == old(self)@.with(Record::Strings(key@, v.deep_view())),
    {
        self.strings.insert(key, v);
    }

    /// The same as `insert_string`.
    pub fn insert_strings(&mut self, key: &str, v: Vec<String>)
        requires
            old(self).wf(),
        ensures
            final(self).wf(),
            final(self)@ == old(self)@.with(Record::Strings(key@, v.deep_view())),
    {
        self.insert_string(key, v);
    }

    pub fn get_scalar(&self, key: &str) -> (r: Result<u64, DataError>)
        requires
            self.wf(),
        ensures
            match r {
                Ok(v) => self@.scalars.contains_key(key@) && v == self@.scalars[key@],
                Err(e) => !self@.scalars.contains_key(key@) && e.is_missing(key@),
            },
    {
        match self.scalars.get(key) {
            Some(v) => Ok(*v),
            None => Err(DataError::MissingKey(key.to_owned())),
        }
    }

    pub fn get_vector(&self, key: &str) -> (r: Result<&Vec<u32>, DataError>)
        requires
            self.wf(),
        ensures
            match r {
                Ok(v) => self@.vectors.contains_key(key@) && v.deep_view() == self@.vectors[key@],
                Err(e) => !self@.vectors.contains_key(key@) && e.is_missing(key@),
            },
    {
        match self.vectors.get(key) {
            Some(v) => Ok(v),
            None => Err(DataError::MissingKey(key.to_owned())),
        }
    }

    pub fn get_matrix(&self, key: &str) -> (r: Result<&Vec<Vec<u32>>, DataError>)
        requires
            self.wf(),
        ensures
            match r {
                Ok(v) => self@.matrices.contains_key(key@) && v.deep_view() == self@.matrices[key@],
                Err(e) => !self@.matrices.contains_key(key@) && e.is_missing(key@),
            },
    {
        match self.matrices.get(key) {
            Some(v) => Ok(v),
            None => Err(DataError::MissingKey(key.to_owned())),
        }
    }

    pub fn get_strings(&self, key: &str) -> (r: Result<&Vec<String>, DataError>)
        requires
            self.wf(),
        ensures
            match r {
                Ok(v) => self@.strings.contains_key(key@) && v.deep_view() == self@.strings[key@],
                Err(e) => !self@.strings.contains_key(key@) && e.is_missing(key@),
            },
    {
        match self.strings.get(key) {
            Some(v) => Ok(v),
            None => Err(DataError::MissingKey(key.to_owned())),
        }
    }

    /// Takes in everything `other` holds, under keys that start with `prefix`
    /// and a dot.
    pub fn merge(&mut self, prefix: &str, other: WeightMap)
        requires
            old(self).wf(),
            other.wf(),
        ensures
            final(self).wf(),
            final(self)@ == old(self)@.merged(prefix@, other@),
    {
        self.scalars.absorb(prefix, other.scalars);
        self.vectors.absorb(prefix, other.vectors);
        self.matrices.absorb(prefix, other.matrices);
        self.strings.absorb(prefix, other.strings);
    }

    /// Everything under keys that start with `prefix` and a dot, which are taken
    /// off.
    pub fn scoped(&self, prefix: &str) -> (r: WeightMap)
        requires
            self.wf(),
        ensures
            r.wf(),
            r@ == self@.scoped(prefix@),
    {
        WeightMap {
            scalars: self.scalars.scoped(prefix),
            vectors: self.vectors.scoped(prefix),
            matrices: self.matrices.scoped(prefix),
            strings: self.strings.scoped(prefix),
        }
    }

    /// The keys of all vectors, in order.
    pub fn vector_keys(&self) -> (r: Vec<String>)
        requires
            self.wf(),
        ensures
            forall|i: int, j: int|
                0 <= i < j < r@.len() ==> table::before(
                    (#[trigger] r@[i])@,
                    (#[trigger] r@[j])@,
                ),
            forall|k: Seq<char>| #[trigger]
                self@.vectors.contains_key(k) <==> exists|i: int|
                    0 <= i < r@.len() && (#[trigger] r@[i])@ == k,
    {
        let ghost all = self.vectors.listing();
        let n: usize = self.vectors.len();
        let mut r: Vec<String> = Vec::new();
        let mut i: usize = 0;
        while i < n
            invariant
                i <= n == all.len(),
                all == self.vectors.listing(),
                r@.len() == i,
                forall|j: int| 0 <= j < i ==> (#[trigger] r@[j])@ == all[j].0,
            decreases n - i,
        {
            r.push(self.vectors.key_at(i).clone());
            i += 1;
        }
        proof {
            table::lemma_map_of(all);
            assert forall|k: Seq<char>| #[trigger] self@.vectors.contains_key(k) implies exists|
                i: int,
            |
                0 <= i < r@.len() && (#[trigger] r@[i])@ == k by {
                let j = choose|j: int| 0 <= j < all.len() && (#[trigger] all[j]).0 == k;
                assert(r@[j]@ == k);
            }
        }
        r
    }
}

impl Default for WeightMap {
    fn default() -> (r: Self)
        ensures
            r.wf(),
            r@ == Weights::empty(),
    {
        WeightMap::new()
    }
}

/// What can be written to a checkpoint and read from one.
pub trait Checkpointable {
    /// The value is in order.
    spec fn valid(&self) -> bool;

    /// What the checkpoint of the value holds.
    spec fn weights(&self) -> Weights;

    fn to_weight_map(&self) -> (r: WeightMap)
        requires
            self.valid(),
        ensures
            r.wf(),
            r@ == self.weights(),
    ;

    fn from_weight_map(&mut self, map: &WeightMap) -> (r: Result<(), DataError>)
        requires
            old(self).valid(),
            map.wf(),
        ensures
            final(self).valid(),
    ;
}

pub open spec fn scalar_records(l: Seq<(Seq<char>, u64)>) -> Seq<Record> {
    Seq::new(l.len(), |i: int| Record::Scalar(l[i].0, l[i].1))
}

pub open spec fn vector_records(l: Seq<(Seq<char>, Seq<u32>)>) -> Seq<Record> {
    Seq::new(l.len(), |i: int| Record::Vector(l[i].0, l[i].1))
}

pub open spec fn matrix_records(l: Seq<(Seq<char>, Seq<Seq<u32>>)>) -> Seq<Record> {
    Seq::new(l.len(), |i: int| Record::Matrix(l[i].0, l[i].1))
}

pub open spec fn strings_records(l: Seq<(Seq<char>, Seq<Seq<char>>)>) -> Seq<Record> {
    Seq::new(l.len(), |i: int| Record::Strings(l[i].0, l[i].1))
}

/// What was merged under a prefix is found again under it.
pub proof fn law_scope_gives_back_what_was_merged(m: Weights, prefix: Seq<char>, part: Weights)
    ensures
        m.merged(prefix, part).scoped(prefix) == m.scoped(prefix).overlaid(part),
{
    table::law_scope_gives_back(m.scalars, part.scalars, prefix);
    table::law_scope_gives_back(m.vectors, part.vectors, prefix);
    table::law_scope_gives_back(m.matrices, part.matrices, prefix);
    table::law_scope_gives_back(m.strings, part.strings, prefix);
}

/// The records of two lists, one behind the other.
proof fn lemma_encode_each_concat(left: Seq<Record>, right: Seq<Record>)
    ensures
        codec::encode_each(left + right, |r: Record| encode_record(r)) == codec::encode_each(
            left,
            |r: Record| encode_record(r),
        ) + codec::encode_each(right, |r: Record| encode_record(r)),
    decreases right.len(),
{
    let f = |r: Record| encode_record(r);
    if right.len() == 0 {
        assert(left + right =~= left);
        assert(codec::encode_each(left, f) + codec::encode_each(right, f) =~= codec::encode_each(
            left,
            f,
        ));
    } else {
        lemma_encode_each_concat(left, right.drop_last());
        assert((left + right).drop_last() =~= left + right.drop_last());
        assert(codec::encode_each(left + right, f) =~= codec::encode_each(left, f)
            + codec::encode_each(right, f));
    }
}

/// The bytes of some records.
pub open spec fn encode_all(records: Seq<Record>) -> Seq<u8> {
    codec::encode_each(records, |r: Record| encode_record(r))
}

/// Writing one more record.
proof fn lemma_encode_next(records: Seq<Record>, i: int)
    requires
        0 <= i < records.len(),
    ensures
        encode_all(records.take(i + 1)) == encode_all(records.take(i)) + encode_record(records[i]),
{
    assert(records.take(i + 1).drop_last() =~= records.take(i));
}

fn write_scalars(out: &mut Vec<u8>, t: &Table<u64>)
    ensures
        final(out)@ == old(out)@ + encode_all(scalar_records(t.listing())),
{
    let ghost records = scalar_records(t.listing());
    let n: usize = t.len();
    let mut i: usize = 0;
    assert(out@ =~= old(out)@ + encode_all(records.take(0)));
    while i < n
        invariant
            i <= n == t.listing().len(),
            records == scalar_records(t.listing()),
            out@ == old(out)@ + encode_all(records.take(i as int)),
        decreases n - i,
    {
        codec::write_u8(out, KIND_SCALAR);
        codec::write_string(out, t.key_at(i).as_str());
        codec::write_u64(out, *t.value_at(i));
        proof {
            lemma_encode_next(records, i as int);
            assert(out@ =~= old(out)@ + encode_all(records.take(i + 1)));
        }
        i += 1;
    }
    assert(records.take(i as int) =~= records);
}

fn write_vectors(out: &mut Vec<u8>, t: &Table<Vec<u32>>)
    ensures
        final(out)@ == old(out)@ + encode_all(vector_records(t.listing())),
{
    let ghost records = vector_records(t.listing());
    let n: usize = t.len();
    let mut i: usize = 0;
    assert(out@ =~= old(out)@ + encode_all(records.take(0)));
    while i < n
        invariant
            i <= n == t.listing().len(),
            records == vector_records(t.listing()),
            out@ == old(out)@ + encode_all(records.take(i as int)),
        decreases n - i,
    {
        codec::write_u8(out, KIND_VECTOR);
        codec::write_string(out, t.key_at(i).as_str());
        codec::write_vector(out, t.value_at(i));
        proof {
            lemma_encode_next(records, i as int);
            assert(out@ =~= old(out)@ + encode_all(records.take(i + 1)));
        }
        i += 1;
    }
    assert(records.take(i as int) =~= records);
}

fn write_matrices(out: &mut Vec<u8>, t: &Table<Vec<Vec<u32>>>)
    ensures
        final(out)@ == old(out)@ + encode_all(matrix_records(t.listing())),
{
    let ghost records = matrix_records(t.listing());
    let n: usize = t.len();
    let mut i: usize = 0;
    assert(out@ =~= old(out)@ + encode_all(records.take(0)));
    while i < n
        invariant
            i <= n == t.listing().len(),
            records == matrix_records(t.listing()),
            out@ == old(out)@ + encode_all(records.take(i as int)),
        decreases n - i,
    {
        codec::write_u8(out, KIND_MATRIX);
        codec::write_string(out, t.key_at(i).as_str());
        codec::write_matrix(out, t.value_at(i));
        proof {
            lemma_encode_next(records, i as int);
            assert(out@ =~= old(out)@ + encode_all(records.take(i + 1)));
        }
        i += 1;
    }
    assert(records.take(i as int) =~= records);
}

fn write_string_lists(out: &mut Vec<u8>, t: &Table<Vec<String>>)
    ensures
        final(out)@ == old(out)@ + encode_all(strings_records(t.listing())),
{
    let ghost records = strings_records(t.listing());
    let n: usize = t.len();
    let mut i: usize = 0;
    assert(out@ =~= old(out)@ + encode_all(records.take(0)));
    while i < n
        invariant
            i <= n == t.listing().len(),
            records == strings_records(t.listing()),
            out@ == old(out)@ + encode_all(records.take(i as int)),
        decreases n - i,
    {
        codec::write_u8(out, KIND_STRINGS);
        codec::write_string(out, t.key_at(i).as_str());
        codec::write_strings(out, t.value_at(i));
        proof {
            lemma_encode_next(records, i as int);
            assert(out@ =~= old(out)@ + encode_all(records.take(i + 1)));
        }
        i += 1;
    }
    assert(records.take(i as int) =~= records);
}

impl WeightMap {
    /// The bytes of a checkpoint.
    pub fn to_bytes(&self) -> (r: Vec<u8>)
        requires
            self.wf(),
            self@.records().len() <= usize::MAX,
        ensures
            r@ == encode_records(self@.records()),
    {
        proof {
            self.lemma_listings();
        }
        let ghost scalars = scalar_records(self.scalars.listing());
        let ghost vectors = vector_records(self.vectors.listing());
        let ghost matrices = matrix_records(self.matrices.listing());
        let ghost strings = strings_records(self.strings.listing());
        let total: usize = self.scalars.len() + self.vectors.len() + self.matrices.len()
            + self.strings.len();
        let mut out: Vec<u8> = Vec::new();
        out.push(0x54);
        out.push(0x46);
        out.push(0x57);
        out.push(0x4d);
        assert(out@ =~= magic());
        codec::write_u32(&mut out, VERSION);
        codec::write_u64(&mut out, total as u64);
        let ghost head = out@;
        write_scalars(&mut out, &self.scalars);
        write_vectors(&mut out, &self.vectors);
        write_matrices(&mut out, &self.matrices);
        write_string_lists(&mut out, &self.strings);
        proof {
            lemma_encode_each_concat(scalars, vectors);
            lemma_encode_each_concat(scalars + vectors, matrices);
            lemma_encode_each_concat(scalars + vectors + matrices, strings);
            assert(out@ =~= head + encode_all(self@.records()));
        }
        out
    }

    /// Reads one record at `pos` into the map.
    fn read_record(&mut self, b: &[u8], pos: usize) -> (r: Result<usize, DataError>)
        requires
            old(self).wf(),
            pos <= b@.len(),
        ensures
            final(self).wf(),
            match r {
                Ok(next) => pos <= next <= b@.len() && exists|record: Record|
                    parse_record(b@.skip(pos as int)) == Ok::<(Record, Seq<u8>), DataError>(
                        (record, b@.skip(next as int)),
                    ) && final(self)@ == #[trigger] old(self)@.with(record),
                Err(e) => parse_record(b@.skip(pos as int)) == Err::<(Record, Seq<u8>), DataError>(
                    e,
                ),
            },
    {
        let (kind, at): (u8, usize) = match codec::read_u8(b, pos) {
            Ok(x) => x,
            Err(e) => {
                return Err(e);
            },
        };
        let (key, at): (String, usize) = match codec::read_string(b, at) {
            Ok(x) => x,
            Err(e) => {
                return Err(e);
            },
        };
        let ghost k = key@;
        if kind == KIND_SCALAR {
            match codec::read_u64(b, at) {
                Ok((v, next)) => {
                    self.insert_scalar(key.as_str(), v);
                    assert(self@ == old(self)@.with(Record::Scalar(k, v)));
                    Ok(next)
                },
                Err(e) => Err(e),
            }
        } else if kind == KIND_VECTOR {
            match codec::read_vector(b, at) {
                Ok((v, next)) => {
                    let ghost value = v.deep_view();
                    self.insert_vector(key.as_str(), v);
                    assert(self@ == old(self)@.with(Record::Vector(k, value)));
                    Ok(next)
                },
                Err(e) => Err(e),
            }
        } else if kind == KIND_MATRIX {
            match codec::read_matrix(b, at) {
                Ok((v, next)) => {
                    let ghost value = v.deep_view();
                    self.insert_matrix(key.as_str(), v);
                    assert(self@ == old(self)@.with(Record::Matrix(k, value)));
                    Ok(next)
                },
                Err(e) => Err(e),
            }
        } else if kind == KIND_STRINGS {
            match codec::read_strings(b, at) {
                Ok((v, next)) => {
                    let ghost value = v.deep_view();
                    self.insert_string(key.as_str(), v);
                    assert(self@ == old(self)@.with(Record::Strings(k, value)));
                    Ok(next)
                },
                Err(e) => Err(e),
            }
        } else {
            Err(DataError::UnknownRecord(kind))
        }
    }

    /// Reads the bytes of a checkpoint.
    pub fn from_bytes(b: &[u8]) -> (r: Result<WeightMap, DataError>)
        ensures
            match r {
                Ok(m) => m.wf() && parse_records(b@) is Ok && m@ == weights_of(parse_records(b@)->Ok_0),
                Err(e) => parse_records(b@) == Err::<Seq<Record>, DataError>(e),
            },
    {
        let ghost p = |c: Seq<u8>| parse_record(c);
        if b.len() < 4 {
            return Err(DataError::Truncated);
        }
        assert(b@.take(4) == magic() <==> b@[0] == 0x54 && b@[1] == 0x46 && b@[2] == 0x57 && b@[3]
            == 0x4d) by {
            assert(b@.take(4)[0] == b@[0] && b@.take(4)[1] == b@[1] && b@.take(4)[2] == b@[2]
                && b@.take(4)[3] == b@[3]);
            if b@[0] == 0x54 && b@[1] == 0x46 && b@[2] == 0x57 && b@[3] == 0x4d {
                assert(b@.take(4) =~= magic());
            }
        }
        if !(b[0] == 0x54 && b[1] == 0x46 && b[2] == 0x57 && b[3] == 0x4d) {
            return Err(DataError::BadMagic);
        }
        let (version, at): (u32, usize) = match codec::read_u32(b, 4) {
            Ok(x) => x,
            Err(e) => {
                return Err(e);
            },
        };
        if version != VERSION {
            return Err(DataError::UnsupportedVersion(version));
        }
        let (n, start): (u64, usize) = match codec::read_u64(b, at) {
            Ok(x) => x,
            Err(e) => {
                return Err(e);
            },
        };
        let ghost body = b@.skip(start as int);
        let ghost mut records: Seq<Record> = Seq::empty();
        let mut m: WeightMap = WeightMap::new();
        let mut at: usize = start;
        let mut i: u64 = 0;
        while i < n
            invariant
                i <= n,
                at <= b@.len(),
                p == (|c: Seq<u8>| parse_record(c)),
                parse_records(b@) == match codec::parse_each(body, n as nat, p) {
                    Err(e) => Err::<Seq<Record>, DataError>(e),
                    Ok((list, _)) => Ok(list),
                },
                m.wf(),
                m@ == weights_of(records),
                codec::parse_each(body, i as nat, p) == Ok::<(Seq<Record>, Seq<u8>), DataError>(
                    (records, b@.skip(at as int)),
                ),
            decreases n - i,
        {
            let ghost before = m@;
            match m.read_record(b, at) {
                Err(e) => {
                    proof {
                        codec::lemma_error_stays(body, (i + 1) as nat, n as nat, p);
                    }
                    return Err(e);
                },
                Ok(next) => {
                    proof {
                        let record = choose|record: Record|
                            parse_record(b@.skip(at as int)) == Ok::<(Record, Seq<u8>), DataError>(
                                (record, b@.skip(next as int)),
                            ) && m@ == #[trigger] before.with(record);
                        assert(records.push(record).drop_last() =~= records);
                        records = records.push(record);
                    }
                    at = next;
                    i += 1;
                },
            }
        }
        Ok(m)
    }
}

/// The lengths of a text, a list or the rows of a matrix fit the format.
pub open spec fn fits(r: Record) -> bool {
    match r {
        Record::Scalar(k, _) => text_fits(k),
        Record::Vector(k, v) => text_fits(k) && v.len() <= u64::MAX,
        Record::Matrix(k, m) => text_fits(k) && m.len() <= u64::MAX && forall|i: int|
            0 <= i < m.len() ==> (#[trigger] m[i]).len() <= u64::MAX,
        Record::Strings(k, l) => text_fits(k) && l.len() <= u64::MAX && forall|i: int|
            0 <= i < l.len() ==> text_fits(#[trigger] l[i]),
    }
}

pub open spec fn text_fits(s: Seq<char>) -> bool {
    vstd::utf8::encode_utf8(s).len() <= u64::MAX
}

/// A record is parsed back from its bytes.
pub proof fn lemma_record_round_trip(r: Record, rest: Seq<u8>)
    requires
        fits(r),
    ensures
        parse_record(encode_record(r) + rest) == Ok::<(Record, Seq<u8>), DataError>((r, rest)),
{
    let k = match r {
        Record::Scalar(k, _) => k,
        Record::Vector(k, _) => k,
        Record::Matrix(k, _) => k,
        Record::Strings(k, _) => k,
    };
    let value = match r {
        Record::Scalar(_, v) => codec::encode_u64(v),
        Record::Vector(_, v) => codec::encode_vector(v),
        Record::Matrix(_, m) => codec::encode_matrix(m),
        Record::Strings(_, l) => codec::encode_texts(l),
    };
    let all = encode_record(r) + rest;
    assert(all.skip(1) =~= codec::encode_text(k) + (value + rest));
    codec::lemma_text_round_trip(k, value + rest);
    match r {
        Record::Scalar(_, v) => {
            codec::lemma_u64_round_trip(v, rest);
        },
        Record::Vector(_, v) => {
            codec::lemma_vector_round_trip(v, rest);
        },
        Record::Matrix(_, m) => {
            codec::lemma_matrix_round_trip(m, rest);
        },
        Record::Strings(_, l) => {
            assert forall|i: int| 0 <= i < l.len() implies vstd::utf8::encode_utf8(
                #[trigger] l[i],
            ).len() <= u64::MAX by {
                assert(text_fits(l[i]));
            }
            codec::lemma_texts_round_trip(l, rest);
        },
    }
}

/// Records are parsed back from the bytes of their checkpoint.
pub proof fn law_records_are_parsed_back(records: Seq<Record>)
    requires
        records.len() <= u64::MAX,
        forall|i: int| 0 <= i < records.len() ==> fits(#[trigger] records[i]),
    ensures
        parse_records(encode_records(records)) == Ok::<Seq<Record>, DataError>(records),
{
    let f = |r: Record| encode_record(r);
    let p = |c: Seq<u8>| parse_record(c);
    let n = records.len() as u64;
    let body = codec::encode_each(records, f);
    let b = encode_records(records);
    assert(b.take(4) =~= magic());
    assert(b.skip(4) =~= codec::encode_u32(VERSION) + (codec::encode_u64(n) + body));
    codec::lemma_u32_round_trip(VERSION, codec::encode_u64(n) + body);
    codec::lemma_u64_round_trip(n, body);
    assert forall|i: int, c: Seq<u8>| 0 <= i < records.len() implies #[trigger] p(
        f(records[i]) + c,
    ) == Ok::<(Record, Seq<u8>), DataError>((records[i], c)) by {
        lemma_record_round_trip(records[i], c);
    }
    codec::lemma_each_round_trip(records, f, p, Seq::empty());
    assert(body + Seq::<u8>::empty() =~= body);
}

/// Adding scalars, one after the other.
proof fn lemma_add_scalars(m: Seq<Record>, l: Seq<(Seq<char>, u64)>)
    requires
        weights_of(m).scalars == Map::<Seq<char>, u64>::empty(),
    ensures
        weights_of(m + scalar_records(l)) == (Weights { scalars: table::map_of(l), ..weights_of(m) }),
    decreases l.len(),
{
    let all = m + scalar_records(l);
    if l.len() == 0 {
        assert(all =~= m);
        assert(weights_of(all) =~= (Weights { scalars: table::map_of(l), ..weights_of(m) }));
    } else {
        lemma_add_scalars(m, l.drop_last());
        assert(all.drop_last() =~= m + scalar_records(l.drop_last()));
    }
}

/// Adding vectors, one after the other.
proof fn lemma_add_vectors(m: Seq<Record>, l: Seq<(Seq<char>, Seq<u32>)>)
    requires
        weights_of(m).vectors == Map::<Seq<char>, Seq<u32>>::empty(),
    ensures
        weights_of(m + vector_records(l)) == (Weights { vectors: table::map_of(l), ..weights_of(m) }),
    decreases l.len(),
{
    let all = m + vector_records(l);
    if l.len() == 0 {
        assert(all =~= m);
        assert(weights_of(all) =~= (Weights { vectors: table::map_of(l), ..weights_of(m) }));
    } else {
        lemma_add_vectors(m, l.drop_last());
        assert(all.drop_last() =~= m + vector_records(l.drop_last()));
    }
}

/// Adding matrices, one after the other.
proof fn lemma_add_matrices(m: Seq<Record>, l: Seq<(Seq<char>, Seq<Seq<u32>>)>)
    requires
        weights_of(m).matrices == Map::<Seq<char>, Seq<Seq<u32>>>::empty(),
    ensures
        weights_of(m + matrix_records(l)) == (Weights {
            matrices: table::map_of(l),
            ..weights_of(m)
        }),
    decreases l.len(),
{
    let all = m + matrix_records(l);
    if l.len() == 0 {
        assert(all =~= m);
        assert(weights_of(all) =~= (Weights { matrices: table::map_of(l), ..weights_of(m) }));
    } else {
        lemma_add_matrices(m, l.drop_last());
        assert(all.drop_last() =~= m + matrix_records(l.drop_last()));
    }
}

/// Adding lists of strings, one after the other.
proof fn lemma_add_strings(m: Seq<Record>, l: Seq<(Seq<char>, Seq<Seq<char>>)>)
    requires
        weights_of(m).strings == Map::<Seq<char>, Seq<Seq<char>>>::empty(),
    ensures
        weights_of(m + strings_records(l)) == (Weights { strings: table::map_of(l), ..weights_of(m) }),
    decreases l.len(),
{
    let all = m + strings_records(l);
    if l.len() == 0 {
        assert(all =~= m);
        assert(weights_of(all) =~= (Weights { strings: table::map_of(l), ..weights_of(m) }));
    } else {
        lemma_add_strings(m, l.drop_last());
        assert(all.drop_last() =~= m + strings_records(l.drop_last()));
    }
}

/// Loading what was saved gives back what was there.
pub proof fn law_load_gives_back_what_was_saved(w: Weights)
    requires
        w.listable(),
        w.records().len() <= u64::MAX,
        forall|i: int| 0 <= i < w.records().len() ==> fits(#[trigger] w.records()[i]),
    ensures
        parse_records(encode_records(w.records())) is Ok,
        weights_of(parse_records(encode_records(w.records()))->Ok_0) == w,
{
    let scalars = scalar_records(table::ordered(w.scalars));
    let vectors = vector_records(table::ordered(w.vectors));
    let matrices = matrix_records(table::ordered(w.matrices));
    let none = Seq::<Record>::empty();
    law_records_are_parsed_back(w.records());
    assert(weights_of(none) == Weights::empty());
    lemma_add_scalars(none, table::ordered(w.scalars));
    assert(none + scalars =~= scalars);
    lemma_add_vectors(scalars, table::ordered(w.vectors));
    lemma_add_matrices(scalars + vectors, table::ordered(w.matrices));
    lemma_add_strings(scalars + vectors + matrices, table::ordered(w.strings));
    assert(weights_of(w.records()) =~= w);
}

} // verus!
