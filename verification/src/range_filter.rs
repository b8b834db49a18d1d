//! Turning the statistics of the columns of a block into the domains of their
//! values, which a range filter folds its expression with to prune the block.
use std::collections::HashMap;

use vstd::prelude::*;

use crate::kvapi::append_bytes;
use crate::str_map::{last_index, lemma_last_index_take, string_views, StrMap};

verus! {

broadcast use vstd::std_specs::hash::group_hash_axioms;

/// The number types of columns.
#[derive(Debug, Clone, Copy, PartialEq, Eq, Structural)]
pub enum NumberDataType {
    UInt8,
    UInt16,
    UInt32,
    UInt64,
    Int8,
    Int16,
    Int32,
    Int64,
    Float32,
    Float64,
}

/// The type of a column.
#[derive(Debug, PartialEq, Eq)]
pub enum DataType {
    Null,
    EmptyArray,
    EmptyMap,
    Boolean,
    String,
    Number(NumberDataType),
    Timestamp,
    Date,
    Nullable(Box<DataType>),
    Array(Box<DataType>),
    Variant,
    Generic(usize),
}

/// A number value. A float is held by its IEEE-754 bits, which are only
/// carried over, never computed with.
#[derive(Debug, Clone, Copy, PartialEq, Eq, Structural)]
pub enum NumberScalar {
    UInt8(u8),
    UInt16(u16),
    UInt32(u32),
    UInt64(u64),
    Int8(i8),
    Int16(i16),
    Int32(i32),
    Int64(i64),
    Float32(u32),
    Float64(u64),
}

/// A single value of a column.
#[derive(Debug, Clone, PartialEq, Eq)]
pub enum Scalar {
    Null,
    EmptyArray,
    EmptyMap,
    Number(NumberScalar),
    Timestamp(i64),
    Date(i32),
    Boolean(bool),
    String(Vec<u8>),
    Variant(Vec<u8>),
}

/// The statistics of one column of a block.
#[derive(Debug, Clone, PartialEq, Eq)]
pub struct ColumnStatistics {
    pub min: Scalar,
    pub max: Scalar,
    pub null_count: u64,
    pub in_memory_size: u64,
    pub distinct_of_values: Option<u64>,
}

/// The statistics of the columns of a block, by column id.
pub type StatisticsOfColumns = HashMap<u32, ColumnStatistics>;

/// The values between `min` and `max`.
#[derive(Debug, Clone, Copy, PartialEq, Eq)]
pub struct SimpleDomain<T> {
    pub min: T,
    pub max: T,
}

/// The domain of a number column.
#[derive(Debug, Clone, Copy, PartialEq, Eq)]
pub enum NumberDomain {
    UInt8(SimpleDomain<u8>),
    UInt16(SimpleDomain<u16>),
    UInt32(SimpleDomain<u32>),
    UInt64(SimpleDomain<u64>),
    Int8(SimpleDomain<i8>),
    Int16(SimpleDomain<i16>),
    Int32(SimpleDomain<i32>),
    Int64(SimpleDomain<i64>),
    Float32(SimpleDomain<u32>),
    Float64(SimpleDomain<u64>),
}

/// The domain of a string column; no `max` means no upper bound.
#[derive(Debug, Clone, PartialEq, Eq)]
pub struct StringDomain {
    pub min: Vec<u8>,
    pub max: Option<Vec<u8>>,
}

/// The domain of a nullable column: whether it holds nulls, and the domain of
/// its other values, if it has any.
#[derive(Debug, PartialEq, Eq)]
pub struct NullableDomain {
    pub has_null: bool,
    pub value: Option<Box<Domain>>,
}

/// The values that a column may hold.
#[derive(Debug, PartialEq, Eq)]
pub enum Domain {
    Number(NumberDomain),
    String(StringDomain),
    Timestamp(SimpleDomain<i64>),
    Date(SimpleDomain<i32>),
    Nullable(NullableDomain),
    /// Every value of the type.
    Full(DataType),
}

/// Whether `s` is a number of the type `nt`.
pub open spec fn number_fits(nt: NumberDataType, s: Scalar) -> bool {
    match (nt, s) {
        (NumberDataType::UInt8, Scalar::Number(NumberScalar::UInt8(_))) => true,
        (NumberDataType::UInt16, Scalar::Number(NumberScalar::UInt16(_))) => true,
        (NumberDataType::UInt32, Scalar::Number(NumberScalar::UInt32(_))) => true,
        (NumberDataType::UInt64, Scalar::Number(NumberScalar::UInt64(_))) => true,
        (NumberDataType::Int8, Scalar::Number(NumberScalar::Int8(_))) => true,
        (NumberDataType::Int16, Scalar::Number(NumberScalar::Int16(_))) => true,
        (NumberDataType::Int32, Scalar::Number(NumberScalar::Int32(_))) => true,
        (NumberDataType::Int64, Scalar::Number(NumberScalar::Int64(_))) => true,
        (NumberDataType::Float32, Scalar::Number(NumberScalar::Float32(_))) => true,
        (NumberDataType::Float64, Scalar::Number(NumberScalar::Float64(_))) => true,
        _ => false,
    }
}

/// The number domain from `min` to `max`, two numbers of one type.
pub open spec fn number_domain(min: Scalar, max: Scalar) -> NumberDomain {
    match (min, max) {
        (Scalar::Number(NumberScalar::UInt8(a)), Scalar::Number(NumberScalar::UInt8(b))) => {
            NumberDomain::UInt8(SimpleDomain { min: a, max: b })
        },
        (Scalar::Number(NumberScalar::UInt16(a)), Scalar::Number(NumberScalar::UInt16(b))) => {
            NumberDomain::UInt16(SimpleDomain { min: a, max: b })
        },
        (Scalar::Number(NumberScalar::UInt32(a)), Scalar::Number(NumberScalar::UInt32(b))) => {
            NumberDomain::UInt32(SimpleDomain { min: a, max: b })
        },
        (Scalar::Number(NumberScalar::UInt64(a)), Scalar::Number(NumberScalar::UInt64(b))) => {
            NumberDomain::UInt64(SimpleDomain { min: a, max: b })
        },
        (Scalar::Number(NumberScalar::Int8(a)), Scalar::Number(NumberScalar::Int8(b))) => {
            NumberDomain::Int8(SimpleDomain { min: a, max: b })
        },
        (Scalar::Number(NumberScalar::Int16(a)), Scalar::Number(NumberScalar::Int16(b))) => {
            NumberDomain::Int16(SimpleDomain { min: a, max: b })
        },
        (Scalar::Number(NumberScalar::Int32(a)), Scalar::Number(NumberScalar::Int32(b))) => {
            NumberDomain::Int32(SimpleDomain { min: a, max: b })
        },
        (Scalar::Number(NumberScalar::Int64(a)), Scalar::Number(NumberScalar::Int64(b))) => {
            NumberDomain::Int64(SimpleDomain { min: a, max: b })
        },
        (Scalar::Number(NumberScalar::Float32(a)), Scalar::Number(NumberScalar::Float32(b))) => {
            NumberDomain::Float32(SimpleDomain { min: a, max: b })
        },
        (Scalar::Number(NumberScalar::Float64(a)), Scalar::Number(NumberScalar::Float64(b))) => {
            NumberDomain::Float64(SimpleDomain { min: a, max: b })
        },
        _ => NumberDomain::UInt8(SimpleDomain { min: 0, max: 0 }),
    }
}

/// Whether the statistics of a column can be read as values of its type: a
/// minimum or a maximum that is null can always; otherwise both must be values
/// of the type, for the types whose statistics are read.
pub open spec fn stats_fit(stat: Option<ColumnStatistics>, ty: DataType) -> bool
    decreases ty,
{
    match stat {
        None => true,
        Some(s) => s.min is Null || s.max is Null || match ty {
            DataType::Number(nt) => number_fits(nt, s.min) && number_fits(nt, s.max),
            DataType::String => s.min is String && s.max is String,
            DataType::Timestamp => s.min is Timestamp && s.max is Timestamp,
            DataType::Date => s.min is Date && s.max is Date,
            DataType::Nullable(inner) => stats_fit(stat, *inner),
            _ => true,
        },
    }
}

/// Whether `d` is the domain of a column of type `ty` with the statistics
/// `stat`: every value of the type without statistics; nothing but null where
/// the minimum or the maximum is null; the range from the minimum to the
/// maximum for numbers, strings, timestamps and dates; for a nullable type, the
/// domain of the inner type, with nulls where the null count is not zero; every
/// value of the type for the other types.
pub open spec fn is_domain_of(d: Domain, stat: Option<ColumnStatistics>, ty: DataType) -> bool
    decreases ty,
{
    match stat {
        None => d == Domain::Full(ty),
        Some(s) => if s.min is Null || s.max is Null {
            d == Domain::Nullable(NullableDomain { has_null: true, value: None })
        } else {
            match ty {
                DataType::Number(_) => d == Domain::Number(number_domain(s.min, s.max)),
                DataType::String => match (d, s.min, s.max) {
                    (Domain::String(sd), Scalar::String(a), Scalar::String(b)) => {
                        &&& sd.min@ == a@
                        &&& sd.max matches Some(m)
                        &&& m@ == b@
                    },
                    _ => false,
                },
                DataType::Timestamp => match (s.min, s.max) {
                    (Scalar::Timestamp(a), Scalar::Timestamp(b)) => d == Domain::Timestamp(
                        SimpleDomain { min: a, max: b },
                    ),
                    _ => false,
                },
                DataType::Date => match (s.min, s.max) {
                    (Scalar::Date(a), Scalar::Date(b)) => d == Domain::Date(
                        SimpleDomain { min: a, max: b },
                    ),
                    _ => false,
                },
                DataType::Nullable(inner) => match d {
                    Domain::Nullable(nd) => {
                        &&& nd.has_null == (s.null_count > 0)
                        &&& nd.value matches Some(v)
                        &&& is_domain_of(*v, stat, *inner)
                    },
                    _ => false,
                },
                _ => d == Domain::Full(ty),
            }
        },
    }
}

/// The value of an optional reference.
pub open spec fn deref_stat(stat: Option<&ColumnStatistics>) -> Option<ColumnStatistics> {
    match stat {
        Some(s) => Some(*s),
        None => None,
    }
}

fn copy_data_type(ty: &DataType) -> (r: DataType)
    ensures
        r == *ty,
    decreases ty,
{
    match ty {
        DataType::Null => DataType::Null,
        DataType::EmptyArray => DataType::EmptyArray,
        DataType::EmptyMap => DataType::EmptyMap,
        DataType::Boolean => DataType::Boolean,
        DataType::String => DataType::String,
        DataType::Number(nt) => DataType::Number(*nt),
        DataType::Timestamp => DataType::Timestamp,
        DataType::Date => DataType::Date,
        DataType::Nullable(inner) => DataType::Nullable(Box::new(copy_data_type(&**inner))),
        DataType::Array(inner) => DataType::Array(Box::new(copy_data_type(&**inner))),
        DataType::Variant => DataType::Variant,
        DataType::Generic(i) => DataType::Generic(*i),
    }
}

fn copy_bytes(src: &Vec<u8>) -> (r: Vec<u8>)
    ensures
        r@ == src@,
{
    let mut r: Vec<u8> = Vec::new();
    append_bytes(&mut r, src.as_slice());
    r
}

fn number_domain_of(min: &Scalar, max: &Scalar, nt: NumberDataType) -> (d: NumberDomain)
    requires
        number_fits(nt, *min),
        number_fits(nt, *max),
    ensures
        d == number_domain(*min, *max),
{
    match (min, max) {
        (Scalar::Number(NumberScalar::UInt8(a)), Scalar::Number(NumberScalar::UInt8(b))) => {
            NumberDomain::UInt8(SimpleDomain { min: *a, max: *b })
        },
        (Scalar::Number(NumberScalar::UInt16(a)), Scalar::Number(NumberScalar::UInt16(b))) => {
            NumberDomain::UInt16(SimpleDomain { min: *a, max: *b })
        },
        (Scalar::Number(NumberScalar::UInt32(a)), Scalar::Number(NumberScalar::UInt32(b))) => {
            NumberDomain::UInt32(SimpleDomain { min: *a, max: *b })
        },
        (Scalar::Number(NumberScalar::UInt64(a)), Scalar::Number(NumberScalar::UInt64(b))) => {
            NumberDomain::UInt64(SimpleDomain { min: *a, max: *b })
        },
        (Scalar::Number(NumberScalar::Int8(a)), Scalar::Number(NumberScalar::Int8(b))) => {
            NumberDomain::Int8(SimpleDomain { min: *a, max: *b })
        },
        (Scalar::Number(NumberScalar::Int16(a)), Scalar::Number(NumberScalar::Int16(b))) => {
            NumberDomain::Int16(SimpleDomain { min: *a, max: *b })
        },
        (Scalar::Number(NumberScalar::Int32(a)), Scalar::Number(NumberScalar::Int32(b))) => {
            NumberDomain::Int32(SimpleDomain { min: *a, max: *b })
        },
        (Scalar::Number(NumberScalar::Int64(a)), Scalar::Number(NumberScalar::Int64(b))) => {
            NumberDomain::Int64(SimpleDomain { min: *a, max: *b })
        },
        (Scalar::Number(NumberScalar::Float32(a)), Scalar::Number(NumberScalar::Float32(b))) => {
            NumberDomain::Float32(SimpleDomain { min: *a, max: *b })
        },
        (Scalar::Number(NumberScalar::Float64(a)), Scalar::Number(NumberScalar::Float64(b))) => {
            NumberDomain::Float64(SimpleDomain { min: *a, max: *b })
        },
        _ => {
            proof {
                assert(false);
            }
            NumberDomain::UInt8(SimpleDomain { min: 0, max: 0 })
        },
    }
}

/// The domain of the values of a column of type `data_type`, from its
/// statistics, where there are any.
pub fn statistics_to_domain(stat: Option<&ColumnStatistics>, data_type: &DataType) -> (d: Domain)
    requires
        stats_fit(deref_stat(stat), *data_type),
    ensures
        is_domain_of(d, deref_stat(stat), *data_type),
    decreases data_type,
{
    match stat {
        None => Domain::Full(copy_data_type(data_type)),
        Some(s) => {
            if matches!(s.min, Scalar::Null) || matches!(s.max, Scalar::Null) {
                return Domain::Nullable(NullableDomain { has_null: true, value: None });
            }
            match data_type {
                DataType::Number(nt) => Domain::Number(number_domain_of(&s.min, &s.max, *nt)),
                DataType::String => match (&s.min, &s.max) {
                    (Scalar::String(a), Scalar::String(b)) => Domain::String(
                        StringDomain { min: copy_bytes(a), max: Some(copy_bytes(b)) },
                    ),
                    _ => {
                        proof {
                            assert(false);
                        }
                        Domain::Full(copy_data_type(data_type))
                    },
                },
                DataType::Timestamp => match (&s.min, &s.max) {
                    (Scalar::Timestamp(a), Scalar::Timestamp(b)) => Domain::Timestamp(
                        SimpleDomain { min: *a, max: *b },
                    ),
                    _ => {
                        proof {
                            assert(false);
                        }
                        Domain::Full(copy_data_type(data_type))
                    },
                },
                DataType::Date => match (&s.min, &s.max) {
                    (Scalar::Date(a), Scalar::Date(b)) => Domain::Date(
                        SimpleDomain { min: *a, max: *b },
                    ),
                    _ => {
                        proof {
                            assert(false);
                        }
                        Domain::Full(copy_data_type(data_type))
                    },
                },
                DataType::Nullable(ty) => {
                    let domain = statistics_to_domain(Some(s), &**ty);
                    Domain::Nullable(
                        NullableDomain { has_null: s.null_count > 0, value: Some(Box::new(domain)) },
                    )
                },
                _ => Domain::Full(copy_data_type(data_type)),
            }
        },
    }
}

/// The index of each leaf column by name: the position of the last leaf field
/// with that name.
pub fn column_indices(leaf_names: &Vec<String>) -> (r: StrMap<usize>)
    ensures
        forall|k: Seq<char>|
            r@.contains_key(k) <==> #[trigger] last_index(string_views(leaf_names@), k) >= 0,
        forall|k: Seq<char>|
            #[trigger] r@.contains_key(k) ==> r@[k] == last_index(string_views(leaf_names@), k),
{
    let ghost names = string_views(leaf_names@);
    let mut indices: StrMap<usize> = StrMap::new();
    let mut i: usize = 0;
    while i < leaf_names.len()
        invariant
            names == string_views(leaf_names@),
            i <= leaf_names@.len(),
            forall|k: Seq<char>|
                indices@.contains_key(k) <==> #[trigger] last_index(names.take(i as int), k) >= 0,
            forall|k: Seq<char>|
                #[trigger] indices@.contains_key(k) ==> indices@[k] == last_index(
                    names.take(i as int),
                    k,
                ),
        decreases leaf_names@.len() - i,
    {
        indices.insert(leaf_names[i].clone(), i);
        proof {
            lemma_last_index_take(names, i as int);
        }
        i = i + 1;
    }
    proof {
        assert(names.take(leaf_names@.len() as int) =~= names);
    }
    indices
}

/// The statistics of the column `name`: those of the column id that `name` is
/// indexed by, where both are known.
pub open spec fn column_stat(
    indices: Map<Seq<char>, usize>,
    stats: Map<u32, ColumnStatistics>,
    name: Seq<char>,
) -> Option<ColumnStatistics> {
    if indices.contains_key(name) && stats.contains_key(indices[name] as u32) {
        Some(stats[indices[name] as u32])
    } else {
        None
    }
}

/// The domain of each column that an expression refers to, from the statistics
/// of a block.
pub fn input_domains(
    indices: &StrMap<usize>,
    column_refs: &Vec<(String, DataType)>,
    stats: &StatisticsOfColumns,
) -> (r: Vec<(String, Domain)>)
    requires
        forall|i: int|
            0 <= i < column_refs@.len() ==> stats_fit(
                column_stat(indices@, stats@, (#[trigger] column_refs@[i]).0@),
                column_refs@[i].1,
            ),
    ensures
        r@.len() == column_refs@.len(),
        forall|i: int|
            0 <= i < r@.len() ==> (#[trigger] r@[i]).0@ == column_refs@[i].0@ && is_domain_of(
                r@[i].1,
                column_stat(indices@, stats@, column_refs@[i].0@),
                column_refs@[i].1,
            ),
{
    let mut domains: Vec<(String, Domain)> = Vec::new();
    let mut i: usize = 0;
    while i < column_refs.len()
        invariant
            i <= column_refs@.len(),
            domains@.len() == i,
            forall|j: int|
                0 <= j < column_refs@.len() ==> stats_fit(
                    column_stat(indices@, stats@, (#[trigger] column_refs@[j]).0@),
                    column_refs@[j].1,
                ),
            forall|j: int|
                0 <= j < i ==> (#[trigger] domains@[j]).0@ == column_refs@[j].0@ && is_domain_of(
                    domains@[j].1,
                    column_stat(indices@, stats@, column_refs@[j].0@),
                    column_refs@[j].1,
                ),
        decreases column_refs@.len() - i,
    {
        let (name, ty) = &column_refs[i];
        let stat = match indices.get(name) {
            Some(index) => stats.get(&(*index as u32)),
            None => None,
        };
        proof {
            assert(deref_stat(stat) == column_stat(indices@, stats@, name@));
        }
        let domain = statistics_to_domain(stat, ty);
        domains.push((name.clone(), domain));
        i = i + 1;
    }
    domains
}


fn number_fits_exec(nt: NumberDataType, s: &Scalar) -> (r: bool)
    ensures
        r == number_fits(nt, *s),
{
    match (nt, s) {
        (NumberDataType::UInt8, Scalar::Number(NumberScalar::UInt8(_))) => true,
        (NumberDataType::UInt16, Scalar::Number(NumberScalar::UInt16(_))) => true,
        (NumberDataType::UInt32, Scalar::Number(NumberScalar::UInt32(_))) => true,
        (NumberDataType::UInt64, Scalar::Number(NumberScalar::UInt64(_))) => true,
        (NumberDataType::Int8, Scalar::Number(NumberScalar::Int8(_))) => true,
        (NumberDataType::Int16, Scalar::Number(NumberScalar::Int16(_))) => true,
        (NumberDataType::Int32, Scalar::Number(NumberScalar::Int32(_))) => true,
        (NumberDataType::Int64, Scalar::Number(NumberScalar::Int64(_))) => true,
        (NumberDataType::Float32, Scalar::Number(NumberScalar::Float32(_))) => true,
        (NumberDataType::Float64, Scalar::Number(NumberScalar::Float64(_))) => true,
        _ => false,
    }
}

/// Whether the statistics of a column can be read as values of its type, which
/// `statistics_to_domain` needs.
pub fn statistics_fit(stat: Option<&ColumnStatistics>, data_type: &DataType) -> (r: bool)
    ensures
        r == stats_fit(deref_stat(stat), *data_type),
    decreases data_type,
{
    match stat {
        None => true,
        Some(s) => {
            if matches!(s.min, Scalar::Null) || matches!(s.max, Scalar::Null) {
                return true;
            }
            match data_type {
                DataType::Number(nt) => number_fits_exec(*nt, &s.min) && number_fits_exec(
                    *nt,
                    &s.max,
                ),
                DataType::String => matches!(s.min, Scalar::String(_)) && matches!(
                    s.max,
                    Scalar::String(_)
                ),
                DataType::Timestamp => matches!(s.min, Scalar::Timestamp(_)) && matches!(
                    s.max,
                    Scalar::Timestamp(_)
                ),
                DataType::Date => matches!(s.min, Scalar::Date(_)) && matches!(
                    s.max,
                    Scalar::Date(_)
                ),
                DataType::Nullable(ty) => statistics_fit(Some(s), &**ty),
                _ => true,
            }
        },
    }
}

/// Whether the statistics of every referenced column can be read as values of
/// its type, which `input_domains` needs.
pub fn input_statistics_fit(
    indices: &StrMap<usize>,
    column_refs: &Vec<(String, DataType)>,
    stats: &StatisticsOfColumns,
) -> (r: bool)
    ensures
        r == forall|i: int|
            0 <= i < column_refs@.len() ==> stats_fit(
                column_stat(indices@, stats@, (#[trigger] column_refs@[i]).0@),
                column_refs@[i].1,
            ),
{
    let mut i: usize = 0;
    while i < column_refs.len()
        invariant
            i <= column_refs@.len(),
            forall|j: int|
                0 <= j < i ==> stats_fit(
                    column_stat(indices@, stats@, (#[trigger] column_refs@[j]).0@),
                    column_refs@[j].1,
                ),
        decreases column_refs@.len() - i,
    {
        let (name, ty) = &column_refs[i];
        let stat = match indices.get(name) {
            Some(index) => stats.get(&(*index as u32)),
            None => None,
        };
        proof {
            assert(deref_stat(stat) == column_stat(indices@, stats@, name@));
        }
        if !statistics_fit(stat, ty) {
            return false;
        }
        i = i + 1;
    }
    true
}

/// The domain of a number, timestamp or date column whose statistics have a
/// minimum and a maximum of its type runs from the statistics' minimum to
/// their maximum; a string column's domain runs from the minimum's bytes to
/// the maximum's bytes.
pub proof fn lemma_domain_bounds_are_statistics(d: Domain, s: ColumnStatistics)
    ensures
        s.min matches Scalar::Number(NumberScalar::UInt8(a)) ==> s.max matches Scalar::Number(
            NumberScalar::UInt8(b),
        ) ==> is_domain_of(d, Some(s), DataType::Number(NumberDataType::UInt8)) ==> match d {
            Domain::Number(NumberDomain::UInt8(r)) => r.min == a && r.max == b,
            _ => false,
        },
        s.min matches Scalar::Number(NumberScalar::UInt16(a)) ==> s.max matches Scalar::Number(
            NumberScalar::UInt16(b),
        ) ==> is_domain_of(d, Some(s), DataType::Number(NumberDataType::UInt16)) ==> match d {
            Domain::Number(NumberDomain::UInt16(r)) => r.min == a && r.max == b,
            _ => false,
        },
        s.min matches Scalar::Number(NumberScalar::UInt32(a)) ==> s.max matches Scalar::Number(
            NumberScalar::UInt32(b),
        ) ==> is_domain_of(d, Some(s), DataType::Number(NumberDataType::UInt32)) ==> match d {
            Domain::Number(NumberDomain::UInt32(r)) => r.min == a && r.max == b,
            _ => false,
        },
        s.min matches Scalar::Number(NumberScalar::UInt64(a)) ==> s.max matches Scalar::Number(
            NumberScalar::UInt64(b),
        ) ==> is_domain_of(d, Some(s), DataType::Number(NumberDataType::UInt64)) ==> match d {
            Domain::Number(NumberDomain::UInt64(r)) => r.min == a && r.max == b,
            _ => false,
        },
        s.min matches Scalar::Number(NumberScalar::Int8(a)) ==> s.max matches Scalar::Number(
            NumberScalar::Int8(b),
        ) ==> is_domain_of(d, Some(s), DataType::Number(NumberDataType::Int8)) ==> match d {
            Domain::Number(NumberDomain::Int8(r)) => r.min == a && r.max == b,
            _ => false,
        },
        s.min matches Scalar::Number(NumberScalar::Int16(a)) ==> s.max matches Scalar::Number(
            NumberScalar::Int16(b),
        ) ==> is_domain_of(d, Some(s), DataType::Number(NumberDataType::Int16)) ==> match d {
            Domain::Number(NumberDomain::Int16(r)) => r.min == a && r.max == b,
            _ => false,
        },
        s.min matches Scalar::Number(NumberScalar::Int32(a)) ==> s.max matches Scalar::Number(
            NumberScalar::Int32(b),
        ) ==> is_domain_of(d, Some(s), DataType::Number(NumberDataType::Int32)) ==> match d {
            Domain::Number(NumberDomain::Int32(r)) => r.min == a && r.max == b,
            _ => false,
        },
        s.min matches Scalar::Number(NumberScalar::Int64(a)) ==> s.max matches Scalar::Number(
            NumberScalar::Int64(b),
        ) ==> is_domain_of(d, Some(s), DataType::Number(NumberDataType::Int64)) ==> match d {
            Domain::Number(NumberDomain::Int64(r)) => r.min == a && r.max == b,
            _ => false,
        },
        s.min matches Scalar::Number(NumberScalar::Float32(a)) ==> s.max matches Scalar::Number(
            NumberScalar::Float32(b),
        ) ==> is_domain_of(d, Some(s), DataType::Number(NumberDataType::Float32)) ==> match d {
            Domain::Number(NumberDomain::Float32(r)) => r.min == a && r.max == b,
            _ => false,
        },
        s.min matches Scalar::Number(NumberScalar::Float64(a)) ==> s.max matches Scalar::Number(
            NumberScalar::Float64(b),
        ) ==> is_domain_of(d, Some(s), DataType::Number(NumberDataType::Float64)) ==> match d {
            Domain::Number(NumberDomain::Float64(r)) => r.min == a && r.max == b,
            _ => false,
        },
        s.min matches Scalar::Timestamp(a) ==> s.max matches Scalar::Timestamp(b) ==> is_domain_of(
            d,
            Some(s),
            DataType::Timestamp,
        ) ==> match d {
            Domain::Timestamp(r) => r.min == a && r.max == b,
            _ => false,
        },
        s.min matches Scalar::Date(a) ==> s.max matches Scalar::Date(b) ==> is_domain_of(
            d,
            Some(s),
            DataType::Date,
        ) ==> match d {
            Domain::Date(r) => r.min == a && r.max == b,
            _ => false,
        },
        s.min matches Scalar::String(a) ==> s.max matches Scalar::String(b) ==> is_domain_of(
            d,
            Some(s),
            DataType::String,
        ) ==> match d {
            Domain::String(sd) => sd.min@ == a@ && match sd.max {
                Some(m) => m@ == b@,
                None => false,
            },
            _ => false,
        },
{
}

/// Without statistics a column's domain is every value of its type; with a
/// null minimum or maximum it is the null value only; a column of a type whose
/// statistics are not read has every value of its type; a nullable column's
/// domain holds nulls exactly when the null count is not zero.
pub proof fn lemma_domain_nulls(d: Domain, stat: Option<ColumnStatistics>, ty: DataType)
    ensures
        stat is None && is_domain_of(d, stat, ty) ==> d == Domain::Full(ty),
        stat matches Some(s) ==> (s.min == Scalar::Null || s.max == Scalar::Null) ==> is_domain_of(
            d,
            stat,
            ty,
        ) ==> d == Domain::Nullable(NullableDomain { has_null: true, value: None }),
        stat matches Some(s) ==> (s.min != Scalar::Null && s.max != Scalar::Null && !(ty is Number
            || ty is String || ty is Timestamp || ty is Date || ty is Nullable) && is_domain_of(
            d,
            stat,
            ty,
        )) ==> match d {
            Domain::Full(t) => t == ty,
            _ => false,
        },
        stat matches Some(s) ==> (s.min != Scalar::Null && s.max != Scalar::Null && ty is Nullable
            && is_domain_of(d, stat, ty)) ==> match d {
            Domain::Nullable(nd) => nd.has_null == (s.null_count > 0) && nd.value is Some,
            _ => false,
        },
{
}

/// The statistics that a column reads depend only on the statistics at the id
/// that the column's name is indexed by: where two sets of statistics agree
/// there, the column reads the same statistics from both, so `input_domains`
/// gives it the same domain, whatever the other entries hold.
pub proof fn lemma_column_stat_local(
    indices: Map<Seq<char>, usize>,
    stats1: Map<u32, ColumnStatistics>,
    stats2: Map<u32, ColumnStatistics>,
    name: Seq<char>,
)
    requires
        indices.contains_key(name) ==> {
            let id = indices[name] as u32;
            &&& stats1.contains_key(id) <==> stats2.contains_key(id)
            &&& stats1.contains_key(id) ==> stats1[id] == stats2[id]
        },
    ensures
        column_stat(indices, stats1, name) == column_stat(indices, stats2, name),
{
}

/// Whether a block may hold rows that match, given the constant that the
/// filter's expression folded to, if it folded to one: only a constant
/// `false` rules the block out.
pub fn may_match(folded: Option<&Scalar>) -> (r: bool)
    ensures
        r == !(folded matches Some(c) && *c == Scalar::Boolean(false)),
{
    match folded {
        Some(Scalar::Boolean(false)) => false,
        _ => true,
    }
}

} // verus!
