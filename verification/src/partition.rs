//! The partitions of a scan, and how they are shuffled over executors.
use std::collections::hash_map::DefaultHasher;
use std::hash::Hash;
use std::hash::Hasher;
use std::sync::Arc;

use vstd::arithmetic::div_mod::lemma_fundamental_div_mod;
use vstd::prelude::*;
use vstd::std_specs::hash::DefaultHasherAdditionalSpecFns;

use crate::str_map::{last_index, lemma_last_index_take, string_views, StrMap};

verus! {

/// What the engine needs to know of one partition of a scan.
pub trait PartInfo {
    /// The hash of the partition, as `hash` computes it.
    spec fn spec_hash(&self) -> u64;

    /// Used for partition distributed.
    fn hash(&self) -> (h: u64)
        ensures
            h == self.spec_hash(),
    ;

    /// Whether `info` describes the same partition, as `equals` computes it.
    spec fn spec_equals(&self, info: &Self) -> bool;

    /// Whether `info` describes the same partition.
    fn equals(&self, info: &Self) -> (r: bool)
        ensures
            r == self.spec_equals(info),
    ;
}

/// A shared handle to a partition.
pub type PartInfoPtr<P> = Arc<P>;

/// For cache affinity, we consider some strategies when reshuffle partitions.
/// For example:
/// Under PartitionsShuffleKind::Mod, the same partition is always routed to the same executor.
#[derive(Debug, Clone, Copy, PartialEq, Eq, Structural)]
pub enum PartitionsShuffleKind {
    /// Bind the Partition by chunk range.
    Range,
    /// Bind the Partition always to a same executor.
    Mod,
}

/// The partitions of a scan, with the way they are to be shuffled.
#[derive(Debug, Clone)]
pub struct Partitions<P> {
    pub kind: PartitionsShuffleKind,
    pub partitions: Vec<PartInfoPtr<P>>,
}

/// Under `Range`, the chunk of executor `i` of `n`: each executor gets
/// `len / n` consecutive partitions, and the last one also gets the rest.
pub open spec fn none_chunk<T>(parts: Seq<T>, n: nat, i: int) -> Seq<T> {
    let per = parts.len() / n;
    if i == n - 1 {
        parts.subrange(per * i, parts.len() as int)
    } else {
        parts.subrange(per * i, per * (i + 1))
    }
}

/// Under `Mod`, the slot of a partition among `n`: its hash modulo `n`.
pub open spec fn part_slot<P: PartInfo>(part: PartInfoPtr<P>, n: nat) -> int {
    ((*part).spec_hash() as usize) as int % (n as int)
}

/// Whether a partition falls into slot `b` of `n`.
pub open spec fn in_slot<P: PartInfo>(n: nat, b: int) -> spec_fn(PartInfoPtr<P>) -> bool {
    |p: PartInfoPtr<P>| part_slot(p, n) == b
}

/// Under `Mod`, the partitions of slot `b` of `n`, in their order.
pub open spec fn mod_bucket<P: PartInfo>(parts: Seq<PartInfoPtr<P>>, n: nat, b: int) -> Seq<
    PartInfoPtr<P>,
> {
    parts.filter(in_slot(n, b))
}

/// What hashing a string into a `DefaultHasher` that has seen `prior` leaves it
/// having seen.
pub uninterp spec fn str_hash_written(prior: Seq<Seq<u8>>, s: Seq<char>) -> Seq<Seq<u8>>;

/// The hash of an executor's name by a fresh `DefaultHasher`.
pub open spec fn executor_hash(name: Seq<char>) -> u64 {
    DefaultHasher::spec_finish(str_hash_written(Seq::empty(), name))
}

/// Under `Mod`, the executor (by index) that the slot of executor `name` is bound to.
pub open spec fn executor_slot(name: Seq<char>, n: nat) -> int {
    (executor_hash(name) as usize) as int % (n as int)
}

/// Under `Mod`, the name under which slot `i` is put, for each `i` in order.
pub open spec fn mod_keys(names: Seq<Seq<char>>) -> Seq<Seq<char>> {
    Seq::new(names.len(), |i: int| names[executor_slot(names[i], names.len())])
}

/// Under `Mod`, the partitions under the name `k` once slots `0..m` are placed:
/// the slots put under `k`, one after the other in slot order.
pub open spec fn mod_entry<P: PartInfo>(
    parts: Seq<PartInfoPtr<P>>,
    keys: Seq<Seq<char>>,
    n: nat,
    k: Seq<char>,
    m: nat,
) -> Seq<PartInfoPtr<P>>
    decreases m,
{
    if m == 0 {
        Seq::empty()
    } else {
        mod_entry(parts, keys, n, k, (m - 1) as nat) + if keys[m - 1] == k {
            mod_bucket(parts, n, m - 1)
        } else {
            Seq::empty()
        }
    }
}

/// The partitions that a reshuffle puts under the executor name `k`, if any.
pub open spec fn reshuffled<P: PartInfo>(
    kind: PartitionsShuffleKind,
    parts: Seq<PartInfoPtr<P>>,
    names: Seq<Seq<char>>,
    k: Seq<char>,
) -> Option<Seq<PartInfoPtr<P>>> {
    match kind {
        PartitionsShuffleKind::Range => if last_index(names, k) >= 0 {
            Some(none_chunk(parts, names.len(), last_index(names, k)))
        } else {
            None
        },
        PartitionsShuffleKind::Mod => if last_index(mod_keys(names), k) >= 0 {
            Some(mod_entry(parts, mod_keys(names), names.len(), k, names.len()))
        } else {
            None
        },
    }
}

/// Calls `<Arc<P> as Clone>::clone`.
///
/// The clone points to the same value, so it equals the handle it was made from.
#[verifier::external_body]
fn clone_part<P>(part: &PartInfoPtr<P>) -> (r: PartInfoPtr<P>)
    ensures
        r == *part,
{
    Arc::clone(part)
}

/// Calls `<String as Hash>::hash` with `state`.
///
/// What it writes into the hasher is named, not stated: `str_hash_written`
/// of what the hasher had seen and of the string.
#[verifier::external_body]
fn hash_string(s: &String, state: &mut DefaultHasher)
    ensures
        final(state)@ == str_hash_written(old(state)@, s@),
{
    s.hash(state);
}

/// Appends `src[begin..end]` to `dst`.
fn append_parts<P>(src: &Vec<PartInfoPtr<P>>, begin: usize, end: usize, dst: &mut Vec<PartInfoPtr<P>>)
    requires
        begin <= end <= src@.len(),
    ensures
        final(dst)@ == old(dst)@ + src@.subrange(begin as int, end as int),
{
    let mut j = begin;
    while j < end
        invariant
            begin <= j <= end <= src@.len(),
            dst@ == old(dst)@ + src@.subrange(begin as int, j as int),
        decreases end - j,
    {
        let p = clone_part(&src[j]);
        dst.push(p);
        proof {
            assert(src@.subrange(begin as int, j + 1) =~= src@.subrange(begin as int, j as int).push(
                src@[j as int],
            ));
        }
        j = j + 1;
    }
}

impl<P> Partitions<P> {
    /// Partitions of the given kind.
    pub fn create(kind: PartitionsShuffleKind, partitions: Vec<PartInfoPtr<P>>) -> (r: Self)
        ensures
            r.kind == kind,
            r.partitions == partitions,
    {
        Partitions { kind, partitions }
    }

    /// The number of partitions.
    pub fn len(&self) -> (r: usize)
        ensures
            r == self.partitions@.len(),
    {
        self.partitions.len()
    }

    /// Whether there is no partition.
    pub fn is_empty(&self) -> (r: bool)
        ensures
            r == (self.partitions@.len() == 0),
    {
        self.partitions.len() == 0
    }
}

impl<P: PartInfo> Partitions<P> {
    /// Distributes the partitions over `executors`, by executor name.
    ///
    /// Under `Range`, executor `i` of `n` gets `len / n` consecutive partitions
    /// from `i * (len / n)` on, and the last executor also gets the rest; where
    /// a name is used twice, its later chunk replaces the earlier one.
    /// Under `Mod`, slot `i` gets the partitions whose hash modulo `n` is `i`,
    /// and is put under the executor whose index is the hash of the name of
    /// executor `i` modulo `n`. Slots put under the same executor are joined in
    /// slot order, so every partition is routed to exactly one executor.
    pub fn reshuffle(&self, executors: Vec<String>) -> (r: StrMap<Partitions<P>>)
        requires
            executors@.len() > 0 || (self.kind == PartitionsShuffleKind::Mod
                && self.partitions@.len() == 0),
        ensures
            forall|k: Seq<char>|
                r@.contains_key(k) <==> #[trigger] reshuffled(
                    self.kind,
                    self.partitions@,
                    string_views(executors@),
                    k,
                ) is Some,
            forall|k: Seq<char>|
                #[trigger] r@.contains_key(k) ==> r@[k].kind == PartitionsShuffleKind::Range
                    && r@[k].partitions@ == reshuffled(
                    self.kind,
                    self.partitions@,
                    string_views(executors@),
                    k,
                )->0,
            self.kind == PartitionsShuffleKind::Mod ==> forall|p: PartInfoPtr<P>|
                #[trigger] self.partitions@.contains(p) ==> {
                    let key = mod_keys(string_views(executors@))[part_slot(p, executors@.len())];
                    &&& string_views(executors@).contains(key)
                    &&& r@.contains_key(key)
                    &&& r@[key].partitions@.contains(p)
                    &&& r@[key].partitions@.to_multiset().count(p)
                        == self.partitions@.to_multiset().count(p)
                    &&& forall|k: Seq<char>|
                        #[trigger] r@.contains_key(k) && r@[k].partitions@.contains(p) ==> k == key
                },
    {
        let r = match self.kind {
            PartitionsShuffleKind::Range => self.reshuffle_by_range(&executors),
            PartitionsShuffleKind::Mod => self.reshuffle_by_hash(&executors),
        };
        proof {
            if self.kind == PartitionsShuffleKind::Mod {
                let names = string_views(executors@);
                assert(names.len() == executors@.len());
                assert forall|k: Seq<char>|
                    r@.contains_key(k) <==> #[trigger] reshuffled(
                        self.kind,
                        self.partitions@,
                        names,
                        k,
                    ) is Some by {}
                assert forall|k: Seq<char>| #[trigger]
                    r@.contains_key(k) implies r@[k].partitions@ == reshuffled(
                        self.kind,
                        self.partitions@,
                        names,
                        k,
                    )->0 by {}
                assert forall|p: PartInfoPtr<P>| #[trigger] self.partitions@.contains(p) implies {
                    let key = mod_keys(names)[part_slot(p, executors@.len())];
                    &&& names.contains(key)
                    &&& r@.contains_key(key)
                    &&& r@[key].partitions@.contains(p)
                    &&& r@[key].partitions@.to_multiset().count(p)
                        == self.partitions@.to_multiset().count(p)
                    &&& forall|k: Seq<char>|
                        #[trigger] r@.contains_key(k) && r@[k].partitions@.contains(p) ==> k == key
                } by {
                    lemma_mod_routes_every_part(self.partitions@, names, p);
                    let key = mod_keys(names)[part_slot(p, executors@.len())];
                    assert(reshuffled(self.kind, self.partitions@, names, key) is Some);
                    assert forall|k: Seq<char>|
                        #[trigger] r@.contains_key(k) && r@[k].partitions@.contains(p) implies k
                        == key by {
                        assert(reshuffled(self.kind, self.partitions@, names, k) is Some);
                    }
                }
            }
        }
        r
    }

    fn reshuffle_by_range(&self, executors: &Vec<String>) -> (r: StrMap<Partitions<P>>)
        requires
            executors@.len() > 0,
        ensures
            forall|k: Seq<char>|
                r@.contains_key(k) <==> #[trigger] last_index(string_views(executors@), k) >= 0,
            forall|k: Seq<char>|
                #[trigger] r@.contains_key(k) ==> r@[k].kind == PartitionsShuffleKind::Range
                    && r@[k].partitions@ == none_chunk(
                    self.partitions@,
                    executors@.len(),
                    last_index(string_views(executors@), k),
                ),
    {
        let ghost names = string_views(executors@);
        let ghost parts = self.partitions@;
        let n = executors.len();
        let len = self.partitions.len();
        let per = len / n;
        proof {
            lemma_fundamental_div_mod(len as int, n as int);
            assert(per * n <= len) by (nonlinear_arith)
                requires
                    len == n * (len / n) + len % n,
                    per == len / n,
                    len % n >= 0,
            ;
        }
        let mut result: StrMap<Partitions<P>> = StrMap::new();
        let mut idx: usize = 0;
        while idx < n
            invariant
                n == executors@.len(),
                names == string_views(executors@),
                parts == self.partitions@,
                len == parts.len(),
                per == len / n,
                per * n <= len,
                idx <= n,
                forall|k: Seq<char>|
                    result@.contains_key(k) <==> #[trigger] last_index(names.take(idx as int), k)
                        >= 0,
                forall|k: Seq<char>|
                    #[trigger] result@.contains_key(k) ==> result@[k].kind
                        == PartitionsShuffleKind::Range && result@[k].partitions@ == none_chunk(
                        parts,
                        n as nat,
                        last_index(names.take(idx as int), k),
                    ),
            decreases n - idx,
        {
            proof {
                let (i, ni, pi) = (idx as int, n as int, per as int);
                assert(0 <= pi * i && pi * i <= pi * (i + 1) && pi * (i + 1) <= pi * ni && pi * (i
                    + 1) == pi * i + pi) by (nonlinear_arith)
                    requires
                        0 <= i < ni,
                        pi >= 0,
                ;
            }
            let begin = per * idx;
            let end = per * (idx + 1);
            let mut chunk: Vec<PartInfoPtr<P>> = Vec::new();
            append_parts(&self.partitions, begin, end, &mut chunk);
            if idx == n - 1 {
                let rest = per * n;
                append_parts(&self.partitions, rest, len, &mut chunk);
                proof {
                    assert(parts.subrange(begin as int, end as int) + parts.subrange(
                        rest as int,
                        len as int,
                    ) =~= parts.subrange(begin as int, len as int));
                }
            }
            let ghost chunk_view = chunk@;
            let name = executors[idx].clone();
            result.insert(name, Partitions::create(PartitionsShuffleKind::Range, chunk));
            proof {
                lemma_last_index_take(names, idx as int);
                assert(chunk_view == none_chunk(parts, n as nat, idx as int));
            }
            idx = idx + 1;
        }
        proof {
            assert(names.take(n as int) =~= names);
        }
        result
    }

    fn reshuffle_by_hash(&self, executors: &Vec<String>) -> (r: StrMap<Partitions<P>>)
        requires
            executors@.len() > 0 || self.partitions@.len() == 0,
        ensures
            forall|k: Seq<char>|
                r@.contains_key(k) <==> #[trigger] last_index(
                    mod_keys(string_views(executors@)),
                    k,
                ) >= 0,
            forall|k: Seq<char>|
                #[trigger] r@.contains_key(k) ==> r@[k].kind == PartitionsShuffleKind::Range
                    && r@[k].partitions@ == mod_entry(
                    self.partitions@,
                    mod_keys(string_views(executors@)),
                    executors@.len(),
                    k,
                    executors@.len(),
                ),
    {
        let ghost names = string_views(executors@);
        let ghost keys = mod_keys(names);
        let ghost parts = self.partitions@;
        let n = executors.len();
        let len = self.partitions.len();
        let mut slices: Vec<Vec<PartInfoPtr<P>>> = Vec::new();
        let mut i: usize = 0;
        while i < n
            invariant
                i <= n,
                slices@.len() == i,
                forall|b: int| 0 <= b < i ==> (#[trigger] slices@[b])@ == Seq::<PartInfoPtr<P>>::empty(),
            decreases n - i,
        {
            slices.push(Vec::new());
            i = i + 1;
        }
        proof {
            assert forall|b: int| 0 <= b < n implies (#[trigger] slices@[b])@ == mod_bucket(
                parts.take(0),
                n as nat,
                b,
            ) by {
                reveal(Seq::filter);
                assert(parts.take(0).len() == 0);
            }
        }
        let mut j: usize = 0;
        while j < len
            invariant
                n == executors@.len(),
                parts == self.partitions@,
                len == parts.len(),
                n > 0 || len == 0,
                j <= len,
                slices@.len() == n,
                forall|b: int|
                    0 <= b < n ==> (#[trigger] slices@[b])@ == mod_bucket(parts.take(j as int), n as nat, b),
            decreases len - j,
        {
            let h = self.partitions[j].hash();
            let slot = (h as usize) % n;
            let part = clone_part(&self.partitions[j]);
            let ghost before = slices@;
            slices[slot].push(part);
            proof {
                let x = parts[j as int];
                assert(parts.take(j + 1) =~= parts.take(j as int).push(x));
                assert(part_slot(x, n as nat) == slot as int);
                assert forall|b: int| 0 <= b < n implies (#[trigger] slices@[b])@ == mod_bucket(
                    parts.take(j + 1),
                    n as nat,
                    b,
                ) by {
                    parts.take(j as int).lemma_filter_push(x, in_slot(n as nat, b));
                    if b == slot as int {
                        assert(slices@[b]@ == before[b]@.push(x));
                    } else {
                        assert(slices@[b] == before[b]);
                    }
                }
            }
            j = j + 1;
        }
        proof {
            assert(parts.take(len as int) =~= parts);
        }
        let mut result: StrMap<Partitions<P>> = StrMap::new();
        let mut i: usize = 0;
        while i < n
            invariant
                n == executors@.len(),
                names == string_views(executors@),
                keys == mod_keys(names),
                parts == self.partitions@,
                i <= n,
                slices@.len() == n,
                forall|b: int| i <= b < n ==> (#[trigger] slices@[b])@ == mod_bucket(parts, n as nat, b),
                forall|k: Seq<char>|
                    result@.contains_key(k) <==> #[trigger] last_index(keys.take(i as int), k) >= 0,
                forall|k: Seq<char>|
                    #[trigger] result@.contains_key(k) ==> result@[k].kind
                        == PartitionsShuffleKind::Range && result@[k].partitions@ == mod_entry(
                        parts,
                        keys,
                        n as nat,
                        k,
                        i as nat,
                    ),
            decreases n - i,
        {
            let mut hasher = DefaultHasher::new();
            hash_string(&executors[i], &mut hasher);
            let executor_idx = (hasher.finish() as usize) % n;
            let mut bucket: Vec<PartInfoPtr<P>> = Vec::new();
            let ghost before = slices@;
            std::mem::swap(&mut slices[i], &mut bucket);
            let ghost bucket_view = bucket@;
            proof {
                assert(bucket_view == before[i as int]@);
                assert forall|b: int| i < b < n implies (#[trigger] slices@[b])@ == mod_bucket(
                    parts,
                    n as nat,
                    b,
                ) by {
                    assert(slices@[b] == before[b]);
                }
            }
            let name = executors[executor_idx].clone();
            proof {
                assert(name@ == keys[i as int]);
                lemma_last_index_take(keys, i as int);
                if !result@.contains_key(name@) {
                    lemma_mod_entry_absent(parts, keys, n as nat, name@, i as nat);
                }
            }
            let joined = match result.get(&name) {
                Some(existing) => {
                    let mut joined: Vec<PartInfoPtr<P>> = Vec::new();
                    append_parts(&existing.partitions, 0, existing.partitions.len(), &mut joined);
                    append_parts(&bucket, 0, bucket.len(), &mut joined);
                    joined
                },
                None => bucket,
            };
            proof {
                assert(joined@ =~= mod_entry(parts, keys, n as nat, name@, (i + 1) as nat));
                assert forall|k: Seq<char>| k != name@ implies mod_entry(
                    parts,
                    keys,
                    n as nat,
                    k,
                    (i + 1) as nat,
                ) =~= #[trigger] mod_entry(parts, keys, n as nat, k, i as nat) by {}
            }
            result.insert(name, Partitions::create(PartitionsShuffleKind::Range, joined));
            i = i + 1;
        }
        proof {
            assert(keys.take(n as int) =~= keys);
        }
        result
    }
}

proof fn lemma_mod_entry_absent<P: PartInfo>(
    parts: Seq<PartInfoPtr<P>>,
    keys: Seq<Seq<char>>,
    n: nat,
    k: Seq<char>,
    m: nat,
)
    requires
        m <= keys.len(),
        last_index(keys.take(m as int), k) < 0,
    ensures
        mod_entry(parts, keys, n, k, m) == Seq::<PartInfoPtr<P>>::empty(),
    decreases m,
{
    if m > 0 {
        let i = m - 1;
        lemma_last_index_take(keys, i);
        assert(keys.take(i + 1) == keys.take(m as int));
        lemma_mod_entry_absent(parts, keys, n, k, (m - 1) as nat);
        assert(mod_entry(parts, keys, n, k, m) =~= Seq::<PartInfoPtr<P>>::empty());
    }
}

/// Two lists of partitions are equal when they have the same length and each
/// partition `equals` the one at the same position in the other list.
pub open spec fn parts_equal<P: PartInfo>(a: Seq<PartInfoPtr<P>>, b: Seq<PartInfoPtr<P>>) -> bool {
    &&& a.len() == b.len()
    &&& forall|i: int| 0 <= i < a.len() ==> (*a[i]).spec_equals(&*b[i])
}

/// Partitions are equal when they have the same kind and their partitions are
/// pairwise equal by `PartInfo::equals`.
impl<P: PartInfo> PartialEq for Partitions<P> {
    fn eq(&self, other: &Self) -> (r: bool) {
        if self.kind != other.kind {
            return false;
        }
        let n = self.partitions.len();
        if n != other.partitions.len() {
            return false;
        }
        let mut i: usize = 0;
        while i < n
            invariant
                n == self.partitions@.len(),
                n == other.partitions@.len(),
                i <= n,
                forall|j: int|
                    0 <= j < i ==> (*self.partitions@[j]).spec_equals(&*other.partitions@[j]),
            decreases n - i,
        {
            if !self.partitions[i].equals(&other.partitions[i]) {
                return false;
            }
            i = i + 1;
        }
        true
    }
}

impl<P: PartInfo> vstd::std_specs::cmp::PartialEqSpecImpl for Partitions<P> {
    open spec fn obeys_eq_spec() -> bool {
        true
    }

    open spec fn eq_spec(&self, other: &Self) -> bool {
        self.kind == other.kind && parts_equal(self.partitions@, other.partitions@)
    }
}

/// Two partitions compare equal exactly when they have the same kind, as many
/// partitions, and every partition `equals` the one at the same position.
pub proof fn lemma_partitions_eq<P: PartInfo>(a: Partitions<P>, b: Partitions<P>)
    ensures
        vstd::std_specs::cmp::PartialEqSpec::eq_spec(&a, &b) <==> (a.kind == b.kind && a.partitions@.len() == b.partitions@.len()
            && forall|i: int|
            0 <= i < a.partitions@.len() ==> (*a.partitions@[i]).spec_equals(&*b.partitions@[i])),
{
}

impl<P> Default for Partitions<P> {
    fn default() -> (r: Self)
        ensures
            r.kind == PartitionsShuffleKind::Range,
            r.partitions@.len() == 0,
    {
        Partitions { kind: PartitionsShuffleKind::Range, partitions: Vec::new() }
    }
}


/// Under `Range`, the chunks of the executors, in executor order.
pub open spec fn range_chunks<T>(parts: Seq<T>, n: nat) -> Seq<Seq<T>> {
    Seq::new(n, |i: int| none_chunk(parts, n, i))
}

/// Under `Mod`, the partitions of each slot, in slot order.
pub open spec fn mod_buckets<P: PartInfo>(parts: Seq<PartInfoPtr<P>>, n: nat) -> Seq<
    Seq<PartInfoPtr<P>>,
> {
    Seq::new(n, |b: int| mod_bucket(parts, n, b))
}

proof fn lemma_range_chunks_suffix<T>(parts: Seq<T>, n: nat, k: int)
    requires
        n > 0,
        0 <= k < n,
    ensures
        range_chunks(parts, n).skip(k).flatten() == parts.subrange(
            (parts.len() / n) * k,
            parts.len() as int,
        ),
    decreases n - k,
{
    let per = parts.len() / n;
    let len = parts.len() as int;
    let ni = n as int;
    let c = range_chunks(parts, n);
    lemma_fundamental_div_mod(len, ni);
    assert(per * ni <= len) by (nonlinear_arith)
        requires
            len == ni * (len / ni) + len % ni,
            per == len / ni,
            len % ni >= 0,
    ;
    assert(0 <= per * k && per * k <= per * (k + 1) && per * (k + 1) <= per * ni && per * (k + 1)
        == per * k + per) by (nonlinear_arith)
        requires
            0 <= k < ni,
            per >= 0,
    ;
    assert(c[k] == none_chunk(parts, n, k));
    assert(c.skip(k).first() == c[k]);
    assert(c.skip(k).drop_first() =~= c.skip(k + 1));
    if k == n - 1 {
        assert(c.skip(k + 1) =~= Seq::<Seq<T>>::empty());
        assert(c.skip(k).flatten() == c[k] + c.skip(k + 1).flatten());
        assert(c[k] + Seq::<T>::empty() =~= c[k]);
    } else {
        lemma_range_chunks_suffix(parts, n, k + 1);
        assert(c.skip(k).flatten() == c[k] + c.skip(k + 1).flatten());
        assert(parts.subrange(per * k, per * (k + 1)) + parts.subrange(per * (k + 1), len)
            =~= parts.subrange(per * k, len));
    }
}

/// Under `Range`, no partition is lost or repeated: the chunks of the
/// executors, put together in executor order, are the partitions.
pub proof fn lemma_range_chunks_cover<T>(parts: Seq<T>, n: nat)
    requires
        n > 0,
    ensures
        range_chunks(parts, n).flatten() == parts,
{
    lemma_range_chunks_suffix(parts, n, 0);
    assert(range_chunks(parts, n).skip(0) =~= range_chunks(parts, n));
    assert((parts.len() / n) * 0 == 0);
    assert(parts.subrange(0, parts.len() as int) =~= parts);
}

proof fn lemma_last_index_distinct(keys: Seq<Seq<char>>, i: int)
    requires
        0 <= i < keys.len(),
        forall|a: int, b: int| 0 <= a < b < keys.len() ==> keys[a] != keys[b],
    ensures
        last_index(keys, keys[i]) == i,
    decreases keys.len(),
{
    if i < keys.len() - 1 {
        assert(keys.last() != keys[i]);
        lemma_last_index_distinct(keys.drop_last(), i);
    }
}

/// Under `Range`, with executor names that are all different, executor `i`
/// gets its own chunk.
pub proof fn lemma_range_distinct_executors<P: PartInfo>(
    parts: Seq<PartInfoPtr<P>>,
    names: Seq<Seq<char>>,
    i: int,
)
    requires
        0 <= i < names.len(),
        forall|a: int, b: int| 0 <= a < b < names.len() ==> names[a] != names[b],
    ensures
        reshuffled(PartitionsShuffleKind::Range, parts, names, names[i]) == Some(
            none_chunk(parts, names.len(), i),
        ),
{
    lemma_last_index_distinct(names, i);
}

/// Under `Mod`, a partition is in the bucket of a slot exactly when it is one
/// of the partitions and its hash falls into that slot.
pub proof fn lemma_mod_bucket_contains<P: PartInfo>(
    parts: Seq<PartInfoPtr<P>>,
    n: nat,
    b: int,
    p: PartInfoPtr<P>,
)
    ensures
        mod_bucket(parts, n, b).contains(p) <==> parts.contains(p) && part_slot(p, n) == b,
{
    let f = in_slot::<P>(n, b);
    if mod_bucket(parts, n, b).contains(p) {
        parts.lemma_filter_contains_rev(f, p);
        let i = choose|i: int| 0 <= i < parts.filter(f).len() && parts.filter(f)[i] == p;
        parts.lemma_filter_pred(f, i);
    }
    if parts.contains(p) && part_slot(p, n) == b {
        let i = choose|i: int| 0 <= i < parts.len() && parts[i] == p;
        parts.lemma_filter_contains(f, i);
    }
}

/// Under `Range`, every executor but the last gets `len / n` partitions and
/// the last gets the rest; with `lemma_range_chunks_cover`, this fixes which
/// partitions each executor gets.
pub proof fn lemma_range_chunk_sizes<T>(parts: Seq<T>, n: nat, i: int)
    requires
        n > 0,
        0 <= i < n,
    ensures
        none_chunk(parts, n, i).len() == if i < n - 1 {
            (parts.len() / n) as int
        } else {
            parts.len() - (n - 1) * (parts.len() / n)
        },
{
    let per = (parts.len() / n) as int;
    let len = parts.len() as int;
    let ni = n as int;
    lemma_fundamental_div_mod(len, ni);
    assert(per * ni <= len) by (nonlinear_arith)
        requires
            len == ni * (len / ni) + len % ni,
            per == len / ni,
            len % ni >= 0,
    ;
    assert(0 <= per * i && per * i <= per * (i + 1) && per * (i + 1) <= per * ni && per * (i + 1)
        == per * i + per && (ni - 1) * per == per * (ni - 1) && per * ni == per * (ni - 1) + per)
        by (nonlinear_arith)
        requires
            0 <= i < ni,
            per >= 0,
    ;
}

/// Under `Mod`, slot `i` is put under the executor whose index is the hash of
/// the name of executor `i` modulo `n`, where that hash fits in a `usize`.
pub proof fn lemma_mod_key_of_slot(names: Seq<Seq<char>>, i: int)
    requires
        0 <= i < names.len(),
        executor_hash(names[i]) <= usize::MAX,
    ensures
        mod_keys(names)[i] == names[executor_hash(names[i]) as int % (names.len() as int)],
{
}

/// Under `Mod`, a partition's slot among `n` is its hash modulo `n`, taken on
/// the whole hash wherever the hash fits in a `usize`; two such partitions
/// share a slot exactly when their hashes are congruent modulo `n`.
pub proof fn lemma_part_slot_is_hash_mod<P: PartInfo>(
    p: PartInfoPtr<P>,
    q: PartInfoPtr<P>,
    n: nat,
)
    requires
        n > 0,
    ensures
        0 <= part_slot(p, n) < n,
        (*p).spec_hash() <= usize::MAX ==> part_slot(p, n) == (*p).spec_hash() as int % (n as int),
        (*p).spec_hash() <= usize::MAX && (*q).spec_hash() <= usize::MAX ==> (part_slot(p, n)
            == part_slot(q, n) <==> (*p).spec_hash() as int % (n as int) == (*q).spec_hash() as int
            % (n as int)),
{
}

/// Under `PartitionsShuffleKind::Mod`, the same partition is always routed to
/// the same executor: for the same executors, where a partition is in two lists
/// of partitions, a reshuffle of either list puts it under the same names.
pub proof fn lemma_mod_same_executor<P: PartInfo>(
    parts1: Seq<PartInfoPtr<P>>,
    parts2: Seq<PartInfoPtr<P>>,
    names: Seq<Seq<char>>,
    p: PartInfoPtr<P>,
    k: Seq<char>,
)
    requires
        parts1.contains(p),
        parts2.contains(p),
    ensures
        (reshuffled(PartitionsShuffleKind::Mod, parts1, names, k) matches Some(v1) && v1.contains(
            p,
        )) <==> (reshuffled(PartitionsShuffleKind::Mod, parts2, names, k) matches Some(v2)
            && v2.contains(p)),
{
    let n = names.len();
    if n > 0 {
        lemma_mod_entry_contains(parts1, mod_keys(names), n, k, n, p);
        lemma_mod_entry_contains(parts2, mod_keys(names), n, k, n, p);
    }
}

/// Under `Mod`, the entry of a name holds a partition exactly when the
/// partition's slot is among the slots placed so far and is put under that name.
pub proof fn lemma_mod_entry_contains<P: PartInfo>(
    parts: Seq<PartInfoPtr<P>>,
    keys: Seq<Seq<char>>,
    n: nat,
    k: Seq<char>,
    m: nat,
    p: PartInfoPtr<P>,
)
    requires
        n > 0,
        m <= keys.len(),
    ensures
        mod_entry(parts, keys, n, k, m).contains(p) <==> parts.contains(p) && part_slot(p, n) < m
            && keys[part_slot(p, n)] == k,
    decreases m,
{
    broadcast use vstd::seq_lib::group_seq_properties;

    if m > 0 {
        lemma_mod_entry_contains(parts, keys, n, k, (m - 1) as nat, p);
        lemma_mod_bucket_contains(parts, n, m - 1, p);
    }
}

proof fn lemma_mod_bucket_count<P: PartInfo>(
    parts: Seq<PartInfoPtr<P>>,
    n: nat,
    b: int,
    p: PartInfoPtr<P>,
)
    ensures
        mod_bucket(parts, n, b).to_multiset().count(p) == if part_slot(p, n) == b {
            parts.to_multiset().count(p)
        } else {
            0
        },
    decreases parts.len(),
{
    broadcast use
        vstd::seq_lib::to_multiset_build,
        vstd::seq_lib::to_multiset_contains,
        vstd::multiset::group_multiset_axioms,
    ;

    if parts.len() == 0 {
        reveal(Seq::filter);
        assert(mod_bucket(parts, n, b) =~= parts);
        assert(!parts.contains(p));
    } else {
        let rest = parts.drop_last();
        let x = parts.last();
        assert(rest.push(x) =~= parts);
        lemma_mod_bucket_count(rest, n, b, p);
        rest.lemma_filter_push(x, in_slot(n, b));
        assert(parts.to_multiset() =~= rest.to_multiset().insert(x));
        if part_slot(x, n) == b {
            assert(mod_bucket(parts, n, b) == mod_bucket(rest, n, b).push(x));
            assert(mod_bucket(parts, n, b).to_multiset() =~= mod_bucket(rest, n, b).to_multiset().insert(
                x,
            ));
        } else {
            assert(mod_bucket(parts, n, b) == mod_bucket(rest, n, b));
        }
    }
}

proof fn lemma_mod_entry_count<P: PartInfo>(
    parts: Seq<PartInfoPtr<P>>,
    keys: Seq<Seq<char>>,
    n: nat,
    k: Seq<char>,
    m: nat,
    p: PartInfoPtr<P>,
)
    requires
        n > 0,
        m <= keys.len(),
    ensures
        mod_entry(parts, keys, n, k, m).to_multiset().count(p) == if part_slot(p, n) < m && keys[part_slot(
            p,
            n,
        )] == k {
            parts.to_multiset().count(p)
        } else {
            0
        },
    decreases m,
{
    broadcast use
        vstd::seq_lib::lemma_multiset_commutative,
        vstd::seq_lib::to_multiset_contains,
        vstd::multiset::group_multiset_axioms,
    ;

    if m == 0 {
        assert(!mod_entry(parts, keys, n, k, m).contains(p));
    } else {
        lemma_mod_entry_count(parts, keys, n, k, (m - 1) as nat, p);
        lemma_mod_bucket_count(parts, n, m - 1, p);
        assert(!Seq::<PartInfoPtr<P>>::empty().contains(p));
    }
}

/// Under `PartitionsShuffleKind::Mod`, every partition is routed to exactly one
/// executor: it is in the entry of the executor that its slot is put under,
/// as often as in the list of partitions, and in the entry of no other name.
pub proof fn lemma_mod_routes_every_part<P: PartInfo>(
    parts: Seq<PartInfoPtr<P>>,
    names: Seq<Seq<char>>,
    p: PartInfoPtr<P>,
)
    requires
        names.len() > 0,
        parts.contains(p),
    ensures
        names.contains(mod_keys(names)[part_slot(p, names.len())]),
        reshuffled(PartitionsShuffleKind::Mod, parts, names, mod_keys(names)[part_slot(p, names.len())])
            matches Some(v) && v.contains(p) && v.to_multiset().count(p) == parts.to_multiset().count(p),
        forall|k: Seq<char>|
            k != mod_keys(names)[part_slot(p, names.len())] ==> !(#[trigger] reshuffled(
                PartitionsShuffleKind::Mod,
                parts,
                names,
                k,
            ) matches Some(v) && v.contains(p)),
{
    let n = names.len();
    let keys = mod_keys(names);
    let s = part_slot(p, n);
    let k = keys[s];
    let j = executor_slot(names[s], n);
    assert(names[j] == k);
    lemma_last_index_at_least(keys, s);
    lemma_mod_entry_contains(parts, keys, n, k, n, p);
    lemma_mod_entry_count(parts, keys, n, k, n, p);
    assert forall|k2: Seq<char>|
        k2 != k implies !(#[trigger] reshuffled(
            PartitionsShuffleKind::Mod,
            parts,
            names,
            k2,
        ) matches Some(v) && v.contains(p)) by {
        lemma_mod_entry_contains(parts, keys, n, k2, n, p);
    }
}

proof fn lemma_last_index_at_least(keys: Seq<Seq<char>>, i: int)
    requires
        0 <= i < keys.len(),
    ensures
        last_index(keys, keys[i]) >= i,
    decreases keys.len(),
{
    if i < keys.len() - 1 {
        lemma_last_index_at_least(keys.drop_last(), i);
    }
}

proof fn lemma_flatten_push_at<T>(ss: Seq<Seq<T>>, i: int, x: T)
    requires
        0 <= i < ss.len(),
    ensures
        ss.update(i, ss[i].push(x)).flatten().to_multiset() == ss.flatten().to_multiset().insert(x),
    decreases ss.len(),
{
    broadcast use vstd::seq_lib::lemma_multiset_commutative, vstd::seq_lib::to_multiset_build;

    let t = ss.update(i, ss[i].push(x));
    assert(t.first() == t[0]);
    assert(ss.first() == ss[0]);
    if i == 0 {
        assert(t.drop_first() =~= ss.drop_first());
        assert(t.flatten() == ss[0].push(x) + ss.drop_first().flatten());
        assert(ss.flatten() == ss[0] + ss.drop_first().flatten());
        assert((ss[0] + ss.drop_first().flatten()).to_multiset() =~= ss[0].to_multiset().add(
            ss.drop_first().flatten().to_multiset(),
        ));
        assert((ss[0].push(x) + ss.drop_first().flatten()).to_multiset() =~= ss[0].push(
            x,
        ).to_multiset().add(ss.drop_first().flatten().to_multiset()));
    } else {
        let d = ss.drop_first();
        lemma_flatten_push_at(d, i - 1, x);
        assert(t.drop_first() =~= d.update(i - 1, d[i - 1].push(x)));
        assert(t.flatten() == ss[0] + t.drop_first().flatten());
        assert(ss.flatten() == ss[0] + d.flatten());
        assert((ss[0] + t.drop_first().flatten()).to_multiset() =~= ss[0].to_multiset().add(
            t.drop_first().flatten().to_multiset(),
        ));
        assert((ss[0] + d.flatten()).to_multiset() =~= ss[0].to_multiset().add(
            d.flatten().to_multiset(),
        ));
    }
}

/// Under `Mod`, no partition is lost or repeated: the buckets of all slots,
/// put together, hold the partitions, each as often as the list does.
pub proof fn lemma_mod_buckets_cover<P: PartInfo>(parts: Seq<PartInfoPtr<P>>, n: nat)
    requires
        n > 0,
    ensures
        mod_buckets(parts, n).flatten().to_multiset() == parts.to_multiset(),
    decreases parts.len(),
{
    broadcast use vstd::seq_lib::to_multiset_build;

    if parts.len() == 0 {
        assert forall|b: int| 0 <= b < n implies mod_buckets(parts, n)[b] =~= Seq::<
            PartInfoPtr<P>,
        >::empty() by {
            reveal(Seq::filter);
        }
        lemma_flatten_empties(mod_buckets(parts, n));
        assert(mod_buckets(parts, n).flatten() =~= parts);
    } else {
        let rest = parts.drop_last();
        let x = parts.last();
        assert(rest.push(x) =~= parts);
        lemma_mod_buckets_cover(rest, n);
        let s = part_slot(x, n);
        assert(0 <= s < n);
        let before = mod_buckets(rest, n);
        assert forall|b: int| 0 <= b < n implies #[trigger] mod_buckets(parts, n)[b] == before.update(
            s,
            before[s].push(x),
        )[b] by {
            rest.lemma_filter_push(x, in_slot(n, b));
        }
        assert(mod_buckets(parts, n) =~= before.update(s, before[s].push(x)));
        lemma_flatten_push_at(before, s, x);
    }
}

proof fn lemma_flatten_empties<T>(ss: Seq<Seq<T>>)
    requires
        forall|i: int| 0 <= i < ss.len() ==> ss[i] == Seq::<T>::empty(),
    ensures
        ss.flatten() == Seq::<T>::empty(),
    decreases ss.len(),
{
    if ss.len() > 0 {
        lemma_flatten_empties(ss.drop_first());
        assert(ss.first() == ss[0]);
        assert(ss[0] + ss.drop_first().flatten() =~= Seq::<T>::empty());
    }
}

} // verus!
