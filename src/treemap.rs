use vstd::prelude::*;
use roaring::RoaringTreemap;

verus! {

#[verifier::external_type_specification]
#[verifier::external_body]
pub struct ExRoaringTreemap(RoaringTreemap);

/// The keys held by a roaring treemap.
pub uninterp spec fn treemap_contents(t: RoaringTreemap) -> Set<u64>;

/// The byte count that a roaring treemap reports for its serialized form; it depends on the
/// containers the treemap chose, not on its keys alone.
pub uninterp spec fn treemap_serialized_size(t: RoaringTreemap) -> nat;

/// The partition of a key: its high 32 bits.
pub open spec fn partition_of(k: u64) -> u32 {
    (k >> 32u64) as u32
}

/// The keys of `s` that fall in partition `p`.
pub open spec fn partition_keys(s: Set<u64>, p: u32) -> Set<u64> {
    s.filter(|k: u64| partition_of(k) == p)
}

/// The partitions that hold at least one key of `s`.
pub open spec fn partition_ids(s: Set<u64>) -> Set<u32> {
    s.map(|k: u64| partition_of(k))
}

/// The keys `k` with `lower <= k < upper`.
pub open spec fn key_range(lower: u64, upper: u64) -> Set<u64> {
    Set::new(|k: u64| lower <= k < upper)
}

/// `r` lists, in ascending partition order, each partition that holds a key of `s`, with the
/// number of keys it holds.
pub open spec fn partitions_listed(s: Set<u64>, r: Seq<(u32, u64)>) -> bool {
    &&& forall|i: int, j: int| 0 <= i < j < r.len() ==> r[i].0 < r[j].0
    &&& forall|i: int|
        0 <= i < r.len() ==> r[i].1 > 0 && r[i].1 as int == partition_keys(s, r[i].0).len()
    &&& forall|p: u32|
        partition_ids(s).contains(p) <==> exists|i: int| 0 <= i < r.len() && r[i].0 == p
}

/// Relies on RoaringTreemap::new: the treemap it builds holds no key.
#[verifier::external_body]
fn treemap_new() -> (r: RoaringTreemap)
    ensures
        treemap_contents(r) == Set::<u64>::empty(),
{
    RoaringTreemap::new()
}

/// Relies on RoaringTreemap::insert: adds the key, and returns whether it was absent.
#[verifier::external_body]
fn treemap_insert(t: &mut RoaringTreemap, value: u64) -> (r: bool)
    ensures
        treemap_contents(*final(t)) == treemap_contents(*old(t)).insert(value),
        r == !treemap_contents(*old(t)).contains(value),
{
    t.insert(value)
}

/// Relies on RoaringTreemap::insert_range: adds every key of `lower..upper` (none when
/// `upper <= lower`), and returns how many of them were absent.
#[verifier::external_body]
fn treemap_insert_range(t: &mut RoaringTreemap, lower: u64, upper: u64) -> (r: u64)
    ensures
        treemap_contents(*final(t)) == treemap_contents(*old(t)) + key_range(lower, upper),
        r as int == key_range(lower, upper).difference(treemap_contents(*old(t))).len(),
{
    t.insert_range(lower..upper)
}

/// Relies on RoaringTreemap::len: the number of keys, summed over the partitions in `u64`,
/// which overflows past `u64::MAX`.
#[verifier::external_body]
fn treemap_len(t: &RoaringTreemap) -> (r: u64)
    requires
        treemap_contents(*t).len() <= u64::MAX,
    ensures
        r as int == treemap_contents(*t).len(),
{
    t.len()
}

/// Relies on RoaringTreemap::is_disjoint: whether no key is in both treemaps.
#[verifier::external_body]
fn treemap_is_disjoint(a: &RoaringTreemap, b: &RoaringTreemap) -> (r: bool)
    ensures
        r == treemap_contents(*a).disjoint(treemap_contents(*b)),
{
    a.is_disjoint(b)
}

/// Relies on RoaringTreemap::union_len: both lengths added and the intersection length
/// subtracted, with wrapping arithmetic.
#[verifier::external_body]
fn treemap_union_len(a: &RoaringTreemap, b: &RoaringTreemap) -> (r: u64)
    requires
        treemap_contents(*a).len() <= u64::MAX,
        treemap_contents(*b).len() <= u64::MAX,
        (treemap_contents(*a) + treemap_contents(*b)).len() <= u64::MAX,
    ensures
        r as int == (treemap_contents(*a) + treemap_contents(*b)).len(),
{
    a.union_len(b)
}

/// Relies on RoaringTreemap::intersection_len: the number of keys in both treemaps.
#[verifier::external_body]
fn treemap_intersection_len(a: &RoaringTreemap, b: &RoaringTreemap) -> (r: u64)
    ensures
        r as int == treemap_contents(*a).intersect(treemap_contents(*b)).len(),
{
    a.intersection_len(b)
}

/// Relies on RoaringTreemap::difference_len: the length of `a` less the intersection length.
#[verifier::external_body]
fn treemap_difference_len(a: &RoaringTreemap, b: &RoaringTreemap) -> (r: u64)
    requires
        treemap_contents(*a).len() <= u64::MAX,
    ensures
        r as int == treemap_contents(*a).difference(treemap_contents(*b)).len(),
{
    a.difference_len(b)
}

/// Relies on RoaringTreemap::serialized_size: an eight-byte header plus, per stored partition
/// (every partition that holds a key is stored), a four-byte partition number and the bitmap's
/// own size.
#[verifier::external_body]
fn treemap_serialized_size_of(t: &RoaringTreemap) -> (r: usize)
    ensures
        r as int == treemap_serialized_size(*t),
        r >= 8 + 4 * partition_ids(treemap_contents(*t)).len(),
{
    t.serialized_size()
}

/// Relies on RoaringTreemap::bitmaps: one entry per stored partition, in ascending partition
/// order, with the number of keys that the partition's bitmap holds.
#[verifier::external_body]
fn treemap_partitions(t: &RoaringTreemap) -> (r: Vec<(u32, u64)>)
    ensures
        forall|i: int, j: int| 0 <= i < j < r.len() ==> r[i].0 < r[j].0,
        forall|i: int|
            0 <= i < r.len() ==> r[i].1 as int == partition_keys(treemap_contents(*t), r[i].0).len(),
        forall|k: u64|
            treemap_contents(*t).contains(k) ==> exists|i: int|
                0 <= i < r.len() && r[i].0 == partition_of(k),
{
    t.bitmaps().map(|(p, b)| (p, b.len())).collect()
}

/// A set of 64-bit particle keys, split by their high 32 bits into compressed partitions.
pub struct ParticleTreemap {
    bitmap: RoaringTreemap,
}

impl View for ParticleTreemap {
    type V = Set<u64>;

    closed spec fn view(&self) -> Set<u64> {
        treemap_contents(self.bitmap)
    }
}

impl ParticleTreemap {
    /// The set is finite.
    pub open spec fn wf(&self) -> bool {
        self@.finite()
    }

    /// The byte estimate that `serialized_size` reports.
    pub closed spec fn serialized_bytes(&self) -> nat {
        treemap_serialized_size(self.bitmap)
    }

    /// An empty set.
    pub fn new() -> (r: Self)
        ensures
            r.wf(),
            r@ == Set::<u64>::empty(),
    {
        ParticleTreemap { bitmap: treemap_new() }
    }

    /// Whether no key is in both sets.
    pub fn is_disjoint(&self, other: &Self) -> (r: bool)
        ensures
            r == self@.disjoint(other@),
    {
        treemap_is_disjoint(&self.bitmap, &other.bitmap)
    }

    /// Adds `value`; returns whether it was absent.
    pub fn insert(&mut self, value: u64) -> (r: bool)
        requires
            old(self).wf(),
        ensures
            final(self).wf(),
            final(self)@ == old(self)@.insert(value),
            r == !old(self)@.contains(value),
    {
        treemap_insert(&mut self.bitmap, value)
    }

    /// Adds every key `k` with `lower <= k < upper`; returns how many were absent. An empty
    /// range changes nothing and returns 0.
    pub fn insert_range(&mut self, lower: u64, upper: u64) -> (r: u64)
        requires
            old(self).wf(),
        ensures
            final(self).wf(),
            final(self)@ == old(self)@ + key_range(lower, upper),
            r as int == final(self)@.len() - old(self)@.len(),
            upper <= lower ==> r == 0 && final(self)@ == old(self)@,
    {
        let ghost before = self@;
        let r = treemap_insert_range(&mut self.bitmap, lower, upper);
        proof {
            lemma_key_range_finite(lower, upper);
            vstd::set_lib::lemma_set_difference_len(key_range(lower, upper), before);
            vstd::set_lib::lemma_set_difference_len(before, key_range(lower, upper));
            vstd::set_lib::lemma_set_intersect_union_lens(before, key_range(lower, upper));
            assert(key_range(lower, upper).intersect(before) =~= before.intersect(key_range(lower, upper)));
            if upper <= lower {
                assert(key_range(lower, upper) =~= Set::<u64>::empty());
                assert(self@ =~= before);
            }
        }
        r
    }
}

impl ParticleTreemap {
    /// Adds every key of `arr`; always returns true.
    pub fn from_array(&mut self, arr: &Vec<u64>) -> (r: bool)
        requires
            old(self).wf(),
        ensures
            final(self).wf(),
            final(self)@ == old(self)@ + arr@.to_set(),
            r,
    {
        let ghost before = self@;
        let mut i: usize = 0;
        while i < arr.len()
            invariant
                i <= arr.len(),
                self.wf(),
                self@ == before + arr@.take(i as int).to_set(),
            decreases arr.len() - i,
        {
            treemap_insert(&mut self.bitmap, arr[i]);
            proof {
                assert(arr@.take(i + 1) =~= arr@.take(i as int) + seq![arr@[i as int]]);
                Seq::lemma_to_set_insert_commutes(arr@.take(i as int), arr@[i as int]);
                assert(self@ =~= before + arr@.take(i + 1).to_set());
            }
            i = i + 1;
        }
        proof {
            assert(arr@.take(arr.len() as int) =~= arr@);
        }
        true
    }

    /// The number of keys.
    pub fn len(&self) -> (r: u64)
        requires
            self@.len() <= u64::MAX,
        ensures
            r as int == self@.len(),
    {
        treemap_len(&self.bitmap)
    }

    /// The number of keys in either set.
    pub fn union_len(&self, other: &Self) -> (r: u64)
        requires
            self.wf(),
            other.wf(),
            (self@ + other@).len() <= u64::MAX,
        ensures
            r as int == (self@ + other@).len(),
    {
        proof {
            vstd::set_lib::lemma_len_subset(self@, self@ + other@);
            vstd::set_lib::lemma_len_subset(other@, self@ + other@);
        }
        treemap_union_len(&self.bitmap, &other.bitmap)
    }

    /// The number of keys in both sets.
    pub fn intersection_len(&self, other: &Self) -> (r: u64)
        ensures
            r as int == self@.intersect(other@).len(),
    {
        treemap_intersection_len(&self.bitmap, &other.bitmap)
    }

    /// The number of keys of `self` that are not in `other`.
    pub fn difference_len(&self, other: &Self) -> (r: u64)
        requires
            self@.len() <= u64::MAX,
        ensures
            r as int == self@.difference(other@).len(),
    {
        treemap_difference_len(&self.bitmap, &other.bitmap)
    }

    /// An estimate of the bytes needed to persist the set: an eight-byte header plus at least
    /// four bytes for each non-empty partition.
    pub fn serialized_size(&self) -> (r: usize)
        ensures
            r as int == self.serialized_bytes(),
            r >= 8 + 4 * partition_ids(self@).len(),
    {
        treemap_serialized_size_of(&self.bitmap)
    }
}

impl ParticleTreemap {
    /// Each non-empty partition with the number of keys it holds, in ascending partition order.
    pub fn partition_info(&self) -> (r: Vec<(u32, u64)>)
        requires
            self.wf(),
        ensures
            partitions_listed(self@, r@),
    {
        let raw = treemap_partitions(&self.bitmap);
        let ghost s = self@;
        let mut out: Vec<(u32, u64)> = Vec::new();
        let mut i: usize = 0;
        while i < raw.len()
            invariant
                i <= raw.len(),
                forall|x: int, y: int| 0 <= x < y < raw.len() ==> raw[x].0 < raw[y].0,
                forall|x: int|
                    0 <= x < raw.len() ==> raw[x].1 as int == partition_keys(s, raw[x].0).len(),
                forall|a: int, b: int| 0 <= a < b < out.len() ==> out[a].0 < out[b].0,
                forall|a: int, j: int|
                    0 <= a < out.len() && i <= j < raw.len() ==> out[a].0 < raw[j].0,
                forall|a: int|
                    0 <= a < out.len() ==> out[a].1 > 0 && out[a].1 as int == partition_keys(
                        s,
                        out[a].0,
                    ).len(),
                forall|j: int|
                    #![trigger raw@[j]]
                    0 <= j < i && raw[j].1 > 0 ==> exists|a: int|
                        0 <= a < out.len() && #[trigger] out@[a].0 == raw@[j].0,
            decreases raw.len() - i,
        {
            let e = raw[i];
            if e.1 > 0 {
                let ghost old_out = out@;
                out.push(e);
                proof {
                    assert forall|j: int|
                        #![trigger raw@[j]]
                        0 <= j < i + 1 && raw[j].1 > 0 implies exists|a: int|
                            0 <= a < out.len() && #[trigger] out@[a].0 == raw@[j].0 by {
                        if j < i {
                            let a = choose|a: int|
                                0 <= a < old_out.len() && #[trigger] old_out[a].0 == raw@[j].0;
                            assert(out@[a] == old_out[a]);
                        } else {
                            assert(out@[old_out.len() as int] == raw@[j]);
                        }
                    }
                }
            }
            i = i + 1;
        }
        proof {
            assert forall|p: u32| partition_ids(s).contains(p) implies exists|a: int|
                0 <= a < out.len() && #[trigger] out@[a].0 == p by {
                let k = choose|k: u64| s.contains(k) && partition_of(k) == p;
                let j = choose|j: int| 0 <= j < raw.len() && raw[j].0 == partition_of(k);
                assert(partition_keys(s, p).contains(k));
                vstd::set_lib::lemma_set_empty_equivalency_len(partition_keys(s, p));
                assert(raw@[j].1 > 0);
            }
            assert forall|p: u32| (exists|a: int| 0 <= a < out.len() && #[trigger] out@[a].0 == p)
                implies partition_ids(s).contains(p) by {
                let a = choose|a: int| 0 <= a < out.len() && #[trigger] out@[a].0 == p;
                vstd::set_lib::lemma_set_empty_equivalency_len(partition_keys(s, p));
                let k = choose|k: u64| partition_keys(s, p).contains(k);
                assert(s.contains(k) && partition_of(k) == p);
            }
        }
        out
    }

    /// The number of non-empty partitions.
    pub fn num_partitions(&self) -> (r: usize)
        requires
            self.wf(),
        ensures
            r as int == partition_ids(self@).len(),
    {
        let info = self.partition_info();
        proof {
            let ids = info@.map_values(|e: (u32, u64)| e.0);
            assert(ids.no_duplicates()) by {
                assert forall|i: int, j: int| 0 <= i < ids.len() && 0 <= j < ids.len() && i != j
                    implies ids[i] != ids[j] by {
                    if i < j {
                        assert(info@[i].0 < info@[j].0);
                    } else {
                        assert(info@[j].0 < info@[i].0);
                    }
                }
            }
            ids.unique_seq_to_set();
            assert(ids.to_set() =~= partition_ids(self@)) by {
                assert forall|p: u32| ids.to_set().contains(p) <==> partition_ids(self@).contains(p) by {
                    if ids.to_set().contains(p) {
                        let i = choose|i: int| 0 <= i < ids.len() && ids[i] == p;
                        assert(info@[i].0 == p);
                    }
                    if partition_ids(self@).contains(p) {
                        let i = choose|i: int| 0 <= i < info@.len() && info@[i].0 == p;
                        assert(ids[i] == p);
                    }
                }
            }
        }
        info.len()
    }
}

/// Two sets with no key in common are disjoint, their intersection is empty, and their
/// union holds as many keys as the two together.
pub proof fn lemma_disjoint_counts(a: &ParticleTreemap, b: &ParticleTreemap)
    requires
        a.wf(),
        b.wf(),
        forall|k: u64| !(a@.contains(k) && b@.contains(k)),
    ensures
        a@.disjoint(b@),
        a@.intersect(b@).len() == 0,
        (a@ + b@).len() == a@.len() + b@.len(),
{
    assert(a@.intersect(b@) =~= Set::<u64>::empty());
    vstd::set_lib::lemma_set_disjoint_lens(a@, b@);
}

/// For any two sets: the union holds the keys of both less those counted twice, and the
/// difference and the intersection together make up the first set.
pub proof fn lemma_inclusion_exclusion(a: &ParticleTreemap, b: &ParticleTreemap)
    requires
        a.wf(),
        b.wf(),
    ensures
        (a@ + b@).len() == a@.len() + b@.len() - a@.intersect(b@).len(),
        a@.difference(b@).len() + a@.intersect(b@).len() == a@.len(),
{
    vstd::set_lib::lemma_set_intersect_union_lens(a@, b@);
    vstd::set_lib::lemma_set_difference_len(a@, b@);
}

/// Inserting a key twice is the same as inserting it once: the key is present after the first
/// insertion, so the second finds it, and the size grows by at most one.
pub proof fn lemma_insert_twice(s: &ParticleTreemap, k: u64)
    requires
        s.wf(),
    ensures
        s@.insert(k).contains(k),
        s@.insert(k).insert(k) == s@.insert(k),
        s@.insert(k).len() <= s@.len() + 1,
{
    assert(s@.insert(k).insert(k) =~= s@.insert(k));
}

proof fn lemma_key_range_finite(lower: u64, upper: u64)
    ensures
        key_range(lower, upper).finite(),
{
    if upper <= lower {
        assert(key_range(lower, upper) =~= Set::<u64>::empty());
    } else {
        let ints = vstd::set_lib::set_int_range(lower as int, upper as int);
        let f = |i: int| i as u64;
        assert(key_range(lower, upper) =~= ints.map(f)) by {
            assert forall|k: u64| key_range(lower, upper).contains(k) implies ints.map(
                f,
            ).contains(k) by {
                assert(ints.contains(k as int));
                assert(f(k as int) == k);
            }
        }
        vstd::set_lib::lemma_int_range(lower as int, upper as int);
        ints.lemma_map_finite(f);
    }
}

} // verus!
