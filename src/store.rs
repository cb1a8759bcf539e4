use vstd::prelude::*;

use crate::intern::{distinct, index_of, lemma_index_of, Interner};
use crate::record::{combine, empty_view, observe, Record, RecordView, MAX_COUNT};
use crate::temperature::{Temperature, MAX_TENTHS, MIN_TENTHS};

verus! {

/// The record of `k` in `m`, or the record of no observations.
pub open spec fn lookup(m: Map<Seq<u8>, RecordView>, k: Seq<u8>) -> RecordView {
    if m.contains_key(k) {
        m[k]
    } else {
        empty_view()
    }
}

/// `m` after one more observation `v` of key `k`.
pub open spec fn update_map(m: Map<Seq<u8>, RecordView>, k: Seq<u8>, v: int) -> Map<
    Seq<u8>,
    RecordView,
> {
    m.insert(k, observe(lookup(m, k), v))
}

/// Two stores taken together: a key in both gets its records combined, a key in
/// one of them keeps its record.
pub open spec fn merge_maps(a: Map<Seq<u8>, RecordView>, b: Map<Seq<u8>, RecordView>) -> Map<
    Seq<u8>,
    RecordView,
> {
    Map::new(
        |k: Seq<u8>| a.contains_key(k) || b.contains_key(k),
        |k: Seq<u8>|
            if a.contains_key(k) && b.contains_key(k) {
                combine(a[k], b[k])
            } else if a.contains_key(k) {
                a[k]
            } else {
                b[k]
            },
    )
}

/// The map from each key to the record at the key's position.
pub open spec fn view_of(keys: Seq<Seq<u8>>, recs: Seq<Record>) -> Map<Seq<u8>, RecordView> {
    Map::new(|k: Seq<u8>| keys.contains(k), |k: Seq<u8>| recs[index_of(keys, k)].view())
}

/// Setting the record at the position of `k`, where `k` was there already or has
/// just been added at the end, sets the record of `k`.
proof fn lemma_view_step(
    old_keys: Seq<Seq<u8>>,
    old_recs: Seq<Record>,
    keys: Seq<Seq<u8>>,
    recs: Seq<Record>,
    i: int,
    k: Seq<u8>,
    rv: RecordView,
)
    requires
        distinct(old_keys),
        distinct(keys),
        old_keys.len() == old_recs.len(),
        keys.len() == recs.len(),
        old_keys.contains(k) ==> keys == old_keys,
        !old_keys.contains(k) ==> keys == old_keys.push(k),
        0 <= i < keys.len(),
        keys[i] == k,
        recs[i].view() == rv,
        forall|j: int| 0 <= j < old_recs.len() && j != i ==> recs[j] == old_recs[j],
    ensures
        view_of(keys, recs) == view_of(old_keys, old_recs).insert(k, rv),
{
    let nv = view_of(old_keys, old_recs).insert(k, rv);
    assert forall|q: Seq<u8>| #[trigger] view_of(keys, recs).contains_key(q) == nv.contains_key(q)
        by {
        if keys.contains(q) {
            let j = choose|j: int| 0 <= j < keys.len() && keys[j] == q;
            if j < old_keys.len() {
                assert(old_keys[j] == q);
            }
        }
        if old_keys.contains(q) {
            let j = choose|j: int| 0 <= j < old_keys.len() && old_keys[j] == q;
            assert(keys[j] == q);
        }
    }
    assert forall|q: Seq<u8>| #[trigger] view_of(keys, recs).contains_key(q) implies view_of(
        keys,
        recs,
    )[q] == nv[q] by {
        let j = choose|j: int| 0 <= j < keys.len() && keys[j] == q;
        lemma_index_of(keys, j);
        if q == k {
            assert(j == i);
        } else {
            assert(j < old_keys.len());
            assert(old_keys[j] == q);
            lemma_index_of(old_keys, j);
        }
    }
    assert(view_of(keys, recs) =~= nv);
}

/// Per-key statistics: the record of the key with identifier `i` is `records[i]`.
#[derive(Debug)]
pub struct FinalInfo {
    pub names: Interner,
    pub records: Vec<Record>,
    /// How many observations the store holds in all.
    pub total: u64,
}

impl FinalInfo {
    pub open spec fn keys(&self) -> Seq<Seq<u8>> {
        self.names.view()
    }

    pub open spec fn view(&self) -> Map<Seq<u8>, RecordView> {
        view_of(self.keys(), self.records@)
    }

    pub open spec fn wf(&self) -> bool {
        &&& self.names.wf()
        &&& self.records@.len() == self.keys().len()
        &&& self.total <= MAX_COUNT
        &&& forall|i: int|
            0 <= i < self.records@.len() ==> {
                &&& #[trigger] self.records@[i].wf()
                &&& 1 <= self.records@[i].count <= self.total
            }
    }

    /// The store of no observations.
    pub fn new() -> (r: FinalInfo)
        ensures
            r.wf(),
            r.total == 0,
            r.view() == Map::<Seq<u8>, RecordView>::empty(),
    {
        let r = FinalInfo { names: Interner::new(), records: Vec::new(), total: 0 };
        assert(r.view() =~= Map::<Seq<u8>, RecordView>::empty());
        r
    }

    /// Folds the observation `measure` of key `name` in.
    pub fn update(&mut self, name: &[u8], measure: Temperature)
        requires
            old(self).wf(),
            measure.wf(),
            old(self).total < MAX_COUNT,
        ensures
            final(self).wf(),
            final(self).total == old(self).total + 1,
            final(self).view() == update_map(old(self).view(), name@, measure.tenths()),
    {
        let ghost old_keys = self.keys();
        let ghost old_view = self.view();
        let id = self.names.intern(name);
        let i = id.0;
        proof {
            if old_keys.contains(name@) {
                let j = choose|j: int| 0 <= j < old_keys.len() && old_keys[j] == name@;
                lemma_index_of(self.keys(), i as int);
                lemma_index_of(self.keys(), j);
            }
        }
        if i == self.records.len() {
            let mut r = Record::new();
            r.add_measure(measure);
            self.records.push(r);
        } else {
            assert(self.records@[i as int].wf());
            let mut r = self.records[i];
            r.add_measure(measure);
            self.records.set(i, r);
        }
        self.total = self.total + 1;
        proof {
            assert forall|j: int| 0 <= j < self.records@.len() implies {
                &&& #[trigger] self.records@[j].wf()
                &&& 1 <= self.records@[j].count <= self.total
            } by {
                if j != i {
                    assert(old(self).records@[j] == self.records@[j]);
                    assert(old(self).records@[j].wf());
                }
            }
            lemma_view_step(
                old_keys,
                old(self).records@,
                self.keys(),
                self.records@,
                i as int,
                name@,
                observe(lookup(old_view, name@), measure.tenths()),
            );
        }
    }

    /// Takes in `rec` as further observations of key `name`.
    fn absorb(&mut self, name: &[u8], rec: &Record)
        requires
            old(self).wf(),
            rec.wf(),
            rec.count >= 1,
            rec.count <= old(self).total,
            old(self).view().contains_key(name@) ==> old(self).view()[name@].count + rec.count
                <= old(self).total,
        ensures
            final(self).wf(),
            final(self).total == old(self).total,
            final(self).view() == old(self).view().insert(
                name@,
                if old(self).view().contains_key(name@) {
                    combine(old(self).view()[name@], rec.view())
                } else {
                    rec.view()
                },
            ),
    {
        let ghost old_keys = self.keys();
        let ghost old_view = self.view();
        let id = self.names.intern(name);
        let i = id.0;
        proof {
            if old_keys.contains(name@) {
                let j = choose|j: int| 0 <= j < old_keys.len() && old_keys[j] == name@;
                lemma_index_of(self.keys(), i as int);
                lemma_index_of(self.keys(), j);
            }
        }
        if i == self.records.len() {
            self.records.push(*rec);
        } else {
            assert(self.records@[i as int].wf());
            proof {
                lemma_index_of(old_keys, i as int);
            }
            let mut r = self.records[i];
            r.add_assign(rec);
            self.records.set(i, r);
        }
        proof {
            assert forall|j: int| 0 <= j < self.records@.len() implies {
                &&& #[trigger] self.records@[j].wf()
                &&& 1 <= self.records@[j].count <= self.total
            } by {
                if j != i {
                    assert(old(self).records@[j] == self.records@[j]);
                    assert(old(self).records@[j].wf());
                }
            }
            lemma_view_step(
                old_keys,
                old(self).records@,
                self.keys(),
                self.records@,
                i as int,
                name@,
                if old_view.contains_key(name@) {
                    combine(old_view[name@], rec.view())
                } else {
                    rec.view()
                },
            );
        }
    }

    /// Takes in every record of `other`.
    pub fn merge(&mut self, other: &FinalInfo)
        requires
            old(self).wf(),
            other.wf(),
            old(self).total + other.total <= MAX_COUNT,
        ensures
            final(self).wf(),
            final(self).total == old(self).total + other.total,
            final(self).view() == merge_maps(old(self).view(), other.view()),
    {
        let ghost base = self.view();
        proof {
            assert forall|q: Seq<u8>| #[trigger] base.contains_key(q) implies base[q].count
                <= old(self).total by {
                let j = choose|j: int| 0 <= j < self.keys().len() && self.keys()[j] == q;
                lemma_index_of(self.keys(), j);
                assert(self.records@[j].wf());
            }
        }
        let ghost ok = other.keys();
        let ghost ov = other.view();
        self.total = self.total + other.total;
        let mut i: usize = 0;
        while i < other.records.len()
            invariant
                other.wf(),
                ok == other.keys(),
                ov == other.view(),
                0 <= i <= other.records@.len(),
                self.wf(),
                self.total == old(self).total + other.total,
                forall|q: Seq<u8>| #[trigger]
                    base.contains_key(q) ==> base[q].count <= old(self).total,
                self.view() == merge_maps(base, view_of(ok.subrange(0, i as int), other.records@)),
            decreases other.records@.len() - i,
        {
            assert(other.records@[i as int].wf());
            let ghost pm = view_of(ok.subrange(0, i as int), other.records@);
            proof {
                lemma_prefix_step(ok, other.records@, i as int);
                lemma_merge_insert(base, pm, ok[i as int], other.records@[i as int].view());
                assert(other.records@[i as int].count <= other.total);
            }
            self.absorb(other.names.names[i].as_slice(), &other.records[i]);
            i = i + 1;
        }
        proof {
            assert(ok.subrange(0, i as int) =~= ok);
        }
    }
}

/// The records of the first `i + 1` keys are those of the first `i` and one more.
proof fn lemma_prefix_step(keys: Seq<Seq<u8>>, recs: Seq<Record>, i: int)
    requires
        distinct(keys),
        0 <= i < keys.len(),
    ensures
        !view_of(keys.subrange(0, i), recs).contains_key(keys[i]),
        view_of(keys.subrange(0, i + 1), recs) == view_of(keys.subrange(0, i), recs).insert(
            keys[i],
            recs[i].view(),
        ),
{
    let a = keys.subrange(0, i);
    let b = keys.subrange(0, i + 1);
    assert(distinct(a));
    assert(distinct(b));
    assert(b =~= a.push(keys[i]));
    if a.contains(keys[i]) {
        let j = choose|j: int| 0 <= j < a.len() && a[j] == keys[i];
        assert(keys[j] == keys[i]);
    }
    lemma_index_of(b, i);
    assert forall|q: Seq<u8>| a.contains(q) implies index_of(b, q) == index_of(a, q) by {
        let j = choose|j: int| 0 <= j < a.len() && a[j] == q;
        lemma_index_of(a, j);
        lemma_index_of(b, j);
    }
    let nv = view_of(a, recs).insert(keys[i], recs[i].view());
    assert forall|q: Seq<u8>| #[trigger] view_of(b, recs).contains_key(q) == nv.contains_key(q)
        by {
        if b.contains(q) {
            let j = choose|j: int| 0 <= j < b.len() && b[j] == q;
            if j < i {
                assert(a[j] == q);
            }
        }
    }
    assert(view_of(b, recs) =~= nv);
}

/// Merging in a map with one more key, absent before, adds that key's record.
proof fn lemma_merge_insert(
    base: Map<Seq<u8>, RecordView>,
    m: Map<Seq<u8>, RecordView>,
    k: Seq<u8>,
    rv: RecordView,
)
    requires
        !m.contains_key(k),
    ensures
        merge_maps(base, m.insert(k, rv)) == merge_maps(base, m).insert(
            k,
            if merge_maps(base, m).contains_key(k) {
                combine(merge_maps(base, m)[k], rv)
            } else {
                rv
            },
        ),
{
    assert(merge_maps(base, m.insert(k, rv)) =~= merge_maps(base, m).insert(
        k,
        if merge_maps(base, m).contains_key(k) {
            combine(merge_maps(base, m)[k], rv)
        } else {
            rv
        },
    ));
}

/// The views of the stores in `s`.
pub open spec fn views_of(s: Seq<FinalInfo>) -> Seq<Map<Seq<u8>, RecordView>> {
    s.map_values(|f: FinalInfo| f.view())
}

/// How many observations the stores in `s` hold together.
pub open spec fn total_of(s: Seq<FinalInfo>) -> int
    decreases s.len(),
{
    if s.len() == 0 {
        0
    } else {
        total_of(s.drop_last()) + s.last().total
    }
}

/// Merges the stores of all workers into one.
pub fn join_infos(infos: Vec<FinalInfo>) -> (r: FinalInfo)
    requires
        forall|i: int| 0 <= i < infos@.len() ==> (#[trigger] infos@[i]).wf(),
        total_of(infos@) <= MAX_COUNT,
    ensures
        r.wf(),
        r.view() == merge_all_maps(views_of(infos@)),
{
    let mut r = FinalInfo::new();
    let mut i: usize = 0;
    while i < infos.len()
        invariant
            0 <= i <= infos@.len(),
            forall|j: int| 0 <= j < infos@.len() ==> (#[trigger] infos@[j]).wf(),
            total_of(infos@) <= MAX_COUNT,
            r.wf(),
            r.total == total_of(infos@.subrange(0, i as int)),
            r.view() == merge_all_maps(views_of(infos@.subrange(0, i as int))),
        decreases infos@.len() - i,
    {
        proof {
            assert(infos@.subrange(0, i + 1).drop_last() =~= infos@.subrange(0, i as int));
            assert(views_of(infos@.subrange(0, i + 1)).drop_last() =~= views_of(
                infos@.subrange(0, i as int),
            ));
            lemma_total_prefix(infos@, i + 1);
        }
        r.merge(&infos[i]);
        i = i + 1;
    }
    proof {
        assert(infos@.subrange(0, i as int) =~= infos@);
    }
    r
}

/// Totals of stores are never negative, and a prefix holds no more than the whole.
proof fn lemma_total_prefix(s: Seq<FinalInfo>, n: int)
    requires
        0 <= n <= s.len(),
    ensures
        0 <= total_of(s.subrange(0, n)) <= total_of(s),
    decreases s.len(),
{
    if n < s.len() {
        assert(s.drop_last().subrange(0, n) =~= s.subrange(0, n));
        lemma_total_prefix(s.drop_last(), n);
    } else {
        assert(s.subrange(0, n) =~= s);
        if s.len() > 0 {
            lemma_total_prefix(s.drop_last(), n - 1);
            assert(s.drop_last().subrange(0, n - 1) =~= s.drop_last());
        }
    }
}


/// The store of a sequence of (key, value) observations, folded in order.
pub open spec fn aggregate(s: Seq<(Seq<u8>, int)>) -> Map<Seq<u8>, RecordView>
    decreases s.len(),
{
    if s.len() == 0 {
        Map::empty()
    } else {
        update_map(aggregate(s.drop_last()), s.last().0, s.last().1)
    }
}

/// Every value of the observations is in the representable range.
pub open spec fn values_in_range(s: Seq<(Seq<u8>, int)>) -> bool {
    forall|i: int| 0 <= i < s.len() ==> MIN_TENTHS <= (#[trigger] s[i]).1 <= MAX_TENTHS
}

/// Merging is associative and commutative: stores may be merged in any grouping
/// and in any order.
pub proof fn lemma_merge_assoc_comm(
    a: Map<Seq<u8>, RecordView>,
    b: Map<Seq<u8>, RecordView>,
    c: Map<Seq<u8>, RecordView>,
)
    ensures
        merge_maps(merge_maps(a, b), c) == merge_maps(a, merge_maps(b, c)),
        merge_maps(merge_maps(a, b), c) == merge_maps(merge_maps(b, a), c),
        merge_maps(a, b) == merge_maps(b, a),
{
    assert(merge_maps(merge_maps(a, b), c) =~= merge_maps(a, merge_maps(b, c)));
    assert(merge_maps(a, b) =~= merge_maps(b, a));
}

/// The store of observations split in two parts is the merge of the stores of
/// the parts: how the observations are divided among workers does not change
/// the result.
pub proof fn lemma_aggregate_split(s1: Seq<(Seq<u8>, int)>, s2: Seq<(Seq<u8>, int)>)
    requires
        values_in_range(s1 + s2),
    ensures
        aggregate(s1 + s2) == merge_maps(aggregate(s1), aggregate(s2)),
    decreases s2.len(),
{
    if s2.len() == 0 {
        assert(s1 + s2 =~= s1);
        assert(merge_maps(aggregate(s1), aggregate(s2)) =~= aggregate(s1));
    } else {
        let p = s2.drop_last();
        assert((s1 + s2).drop_last() =~= s1 + p);
        assert((s1 + s2).last() == s2.last());
        assert(values_in_range(s1 + p)) by {
            assert forall|i: int| 0 <= i < (s1 + p).len() implies MIN_TENTHS <= (#[trigger] (s1
                + p)[i]).1 <= MAX_TENTHS by {
                assert((s1 + p)[i] == (s1 + s2)[i]);
            }
        }
        assert((s1 + s2)[(s1 + s2).len() - 1] == s2.last());
        lemma_aggregate_split(s1, p);
        let m1 = aggregate(s1);
        let m2 = aggregate(p);
        let k = s2.last().0;
        let v = s2.last().1;
        assert(aggregate(s1 + s2) == update_map(merge_maps(m1, m2), k, v));
        assert(aggregate(s2) == update_map(m2, k, v));
        assert(update_map(merge_maps(m1, m2), k, v) =~= merge_maps(m1, update_map(m2, k, v)));
    }
}

/// The store of all observations is what merging the stores of consecutive
/// parts gives.
pub proof fn lemma_aggregate_parts(parts: Seq<Seq<(Seq<u8>, int)>>)
    requires
        values_in_range(parts.flatten()),
    ensures
        aggregate(parts.flatten()) == merge_all_maps(parts.map_values(|p: Seq<(Seq<u8>, int)>| aggregate(p))),
    decreases parts.len(),
{
    let aggs = parts.map_values(|p: Seq<(Seq<u8>, int)>| aggregate(p));
    if parts.len() == 0 {
        assert(parts.flatten() =~= Seq::<(Seq<u8>, int)>::empty());
        assert(aggregate(parts.flatten()) =~= Map::empty());
    } else {
        let init = parts.drop_last();
        parts.lemma_flatten_and_flatten_alt_are_equivalent();
        init.lemma_flatten_and_flatten_alt_are_equivalent();
        assert(parts.flatten() =~= init.flatten() + parts.last());
        assert(values_in_range(init.flatten())) by {
            assert forall|i: int| 0 <= i < init.flatten().len() implies MIN_TENTHS <= (
            #[trigger] init.flatten()[i]).1 <= MAX_TENTHS by {
                assert(init.flatten()[i] == parts.flatten()[i]);
            }
        }
        lemma_aggregate_parts(init);
        lemma_aggregate_split(init.flatten(), parts.last());
        assert(aggs.drop_last() =~= init.map_values(|p: Seq<(Seq<u8>, int)>| aggregate(p)));
    }
}

/// Maps merged in order.
pub open spec fn merge_all_maps(s: Seq<Map<Seq<u8>, RecordView>>) -> Map<Seq<u8>, RecordView>
    decreases s.len(),
{
    if s.len() == 0 {
        Map::empty()
    } else {
        merge_maps(merge_all_maps(s.drop_last()), s.last())
    }
}

} // verus!
