use vstd::prelude::*;

use crate::intern::{distinct, index_of, lemma_index_of};
use crate::record::{rounded_mean, Record, RecordView};
use crate::store::FinalInfo;
use crate::temperature::{push_tenths, render_tenths};

verus! {

/// Byte-wise lexicographic order: `a` comes before `b`.
pub open spec fn lex_lt(a: Seq<u8>, b: Seq<u8>) -> bool
    decreases a.len(),
{
    if a.len() == 0 {
        b.len() > 0
    } else if b.len() == 0 {
        false
    } else if a[0] != b[0] {
        a[0] < b[0]
    } else {
        lex_lt(a.drop_first(), b.drop_first())
    }
}

pub proof fn lemma_lex_total(a: Seq<u8>, b: Seq<u8>)
    requires
        a != b,
    ensures
        lex_lt(a, b) || lex_lt(b, a),
        !(lex_lt(a, b) && lex_lt(b, a)),
    decreases a.len(),
{
    if a.len() > 0 && b.len() > 0 && a[0] == b[0] {
        if a.drop_first() == b.drop_first() {
            assert(a =~= seq![a[0]] + a.drop_first());
            assert(b =~= seq![b[0]] + b.drop_first());
        }
        lemma_lex_total(a.drop_first(), b.drop_first());
    } else if a.len() == 0 && b.len() == 0 {
        assert(a =~= b);
    }
}

pub proof fn lemma_lex_trans(a: Seq<u8>, b: Seq<u8>, c: Seq<u8>)
    requires
        lex_lt(a, b),
        lex_lt(b, c),
    ensures
        lex_lt(a, c),
    decreases a.len(),
{
    if a.len() > 0 && b.len() > 0 && c.len() > 0 && a[0] == b[0] && b[0] == c[0] {
        lemma_lex_trans(a.drop_first(), b.drop_first(), c.drop_first());
    }
}

/// Whether `a` comes before `b` byte-wise.
pub fn bytes_lt(a: &[u8], b: &[u8]) -> (r: bool)
    ensures
        r == lex_lt(a@, b@),
{
    let mut i: usize = 0;
    assert(a@.skip(0) =~= a@);
    assert(b@.skip(0) =~= b@);
    while i < a.len() && i < b.len() && a[i] == b[i]
        invariant
            0 <= i <= a@.len(),
            i <= b@.len(),
            lex_lt(a@.skip(i as int), b@.skip(i as int)) == lex_lt(a@, b@),
        decreases a@.len() - i,
    {
        assert(a@.skip(i as int).drop_first() =~= a@.skip(i + 1));
        assert(b@.skip(i as int).drop_first() =~= b@.skip(i + 1));
        i = i + 1;
    }
    if i == a.len() {
        i < b.len()
    } else if i == b.len() {
        false
    } else {
        a[i] < b[i]
    }
}

/// Strictly ascending in byte-wise order.
pub open spec fn sorted(ks: Seq<Seq<u8>>) -> bool {
    forall|i: int, j: int| 0 <= i < j < ks.len() ==> lex_lt(#[trigger] ks[i], #[trigger] ks[j])
}

/// `key=min/mean/max`, each value with one fractional digit.
pub open spec fn entry_text(k: Seq<u8>, r: RecordView) -> Seq<u8> {
    k + seq![61u8] + render_tenths(r.min) + seq![47u8] + render_tenths(
        rounded_mean(r.sum, r.count),
    ) + seq![47u8] + render_tenths(r.max)
}

/// The entries of `ks`, parted by `, `.
pub open spec fn entries_text(ks: Seq<Seq<u8>>, m: Map<Seq<u8>, RecordView>) -> Seq<u8>
    decreases ks.len(),
{
    if ks.len() == 0 {
        Seq::empty()
    } else if ks.len() == 1 {
        entry_text(ks[0], m[ks[0]])
    } else {
        entries_text(ks.drop_last(), m) + seq![44u8, 32u8] + entry_text(ks.last(), m[ks.last()])
    }
}

/// `{` and the entries of `ks` and `}`.
pub open spec fn summary_text(ks: Seq<Seq<u8>>, m: Map<Seq<u8>, RecordView>) -> Seq<u8> {
    seq![123u8] + entries_text(ks, m) + seq![125u8]
}

impl FinalInfo {
    /// The identifiers of all keys, ordered by their keys byte-wise.
    pub fn sorted_ids(&self) -> (r: Vec<usize>)
        requires
            self.wf(),
        ensures
            r@.len() == self.keys().len(),
            forall|j: int| 0 <= j < r@.len() ==> r@[j] < self.keys().len(),
            forall|id: usize| id < self.keys().len() ==> #[trigger] r@.contains(id),
            sorted(r@.map_values(|id: usize| self.keys()[id as int])),
    {
        let ghost keys = self.keys();
        let n = self.names.len();
        let mut r: Vec<usize> = Vec::new();
        let mut k: usize = 0;
        while k < n
            invariant
                keys == self.keys(),
                distinct(keys),
                n == keys.len(),
                0 <= k <= n,
                r@.len() == k,
                forall|j: int| 0 <= j < r@.len() ==> r@[j] < k,
                forall|id: usize| id < k ==> #[trigger] r@.contains(id),
                forall|i: int, j: int|
                    0 <= i < j < r@.len() ==> lex_lt(keys[#[trigger] r@[i] as int], keys[#[trigger] r@[j] as int]),
            decreases n - k,
        {
            let key = self.names.name(crate::intern::InternedName(k));
            let mut pos: usize = 0;
            while pos < r.len() && !bytes_lt(key, self.names.name(crate::intern::InternedName(r[pos])))
                invariant
                    keys == self.keys(),
                    n == keys.len(),
                    k < n,
                    key@ == keys[k as int],
                    0 <= pos <= r@.len(),
                    forall|j: int| 0 <= j < r@.len() ==> r@[j] < k,
                    forall|j: int| 0 <= j < pos ==> !lex_lt(keys[k as int], #[trigger] keys[r@[j] as int]),
                decreases r@.len() - pos,
            {
                pos = pos + 1;
            }
            let ghost old_r = r@;
            proof {
                assert forall|j: int| 0 <= j < pos implies lex_lt(#[trigger] keys[old_r[j] as int], keys[k as int]) by {
                    assert(keys[old_r[j] as int] != keys[k as int]);
                    lemma_lex_total(keys[old_r[j] as int], keys[k as int]);
                }
                assert forall|j: int| pos <= j < old_r.len() implies lex_lt(keys[k as int], #[trigger] keys[old_r[j] as int]) by {
                    if j > pos {
                        lemma_lex_trans(keys[k as int], keys[old_r[pos as int] as int], keys[old_r[j] as int]);
                    }
                }
            }
            r.insert(pos, k);
            proof {
                assert forall|id: usize| id < k + 1 implies #[trigger] r@.contains(id) by {
                    if id == k {
                        assert(r@[pos as int] == id);
                    } else {
                        assert(old_r.contains(id));
                        let j = choose|j: int| 0 <= j < old_r.len() && old_r[j] == id;
                        if j < pos {
                            assert(r@[j] == id);
                        } else {
                            assert(r@[j + 1] == id);
                        }
                    }
                }
            }
            k = k + 1;
        }
        proof {
            let ks = r@.map_values(|id: usize| keys[id as int]);
            assert forall|i: int, j: int| 0 <= i < j < ks.len() implies lex_lt(#[trigger] ks[i], #[trigger] ks[j]) by {
                assert(lex_lt(keys[r@[i] as int], keys[r@[j] as int]));
            }
        }
        r
    }

    /// One line `{key=min/mean/max, ...}` with the keys in byte-wise order
    /// and every value with one fractional digit; the mean is rounded half up.
    pub fn summary(&self) -> (r: Vec<u8>)
        requires
            self.wf(),
        ensures
            exists|ks: Seq<Seq<u8>>|
                sorted(ks) && ks.to_set() == self.view().dom() && r@ == summary_text(
                    ks,
                    self.view(),
                ),
    {
        let ghost keys = self.keys();
        let ghost m = self.view();
        let ids = self.sorted_ids();
        let ghost ks = ids@.map_values(|id: usize| keys[id as int]);
        let mut out: Vec<u8> = Vec::new();
        out.push(123u8);
        let mut j: usize = 0;
        while j < ids.len()
            invariant
                self.wf(),
                keys == self.keys(),
                m == self.view(),
                ks == ids@.map_values(|id: usize| keys[id as int]),
                forall|i: int| 0 <= i < ids@.len() ==> ids@[i] < keys.len(),
                0 <= j <= ids@.len(),
                out@ == seq![123u8] + entries_text(ks.subrange(0, j as int), m),
            decreases ids@.len() - j,
        {
            let id = ids[j];
            let ghost pre = out@;
            if j > 0 {
                out.push(44u8);
                out.push(32u8);
            }
            assert(self.records@[id as int].wf());
            let rec = &self.records[id];
            push_entry(&mut out, self.names.name(crate::intern::InternedName(id)), rec);
            proof {
                lemma_index_of(keys, id as int);
                assert(m.contains_key(keys[id as int]));
                assert(m[ks[j as int]] == rec.view());
                lemma_entries_step(ks, m, j as int);
                if j == 0 {
                    assert(out@ =~= seq![123u8] + entries_text(ks.subrange(0, j + 1), m));
                } else {
                    assert(out@ =~= seq![123u8] + entries_text(ks.subrange(0, j + 1), m));
                }
            }
            j = j + 1;
        }
        out.push(125u8);
        proof {
            assert(ks.subrange(0, ks.len() as int) =~= ks);
            assert(out@ =~= summary_text(ks, m));
            assert forall|q: Seq<u8>| ks.to_set().contains(q) == m.dom().contains(q) by {
                if m.dom().contains(q) {
                    let i = choose|i: int| 0 <= i < keys.len() && keys[i] == q;
                    assert(ids@.contains(i as usize));
                    let jj = choose|jj: int| 0 <= jj < ids@.len() && ids@[jj] == i as usize;
                    assert(ks[jj] == q);
                }
                if ks.to_set().contains(q) {
                    let jj = choose|jj: int| 0 <= jj < ks.len() && ks[jj] == q;
                    assert(keys[ids@[jj] as int] == q);
                }
            }
            assert(ks.to_set() =~= m.dom());
        }
        out
    }
}

/// Appending entry `j` to the text of the entries before it.
proof fn lemma_entries_step(ks: Seq<Seq<u8>>, m: Map<Seq<u8>, RecordView>, j: int)
    requires
        0 <= j < ks.len(),
    ensures
        entries_text(ks.subrange(0, j + 1), m) == entries_text(ks.subrange(0, j), m) + (if j
            == 0 {
            Seq::<u8>::empty()
        } else {
            seq![44u8, 32u8]
        }) + entry_text(ks[j], m[ks[j]]),
{
    let sub = ks.subrange(0, j + 1);
    assert(sub.drop_last() =~= ks.subrange(0, j));
    assert(sub.last() == ks[j]);
    if j == 0 {
        assert(entries_text(ks.subrange(0, 0), m) =~= Seq::<u8>::empty());
        assert(entries_text(sub, m) =~= Seq::<u8>::empty() + Seq::<u8>::empty() + entry_text(
            ks[j],
            m[ks[j]],
        ));
    }
}

/// Appends the entry of key `k` with record `rec`.
pub fn push_entry(out: &mut Vec<u8>, k: &[u8], rec: &Record)
    requires
        rec.wf(),
        rec.count >= 1,
    ensures
        final(out)@ == old(out)@ + entry_text(k@, rec.view()),
{
    push_bytes(out, k);
    out.push(61u8);
    push_tenths(out, rec.min.0 as i64);
    out.push(47u8);
    push_tenths(out, rec.mean());
    out.push(47u8);
    push_tenths(out, rec.max.0 as i64);
    assert(out@ =~= old(out)@ + entry_text(k@, rec.view()));
}

/// Appends `b` to `out`.
pub fn push_bytes(out: &mut Vec<u8>, b: &[u8])
    ensures
        final(out)@ == old(out)@ + b@,
{
    let mut i: usize = 0;
    while i < b.len()
        invariant
            0 <= i <= b@.len(),
            out@ == old(out)@ + b@.subrange(0, i as int),
        decreases b@.len() - i,
    {
        out.push(b[i]);
        i = i + 1;
        assert(out@ =~= old(out)@ + b@.subrange(0, i as int));
    }
    assert(b@.subrange(0, i as int) =~= b@);
}

} // verus!
