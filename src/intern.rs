use vstd::prelude::*;

verus! {

/// Dense identifier of a name, given out in first-seen order from 0.
#[derive(Debug, Clone, Copy, PartialEq, Eq, Hash)]
pub struct InternedName(pub usize);

/// Whether two byte strings are equal.
pub fn bytes_eq(a: &[u8], b: &[u8]) -> (r: bool)
    ensures
        r == (a@ == b@),
{
    if a.len() != b.len() {
        return false;
    }
    let mut i: usize = 0;
    while i < a.len()
        invariant
            a@.len() == b@.len(),
            0 <= i <= a@.len(),
            forall|j: int| 0 <= j < i ==> a@[j] == b@[j],
        decreases a@.len() - i,
    {
        if a[i] != b[i] {
            return false;
        }
        i = i + 1;
    }
    assert(a@ =~= b@);
    true
}

/// An owned copy of a byte string.
pub fn copy_bytes(a: &[u8]) -> (r: Vec<u8>)
    ensures
        r@ == a@,
{
    let mut r: Vec<u8> = Vec::with_capacity(a.len());
    let mut i: usize = 0;
    while i < a.len()
        invariant
            0 <= i <= a@.len(),
            r@ == a@.subrange(0, i as int),
        decreases a@.len() - i,
    {
        r.push(a[i]);
        i = i + 1;
        assert(r@ =~= a@.subrange(0, i as int));
    }
    assert(r@ =~= a@);
    r
}

/// Whether no name occurs twice.
pub open spec fn distinct(s: Seq<Seq<u8>>) -> bool {
    forall|i: int, j: int| 0 <= i < s.len() && 0 <= j < s.len() && i != j ==> s[i] != s[j]
}

/// Position of `k` in `s`, where it occurs.
pub open spec fn index_of(s: Seq<Seq<u8>>, k: Seq<u8>) -> int {
    choose|i: int| 0 <= i < s.len() && s[i] == k
}

/// In a sequence without repeats, a name's position is the one it stands at.
pub proof fn lemma_index_of(s: Seq<Seq<u8>>, i: int)
    requires
        distinct(s),
        0 <= i < s.len(),
    ensures
        index_of(s, s[i]) == i,
{
    let j = index_of(s, s[i]);
    assert(0 <= j < s.len() && s[j] == s[i]);
}

/// Maps names to dense identifiers; the identifier of a name is its position.
#[derive(Debug)]
pub struct Interner {
    pub names: Vec<Vec<u8>>,
}

impl Interner {
    pub open spec fn view(&self) -> Seq<Seq<u8>> {
        self.names@.map_values(|n: Vec<u8>| n@)
    }

    pub open spec fn wf(&self) -> bool {
        distinct(self.view())
    }

    pub fn new() -> (r: Interner)
        ensures
            r.wf(),
            r.view() == Seq::<Seq<u8>>::empty(),
    {
        let r = Interner { names: Vec::new() };
        assert(r.view() =~= Seq::<Seq<u8>>::empty());
        r
    }

    /// The identifier of `name`; a name not seen before gets the next one.
    pub fn intern(&mut self, name: &[u8]) -> (r: InternedName)
        requires
            old(self).wf(),
        ensures
            final(self).wf(),
            old(self).view().contains(name@) ==> final(self).view() == old(self).view(),
            !old(self).view().contains(name@) ==> final(self).view() == old(self).view().push(
                name@,
            ),
            r.0 < final(self).view().len(),
            final(self).view()[r.0 as int] == name@,
            forall|j: int|
                0 <= j < old(self).view().len() && old(self).view()[j] == name@ ==> r.0 == j,
    {
        let mut i: usize = 0;
        while i < self.names.len()
            invariant
                0 <= i <= self.view().len(),
                self.view().len() == self.names@.len(),
                self.wf(),
                self.view() == old(self).view(),
                forall|j: int| 0 <= j < i ==> self.view()[j] != name@,
            decreases self.names@.len() - i,
        {
            if bytes_eq(self.names[i].as_slice(), name) {
                proof {
                    assert(self.view()[i as int] == name@);
                    assert(self.view().contains(name@));
                }
                return InternedName(i);
            }
            i = i + 1;
        }
        assert(!self.view().contains(name@));
        let ghost before = self.view();
        self.names.push(copy_bytes(name));
        assert(self.view() =~= before.push(name@));
        InternedName(i)
    }

    /// The name behind an identifier that this interner gave out.
    pub fn name(&self, id: InternedName) -> (r: &[u8])
        requires
            id.0 < self.view().len(),
        ensures
            r@ == self.view()[id.0 as int],
    {
        self.names[id.0].as_slice()
    }

    pub fn len(&self) -> (r: usize)
        ensures
            r == self.view().len(),
    {
        self.names.len()
    }
}

} // verus!
