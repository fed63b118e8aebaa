use vstd::prelude::*;

use crate::IriIndex;

verus! {

/// A strictly ascending sequence of indexes.
pub open spec fn strictly_ascending(s: Seq<IriIndex>) -> bool {
    forall|i: int, j: int| 0 <= i < j < s.len() ==> s[i] < s[j]
}

/// A set of IRI indexes kept as a strictly ascending vector.
#[derive(Clone)]
pub struct SortedVec {
    pub data: Vec<IriIndex>,
}

impl SortedVec {
    /// The values held, in ascending order.
    pub open spec fn view(&self) -> Seq<IriIndex> {
        self.data@
    }

    /// The set of values held.
    pub open spec fn members(&self) -> Set<IriIndex> {
        self.data@.to_set()
    }

    /// The vector is strictly ascending (so it holds no value twice).
    pub open spec fn wf(&self) -> bool {
        strictly_ascending(self.data@)
    }

    pub fn new() -> (res: Self)
        ensures
            res.wf(),
            res@ == Seq::<IriIndex>::empty(),
    {
        SortedVec { data: Vec::new() }
    }

    /// Binary search: `Ok(pos)` where the value stands, or `Err(pos)` where it
    /// would be inserted to keep the order.
    fn search(&self, value: IriIndex) -> (res: Result<usize, usize>)
        requires
            self.wf(),
        ensures
            match res {
                Ok(pos) => pos < self@.len() && self@[pos as int] == value,
                Err(pos) => {
                    &&& pos <= self@.len()
                    &&& forall|i: int| 0 <= i < pos ==> self@[i] < value
                    &&& forall|i: int| pos <= i < self@.len() ==> self@[i] > value
                },
            },
    {
        let mut lo: usize = 0;
        let mut hi: usize = self.data.len();
        while lo < hi
            invariant
                self.wf(),
                lo <= hi <= self@.len(),
                forall|i: int| 0 <= i < lo ==> self@[i] < value,
                forall|i: int| hi <= i < self@.len() ==> self@[i] > value,
            decreases hi - lo,
        {
            let mid = lo + (hi - lo) / 2;
            let cur = self.data[mid];
            if cur == value {
                return Ok(mid);
            } else if cur < value {
                lo = mid + 1;
            } else {
                hi = mid;
            }
        }
        Err(lo)
    }

    /// Adds a value unless it is already present.
    pub fn add(&mut self, value: IriIndex)
        requires
            old(self).wf(),
        ensures
            final(self).wf(),
            final(self).members() == old(self).members().insert(value),
            old(self).members().contains(value) ==> final(self)@ == old(self)@,
    {
        match self.search(value) {
            Ok(_) => {},
            Err(pos) => {
                let ghost before = self.data@;
                self.data.insert(pos, value);
                assert forall|x: IriIndex| #[trigger] self.data@.to_set().contains(x)
                    <==> before.to_set().insert(value).contains(x) by {
                    if self.data@.contains(x) {
                        let k = choose|k: int| 0 <= k < self.data@.len() && self.data@[k] == x;
                        if k != pos {
                            let j = if k < pos { k } else { k - 1 };
                            assert(before[j] == x);
                        }
                    }
                    if before.contains(x) {
                        let k = choose|k: int| 0 <= k < before.len() && before[k] == x;
                        let j = if k < pos { k } else { k + 1 };
                        assert(self.data@[j] == x);
                    }
                    if x == value {
                        assert(self.data@[pos as int] == x);
                    }
                }
                assert(self.data@.to_set() =~= before.to_set().insert(value));
            },
        }
    }

    /// Whether the value is held.
    pub fn contains(&self, value: IriIndex) -> (res: bool)
        requires
            self.wf(),
        ensures
            res == self.members().contains(value),
    {
        match self.search(value) {
            Ok(pos) => {
                assert(self.data@.contains(value)) by { assert(self.data@[pos as int] == value); }
                true
            },
            Err(_) => false,
        }
    }

    /// Removes a value if it is present.
    pub fn remove(&mut self, value: IriIndex)
        requires
            old(self).wf(),
        ensures
            final(self).wf(),
            final(self).members() == old(self).members().remove(value),
            !old(self).members().contains(value) ==> final(self)@ == old(self)@,
            final(self)@ == old(self)@.filter(|x: IriIndex| x != value),
    {
        let ghost before = self.data@;
        proof {
            lemma_filter_keeps_all(before, value);
        }
        if let Ok(pos) = self.search(value) {
            proof {
                let a = before.subrange(0, pos as int);
                let b = before.subrange(pos + 1, before.len() as int);
                assert(before =~= a + seq![value] + b);
                assert(!a.contains(value)) by {
                    if a.contains(value) {
                        let w = choose|w: int| 0 <= w < a.len() && a[w] == value;
                        assert(before[w] < before[pos as int]);
                    }
                }
                assert(!b.contains(value)) by {
                    if b.contains(value) {
                        let w = choose|w: int| 0 <= w < b.len() && b[w] == value;
                        assert(before[pos as int] < before[pos + 1 + w]);
                    }
                }
                lemma_filter_keeps_all(a, value);
                lemma_filter_keeps_all(b, value);
                let pred = |x: IriIndex| x != value;
                Seq::filter_distributes_over_add(a + seq![value], b, pred);
                Seq::filter_distributes_over_add(a, seq![value], pred);
                reveal_with_fuel(Seq::filter, 2);
                assert(seq![value].filter(pred) =~= Seq::<IriIndex>::empty()) by {
                    assert(seq![value].drop_last() =~= Seq::<IriIndex>::empty());
                }
                assert(before.filter(pred) =~= a + b);
            }
            self.data.remove(pos);
            assert(self.data@ =~= before.subrange(0, pos as int) + before.subrange(pos + 1, before.len() as int));
            assert forall|x: IriIndex| #[trigger] self.data@.to_set().contains(x)
                <==> before.to_set().remove(value).contains(x) by {
                if self.data@.contains(x) {
                    let k = choose|k: int| 0 <= k < self.data@.len() && self.data@[k] == x;
                    let j = if k < pos { k } else { k + 1 };
                    assert(before[j] == x);
                }
                if before.contains(x) && x != value {
                    let k = choose|k: int| 0 <= k < before.len() && before[k] == x;
                    let j = if k < pos { k } else { k - 1 };
                    assert(self.data@[j] == x);
                }
            }
            assert(self.data@.to_set() =~= before.to_set().remove(value));
        }
    }
}

/// Filtering out a value that a sequence does not hold keeps it whole.
proof fn lemma_filter_keeps_all(s: Seq<IriIndex>, value: IriIndex)
    ensures
        !s.contains(value) ==> s.filter(|x: IriIndex| x != value) == s,
    decreases s.len(),
{
    reveal(Seq::filter);
    if s.len() > 0 && !s.contains(value) {
        assert(!s.drop_last().contains(value)) by {
            if s.drop_last().contains(value) {
                let w = choose|w: int| 0 <= w < s.drop_last().len() && s.drop_last()[w] == value;
                assert(s[w] == value);
            }
        }
        lemma_filter_keeps_all(s.drop_last(), value);
        assert(s.last() != value) by {
            assert(s[s.len() - 1] == s.last());
        }
        assert(s.drop_last().push(s.last()) =~= s);
    }
}

/// A strictly ascending sequence is fixed by the values it holds.
pub proof fn lemma_ascending_determined(a: Seq<IriIndex>, b: Seq<IriIndex>)
    requires
        strictly_ascending(a),
        strictly_ascending(b),
        a.to_set() == b.to_set(),
    ensures
        a == b,
    decreases a.len(),
{
    if a.len() == 0 {
        if b.len() > 0 {
            assert(b.to_set().contains(b[0]));
        }
        assert(a =~= b);
    } else if b.len() == 0 {
        assert(a.to_set().contains(a[0]));
    } else {
        assert(b.to_set().contains(a[0]));
        assert(a.to_set().contains(b[0]));
        let k = choose|k: int| 0 <= k < b.len() && b[k] == a[0];
        let j = choose|j: int| 0 <= j < a.len() && a[j] == b[0];
        assert(a[0] == b[0]) by {
            if k > 0 {
                assert(b[0] < b[k]);
            }
            if j > 0 {
                assert(a[0] < a[j]);
            }
        }
        let ra = a.drop_first();
        let rb = b.drop_first();
        assert forall|x: IriIndex| ra.to_set().contains(x) == a.to_set().remove(a[0]).contains(x) by {
            if ra.contains(x) {
                let w = choose|w: int| 0 <= w < ra.len() && ra[w] == x;
                assert(a[w + 1] == x && a[0] < a[w + 1]);
            }
            if a.contains(x) && x != a[0] {
                let w = choose|w: int| 0 <= w < a.len() && a[w] == x;
                assert(ra[w - 1] == x);
            }
        }
        assert forall|x: IriIndex| rb.to_set().contains(x) == b.to_set().remove(b[0]).contains(x) by {
            if rb.contains(x) {
                let w = choose|w: int| 0 <= w < rb.len() && rb[w] == x;
                assert(b[w + 1] == x && b[0] < b[w + 1]);
            }
            if b.contains(x) && x != b[0] {
                let w = choose|w: int| 0 <= w < b.len() && b[w] == x;
                assert(rb[w - 1] == x);
            }
        }
        assert(ra.to_set() =~= rb.to_set());
        lemma_ascending_determined(ra, rb);
        assert(a =~= seq![a[0]] + ra);
        assert(b =~= seq![b[0]] + rb);
    }
}

/// Adding a value that is not held and then removing it gives back the
/// vector as it was, and the value is not held.
pub proof fn lemma_add_then_remove(before: SortedVec, added: SortedVec, after: SortedVec, value: IriIndex)
    requires
        before.wf(),
        added.wf(),
        after.wf(),
        !before.members().contains(value),
        added.members() == before.members().insert(value),
        after.members() == added.members().remove(value),
    ensures
        after@ == before@,
        !after.members().contains(value),
{
    assert(after.members() =~= before.members());
    lemma_ascending_determined(after@, before@);
}

} // verus!
