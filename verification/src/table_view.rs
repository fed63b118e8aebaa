//! The index behind the type table: the types of the loaded nodes with
//! their instances, and counts over all nodes.

use vstd::prelude::*;
use vstd::string::StringSliceAdditionalSpecFns;
use vstd::utf8::encode_utf8;

use crate::nobject::{Indexers, Literal, NObjectView, NodeData, PredicateLiteral};
use crate::IriIndex;

verus! {

/// How often `t` occurs in the list.
pub open spec fn count_of(s: Seq<usize>, t: usize) -> nat
    decreases s.len(),
{
    if s.len() == 0 {
        0
    } else {
        count_of(s.drop_last(), t) + if s.last() == t {
            1nat
        } else {
            0nat
        }
    }
}

/// The list with the items of `ts` that it does not hold yet added, in
/// the order of `ts`.
pub open spec fn add_new(seen: Seq<usize>, ts: Seq<usize>) -> Seq<usize>
    decreases ts.len(),
{
    if ts.len() == 0 {
        seen
    } else {
        let s1 = add_new(seen, ts.drop_last());
        if s1.contains(ts.last()) {
            s1
        } else {
            s1.push(ts.last())
        }
    }
}

/// The types of the first `n` nodes, each once, in order of first
/// appearance.
pub open spec fn types_seen(nodes: Seq<(Seq<char>, NObjectView)>, n: int) -> Seq<usize>
    decreases n,
{
    if n <= 0 {
        Seq::empty()
    } else {
        add_new(types_seen(nodes, n - 1), nodes[n - 1].1.types)
    }
}

/// The instances of type `t` among the first `n` nodes, in node order:
/// each node's index once for each time its types list `t`.
pub open spec fn instances_upto(nodes: Seq<(Seq<char>, NObjectView)>, t: usize, n: int) -> Seq<usize>
    decreases n,
{
    if n <= 0 {
        Seq::empty()
    } else {
        instances_upto(nodes, t, n - 1) + Seq::new(count_of(nodes[n - 1].1.types, t), |_k: int| (n - 1) as usize)
    }
}

/// A sum over the first `n` nodes.
pub open spec fn sum_upto(nodes: Seq<(Seq<char>, NObjectView)>, n: int, f: spec_fn(NObjectView) -> nat) -> nat
    decreases n,
{
    if n <= 0 {
        0
    } else {
        sum_upto(nodes, n - 1, f) + f(nodes[n - 1].1)
    }
}

/// One for a node seen as a subject.
pub open spec fn is_subject() -> spec_fn(NObjectView) -> nat {
    |v: NObjectView| if v.has_subject {
        1nat
    } else {
        0nat
    }
}

/// One for a node never seen as a subject (only referenced).
pub open spec fn is_unresolved() -> spec_fn(NObjectView) -> nat {
    |v: NObjectView| if v.has_subject {
        0nat
    } else {
        1nat
    }
}

/// One for a blank node.
pub open spec fn is_blank() -> spec_fn(NObjectView) -> nat {
    |v: NObjectView| if v.is_blank_node {
        1nat
    } else {
        0nat
    }
}

/// The number of references of a node.
pub open spec fn reference_count() -> spec_fn(NObjectView) -> nat {
    |v: NObjectView| v.references.len()
}

/// The number of literal properties of a node.
pub open spec fn property_count() -> spec_fn(NObjectView) -> nat {
    |v: NObjectView| v.properties.len()
}

proof fn lemma_count_of_push(s: Seq<usize>, x: usize, t: usize)
    ensures
        count_of(s.push(x), t) == count_of(s, t) + if x == t {
            1nat
        } else {
            0nat
        },
{
    assert(s.push(x).drop_last() =~= s);
}

/// `t` occurs in the list exactly when it holds it.
proof fn lemma_count_of_contains(s: Seq<usize>, t: usize)
    ensures
        (count_of(s, t) > 0) == s.contains(t),
    decreases s.len(),
{
    if s.len() > 0 {
        lemma_count_of_contains(s.drop_last(), t);
        if s.drop_last().contains(t) {
            let i = choose|i: int| 0 <= i < s.drop_last().len() && s.drop_last()[i] == t;
            assert(s[i] == t);
        }
        if s.contains(t) && s.last() != t {
            let i = choose|i: int| 0 <= i < s.len() && s[i] == t;
            assert(s.drop_last()[i] == t);
        }
    }
}

/// What `add_new` holds, and that it keeps a list free of repeats, with
/// the old list in front.
proof fn lemma_add_new(seen: Seq<usize>, ts: Seq<usize>)
    ensures
        forall|x: usize| #[trigger] add_new(seen, ts).contains(x) == (seen.contains(x) || ts.contains(x)),
        seen.no_duplicates() ==> add_new(seen, ts).no_duplicates(),
        seen.is_prefix_of(add_new(seen, ts)),
    decreases ts.len(),
{
    if ts.len() > 0 {
        lemma_add_new(seen, ts.drop_last());
        let s1 = add_new(seen, ts.drop_last());
        assert forall|x: usize| #[trigger] add_new(seen, ts).contains(x) == (seen.contains(x) || ts.contains(x)) by {
            if ts.drop_last().contains(x) {
                let i = choose|i: int| 0 <= i < ts.drop_last().len() && ts.drop_last()[i] == x;
                assert(ts[i] == x);
            }
            if ts.contains(x) && x != ts.last() {
                let i = choose|i: int| 0 <= i < ts.len() && ts[i] == x;
                assert(ts.drop_last()[i] == x);
            }
            if !s1.contains(ts.last()) {
                if s1.push(ts.last()).contains(x) && x != ts.last() {
                    let i = choose|i: int| 0 <= i < s1.push(ts.last()).len() && s1.push(ts.last())[i] == x;
                    assert(s1[i] == x);
                }
                if s1.contains(x) {
                    let i = choose|i: int| 0 <= i < s1.len() && s1[i] == x;
                    assert(s1.push(ts.last())[i] == x);
                }
                assert(s1.push(ts.last())[s1.len() as int] == ts.last());
            }
        }
        if seen.no_duplicates() && !s1.contains(ts.last()) {
            let s2 = s1.push(ts.last());
            assert forall|i: int, j: int| 0 <= i < s2.len() && 0 <= j < s2.len() && i != j implies s2[i] != s2[j] by {
                if i < s1.len() && j < s1.len() {
                } else if i == s1.len() {
                    assert(s1.contains(s2[j]) ==> s2[j] != ts.last());
                    assert(s1[j] == s2[j]);
                } else {
                    assert(s1[i] == s2[i]);
                }
            }
        }
    }
}

/// A type is seen among the first `n` nodes exactly when one of them has
/// it; the types seen are listed once each.
pub proof fn lemma_types_seen(nodes: Seq<(Seq<char>, NObjectView)>, n: int, t: usize)
    requires
        0 <= n <= nodes.len(),
    ensures
        types_seen(nodes, n).contains(t) == exists|i: int| 0 <= i < n && #[trigger] nodes[i].1.types.contains(t),
        types_seen(nodes, n).no_duplicates(),
    decreases n,
{
    if n > 0 {
        lemma_types_seen(nodes, n - 1, t);
        lemma_add_new(types_seen(nodes, n - 1), nodes[n - 1].1.types);
        if exists|i: int| 0 <= i < n && #[trigger] nodes[i].1.types.contains(t) {
            let i = choose|i: int| 0 <= i < n && #[trigger] nodes[i].1.types.contains(t);
            if i < n - 1 {
                assert(exists|i: int| 0 <= i < n - 1 && #[trigger] nodes[i].1.types.contains(t));
            }
        }
    }
}

/// The instances of a type the first `n` nodes have not: none.
proof fn lemma_no_instances(nodes: Seq<(Seq<char>, NObjectView)>, n: int, t: usize)
    requires
        0 <= n <= nodes.len(),
        !types_seen(nodes, n).contains(t),
    ensures
        instances_upto(nodes, t, n) == Seq::<usize>::empty(),
    decreases n,
{
    if n > 0 {
        lemma_types_seen(nodes, n, t);
        lemma_types_seen(nodes, n - 1, t);
        lemma_no_instances(nodes, n - 1, t);
        assert(!nodes[n - 1].1.types.contains(t));
        lemma_count_of_contains(nodes[n - 1].1.types, t);
        assert(instances_upto(nodes, t, n) =~= Seq::<usize>::empty());
    }
}

/// A type the first `n` nodes have not has no reverse reference counts.
proof fn lemma_no_rev_counts(nodes: Seq<(Seq<char>, NObjectView)>, n: int, t: usize, p: usize)
    requires
        0 <= n <= nodes.len(),
        !types_seen(nodes, n).contains(t),
    ensures
        rev_count_upto(nodes, t, p, n) == 0,
    decreases n,
{
    if n > 0 {
        lemma_types_seen(nodes, n, t);
        lemma_types_seen(nodes, n - 1, t);
        lemma_no_rev_counts(nodes, n - 1, t, p);
        assert(!nodes[n - 1].1.types.contains(t));
        lemma_count_of_contains(nodes[n - 1].1.types, t);
        assert(count_of(nodes[n - 1].1.types, t) == 0);
        assert(0 * pred_count(nodes[n - 1].1.reverse_references, p) == 0);
    }
}

/// Law: the instances of a type are exactly the nodes that have it, in
/// ascending order.
pub proof fn lemma_instances_are_typed_nodes(nodes: Seq<(Seq<char>, NObjectView)>, n: int, t: usize)
    requires
        0 <= n <= nodes.len(),
        nodes.len() <= usize::MAX,
    ensures
        forall|x: usize| #[trigger] instances_upto(nodes, t, n).contains(x) ==> (x as int) < n && nodes[x as int].1.types.contains(t),
        forall|i: int| 0 <= i < n && #[trigger] nodes[i].1.types.contains(t) ==> instances_upto(nodes, t, n).contains(i as usize),
        forall|a: int, b: int|
            0 <= a < b < instances_upto(nodes, t, n).len() ==> #[trigger] instances_upto(nodes, t, n)[a]
                <= #[trigger] instances_upto(nodes, t, n)[b],
    decreases n,
{
    if n > 0 {
        lemma_instances_are_typed_nodes(nodes, n - 1, t);
        let prev = instances_upto(nodes, t, n - 1);
        let c = count_of(nodes[n - 1].1.types, t);
        let tail = Seq::new(c, |_k: int| (n - 1) as usize);
        let all = instances_upto(nodes, t, n);
        assert(all == prev + tail);
        lemma_count_of_contains(nodes[n - 1].1.types, t);
        assert forall|x: usize| #[trigger] all.contains(x) implies (x as int) < n && nodes[x as int].1.types.contains(t) by {
            let w = choose|w: int| 0 <= w < all.len() && all[w] == x;
            if w < prev.len() {
                assert(prev[w] == all[w]);
                assert(prev.contains(x));
            } else {
                assert(all[w] == tail[w - prev.len()]);
                assert(x as int == n - 1);
            }
        }
        assert forall|i: int| 0 <= i < n && #[trigger] nodes[i].1.types.contains(t) implies all.contains(i as usize) by {
            if i < n - 1 {
                assert(prev.contains(i as usize));
                let w = choose|w: int| 0 <= w < prev.len() && prev[w] == i as usize;
                assert(all[w] == prev[w]);
            } else {
                assert(all[prev.len() as int] == tail[0]);
            }
        }
        assert forall|a: int, b: int| 0 <= a < b < all.len() implies #[trigger] all[a] <= #[trigger] all[b] by {
            if b < prev.len() {
                assert(all[a] == prev[a] && all[b] == prev[b]);
            } else if a >= prev.len() {
                assert(all[a] == tail[a - prev.len()] && all[b] == tail[b - prev.len()]);
            } else {
                assert(all[a] == prev[a]);
                assert(prev.contains(prev[a]));
                assert(all[b] == tail[b - prev.len()]);
            }
        }
    }
}

/// How many references (or reverse references) have predicate `p`.
pub open spec fn pred_count(refs: Seq<(usize, usize)>, p: usize) -> nat
    decreases refs.len(),
{
    if refs.len() == 0 {
        0
    } else {
        pred_count(refs.drop_last(), p) + if refs.last().0 == p {
            1nat
        } else {
            0nat
        }
    }
}

/// The reverse references by predicate `p` of the instances of type `t`
/// among the first `n` nodes, counted once for each time a node's types
/// list `t`.
pub open spec fn rev_count_upto(nodes: Seq<(Seq<char>, NObjectView)>, t: usize, p: usize, n: int) -> nat
    decreases n,
{
    if n <= 0 {
        0
    } else {
        rev_count_upto(nodes, t, p, n - 1) + count_of(nodes[n - 1].1.types, t) * pred_count(nodes[n - 1].1.reverse_references, p)
    }
}

/// The number of type and reverse reference pairs of the first `n` nodes:
/// a bound for every reverse reference count.
pub open spec fn rev_work_upto(nodes: Seq<(Seq<char>, NObjectView)>, n: int) -> nat
    decreases n,
{
    if n <= 0 {
        0
    } else {
        rev_work_upto(nodes, n - 1) + nodes[n - 1].1.types.len() * nodes[n - 1].1.reverse_references.len()
    }
}

/// The count for `p` in a list of counts by key: the value of its entry,
/// zero without one.
pub open spec fn pair_value(v: Seq<(usize, u32)>, p: usize) -> nat {
    if exists|i: int| 0 <= i < v.len() && (#[trigger] v[i]).0 == p {
        v[choose|i: int| 0 <= i < v.len() && (#[trigger] v[i]).0 == p].1 as nat
    } else {
        0
    }
}

/// No key has two entries, and every count is positive.
pub open spec fn counts_wf(v: Seq<(usize, u32)>) -> bool {
    &&& forall|i: int, j: int| 0 <= i < j < v.len() ==> (#[trigger] v[i]).0 != (#[trigger] v[j]).0
    &&& forall|i: int| 0 <= i < v.len() ==> (#[trigger] v[i]).1 > 0
}

/// In a list without repeated keys, the count of a key is the value at
/// its entry.
proof fn lemma_pair_value_distinct(v: Seq<(usize, u32)>, i: int)
    requires
        forall|a: int, b: int| 0 <= a < b < v.len() ==> (#[trigger] v[a]).0 != (#[trigger] v[b]).0,
        0 <= i < v.len(),
    ensures
        pair_value(v, v[i].0) == v[i].1,
{
    let k = choose|k: int| 0 <= k < v.len() && (#[trigger] v[k]).0 == v[i].0;
    if k != i {
        if k < i {
            assert(v[k].0 != v[i].0);
        } else {
            assert(v[i].0 != v[k].0);
        }
    }
}

proof fn lemma_count_of_le_len(s: Seq<usize>, t: usize)
    ensures
        count_of(s, t) <= s.len(),
    decreases s.len(),
{
    if s.len() > 0 {
        lemma_count_of_le_len(s.drop_last(), t);
    }
}

proof fn lemma_pred_count_le_len(refs: Seq<(usize, usize)>, p: usize)
    ensures
        pred_count(refs, p) <= refs.len(),
    decreases refs.len(),
{
    if refs.len() > 0 {
        lemma_pred_count_le_len(refs.drop_last(), p);
    }
}

proof fn lemma_pred_count_push(refs: Seq<(usize, usize)>, x: (usize, usize), p: usize)
    ensures
        pred_count(refs.push(x), p) == pred_count(refs, p) + if x.0 == p {
            1nat
        } else {
            0nat
        },
{
    assert(refs.push(x).drop_last() =~= refs);
}

/// A prefix has no more references by a predicate than the whole list.
proof fn lemma_pred_count_prefix(refs: Seq<(usize, usize)>, k: int, p: usize)
    requires
        0 <= k <= refs.len(),
    ensures
        pred_count(refs.take(k), p) <= pred_count(refs, p),
    decreases refs.len() - k,
{
    if k < refs.len() {
        lemma_pred_count_prefix(refs, k + 1, p);
        assert(refs.take(k + 1).drop_last() =~= refs.take(k));
    } else {
        assert(refs.take(k) =~= refs);
    }
}

/// Every reverse reference count is within the work bound.
proof fn lemma_rev_count_bound(nodes: Seq<(Seq<char>, NObjectView)>, t: usize, p: usize, n: int)
    requires
        0 <= n <= nodes.len(),
    ensures
        rev_count_upto(nodes, t, p, n) <= rev_work_upto(nodes, n),
    decreases n,
{
    if n > 0 {
        lemma_rev_count_bound(nodes, t, p, n - 1);
        let v = nodes[n - 1].1;
        lemma_count_of_le_len(v.types, t);
        lemma_pred_count_le_len(v.reverse_references, p);
        let a = count_of(v.types, t);
        let b = pred_count(v.reverse_references, p);
        let la = v.types.len();
        let lb = v.reverse_references.len();
        assert(a * b <= la * lb) by (nonlinear_arith)
            requires
                a <= la,
                b <= lb,
        ;
    }
}

proof fn lemma_rev_work_monotone(nodes: Seq<(Seq<char>, NObjectView)>, i: int, j: int)
    requires
        i <= j,
    ensures
        rev_work_upto(nodes, i) <= rev_work_upto(nodes, j),
    decreases j - i,
{
    if i < j {
        lemma_rev_work_monotone(nodes, i, j - 1);
    }
}

/// A sum of values of at most one is at most the number of nodes.
proof fn lemma_sum_le_count(nodes: Seq<(Seq<char>, NObjectView)>, n: int, f: spec_fn(NObjectView) -> nat)
    requires
        forall|v: NObjectView| #[trigger] f(v) <= 1,
    ensures
        n >= 0 ==> sum_upto(nodes, n, f) <= n,
    decreases n,
{
    if n > 0 {
        lemma_sum_le_count(nodes, n - 1, f);
        assert(f(nodes[n - 1].1) <= 1);
    }
}

/// Sums over more nodes are no smaller.
proof fn lemma_sum_monotone(nodes: Seq<(Seq<char>, NObjectView)>, i: int, j: int, f: spec_fn(NObjectView) -> nat)
    requires
        i <= j,
    ensures
        sum_upto(nodes, i, f) <= sum_upto(nodes, j, f),
    decreases j - i,
{
    if i < j {
        lemma_sum_monotone(nodes, i, j - 1, f);
    }
}

/// A type of the loaded data with its instances (node indexes).
pub struct TypeData {
    pub type_index: IriIndex,
    pub instances: Vec<IriIndex>,
    pub filtered_instances: Vec<IriIndex>,
    pub properties: Vec<(IriIndex, DataPropCharacteristics)>,
    pub references: Vec<(IriIndex, ReferenceCharacteristics)>,
    pub rev_references: Vec<(IriIndex, u32)>,
}

impl TypeData {
    /// A type without instances.
    pub fn new(type_index: IriIndex) -> (res: Self)
        ensures
            res.type_index == type_index,
            res.instances@ == Seq::<IriIndex>::empty(),
            res.filtered_instances@ == Seq::<IriIndex>::empty(),
            res.rev_references@ == Seq::<(IriIndex, u32)>::empty(),
            res.properties@ == Seq::<(IriIndex, DataPropCharacteristics)>::empty(),
            res.references@ == Seq::<(IriIndex, ReferenceCharacteristics)>::empty(),
    {
        TypeData {
            type_index,
            instances: Vec::new(),
            filtered_instances: Vec::new(),
            properties: Vec::new(),
            references: Vec::new(),
            rev_references: Vec::new(),
        }
    }

    /// Adds to the count of reverse references by a predicate.
    pub fn count_rev_reference(&mut self, reference_index: IriIndex, count_number: u32)
        requires
            forall|i: int, j: int| 0 <= i < j < old(self).rev_references@.len() ==> (#[trigger] old(self).rev_references@[i]).0
                != (#[trigger] old(self).rev_references@[j]).0,
            pair_value(old(self).rev_references@, reference_index) + count_number <= u32::MAX,
        ensures
            forall|i: int, j: int| 0 <= i < j < final(self).rev_references@.len() ==> (#[trigger] final(self).rev_references@[i]).0
                != (#[trigger] final(self).rev_references@[j]).0,
            forall|q: usize| #[trigger] pair_value(final(self).rev_references@, q) == pair_value(old(self).rev_references@, q)
                + if q == reference_index {
                count_number as nat
            } else {
                0nat
            },
            exists|i: int| 0 <= i < final(self).rev_references@.len() && (#[trigger] final(self).rev_references@[i]).0 == reference_index,
            forall|i: int|
                0 <= i < final(self).rev_references@.len() && (#[trigger] final(self).rev_references@[i]).0 != reference_index ==> exists|
                    j: int,
                | 0 <= j < old(self).rev_references@.len() && old(self).rev_references@[j] == final(self).rev_references@[i],
            final(self).type_index == old(self).type_index,
            final(self).instances == old(self).instances,
            final(self).filtered_instances == old(self).filtered_instances,
            final(self).properties == old(self).properties,
            final(self).references == old(self).references,
    {
        let ghost before = self.rev_references@;
        let mut i: usize = 0;
        while i < self.rev_references.len()
            invariant
                self.rev_references@ == before,
                before == old(self).rev_references@,
                self.type_index == old(self).type_index,
                self.instances == old(self).instances,
                self.filtered_instances == old(self).filtered_instances,
                self.properties == old(self).properties,
                self.references == old(self).references,
                forall|a: int, b: int| 0 <= a < b < before.len() ==> (#[trigger] before[a]).0 != (#[trigger] before[b]).0,
                pair_value(before, reference_index) + count_number <= u32::MAX,
                i <= before.len(),
                forall|k: int| 0 <= k < i ==> (#[trigger] before[k]).0 != reference_index,
            decreases before.len() - i,
        {
            if self.rev_references[i].0 == reference_index {
                let (p, c) = self.rev_references[i];
                proof {
                    lemma_pair_value_distinct(before, i as int);
                }
                self.rev_references.set(i, (p, c + count_number));
                proof {
                    let after = self.rev_references@;
                    assert forall|q: usize| #[trigger] pair_value(after, q) == pair_value(before, q) + if q == reference_index {
                        count_number as nat
                    } else {
                        0nat
                    } by {
                        assert forall|a: int, b: int| 0 <= a < b < after.len() implies (#[trigger] after[a]).0 != (#[trigger] after[b]).0 by {
                            assert(before[a].0 != before[b].0);
                        }
                        lemma_pair_value_distinct(after, i as int);
                        if q != reference_index {
                            if exists|k: int| 0 <= k < before.len() && (#[trigger] before[k]).0 == q {
                                let k = choose|k: int| 0 <= k < before.len() && (#[trigger] before[k]).0 == q;
                                lemma_pair_value_distinct(before, k);
                                lemma_pair_value_distinct(after, k);
                            } else {
                                assert forall|k: int| 0 <= k < after.len() implies (#[trigger] after[k]).0 != q by {
                                    assert(after[k].0 == before[k].0);
                                }
                            }
                        }
                    }
                    assert(after[i as int].0 == reference_index);
                    assert forall|a: int|
                        0 <= a < after.len() && (#[trigger] after[a]).0 != reference_index implies exists|j: int|
                        0 <= j < before.len() && before[j] == after[a] by {
                        assert(before[a] == after[a]);
                    }
                }
                return;
            }
            i += 1;
        }
        self.rev_references.push((reference_index, count_number));
        proof {
            let after = self.rev_references@;
            assert forall|a: int, b: int| 0 <= a < b < after.len() implies (#[trigger] after[a]).0 != (#[trigger] after[b]).0 by {
                if b < before.len() {
                    assert(before[a].0 != before[b].0);
                }
            }
            assert forall|q: usize| #[trigger] pair_value(after, q) == pair_value(before, q) + if q == reference_index {
                count_number as nat
            } else {
                0nat
            } by {
                lemma_pair_value_distinct(after, before.len() as int);
                if q != reference_index {
                    if exists|k: int| 0 <= k < before.len() && (#[trigger] before[k]).0 == q {
                        let k = choose|k: int| 0 <= k < before.len() && (#[trigger] before[k]).0 == q;
                        lemma_pair_value_distinct(before, k);
                        lemma_pair_value_distinct(after, k);
                    } else {
                        assert forall|k: int| 0 <= k < after.len() implies (#[trigger] after[k]).0 != q by {
                            if k < before.len() {
                                assert(after[k].0 == before[k].0);
                            }
                        }
                    }
                } else {
                    assert(!(exists|k: int| 0 <= k < before.len() && (#[trigger] before[k]).0 == q));
                }
            }
            assert(after[before.len() as int].0 == reference_index);
            assert forall|a: int|
                0 <= a < after.len() && (#[trigger] after[a]).0 != reference_index implies exists|j: int|
                0 <= j < before.len() && before[j] == after[a] by {
                assert(before[a] == after[a]);
            }
        }
    }
}

impl TypeData {
    /// Counts the reverse references of one instance, each by its
    /// predicate.
    fn count_reverse_of(&mut self, revs: &Vec<(IriIndex, IriIndex)>)
        requires
            counts_wf(old(self).rev_references@),
            forall|p: usize| #[trigger] pair_value(old(self).rev_references@, p) + pred_count(revs@, p) <= u32::MAX,
        ensures
            counts_wf(final(self).rev_references@),
            forall|p: usize| #[trigger] pair_value(final(self).rev_references@, p) == pair_value(old(self).rev_references@, p)
                + pred_count(revs@, p),
            final(self).type_index == old(self).type_index,
            final(self).instances == old(self).instances,
            final(self).filtered_instances == old(self).filtered_instances,
            final(self).properties == old(self).properties,
            final(self).references == old(self).references,
    {
        let mut r: usize = 0;
        while r < revs.len()
            invariant
                r <= revs@.len(),
                counts_wf(self.rev_references@),
                forall|p: usize| #[trigger] pair_value(old(self).rev_references@, p) + pred_count(revs@, p) <= u32::MAX,
                forall|p: usize| #[trigger] pair_value(self.rev_references@, p) == pair_value(old(self).rev_references@, p)
                    + pred_count(revs@.take(r as int), p),
                self.type_index == old(self).type_index,
                self.instances == old(self).instances,
                self.filtered_instances == old(self).filtered_instances,
                self.properties == old(self).properties,
                self.references == old(self).references,
            decreases revs@.len() - r,
        {
            let p = revs[r].0;
            let ghost before = self.rev_references@;
            proof {
                assert(revs@.take(r + 1) =~= revs@.take(r as int).push(revs@[r as int]));
                lemma_pred_count_push(revs@.take(r as int), revs@[r as int], p);
                lemma_pred_count_prefix(revs@, r + 1, p);
            }
            self.count_rev_reference(p, 1);
            proof {
                let after = self.rev_references@;
                assert forall|q: usize| #[trigger] pair_value(after, q) == pair_value(old(self).rev_references@, q) + pred_count(
                    revs@.take(r + 1),
                    q,
                ) by {
                    lemma_pred_count_push(revs@.take(r as int), revs@[r as int], q);
                }
                assert forall|a: int| 0 <= a < after.len() implies (#[trigger] after[a]).1 > 0 by {
                    if after[a].0 == p {
                        lemma_pair_value_distinct(after, a);
                    } else {
                        let j = choose|j: int| 0 <= j < before.len() && before[j] == after[a];
                    }
                }
            }
            r += 1;
        }
        proof {
            assert(revs@.take(revs@.len() as int) =~= revs@);
        }
    }
}

/// What the table knows of a literal property of a type: how many values
/// it has over all instances, the longest value (in bytes), and the most
/// and fewest values one instance has.
#[derive(Clone, Copy, PartialEq, Eq, Structural, Debug)]
pub struct DataPropCharacteristics {
    pub count: u32,
    pub max_len: u32,
    pub max_cardinality: u32,
    pub min_cardinality: u32,
}

/// The length in bytes of a literal's text: a short literal's entry in the
/// short literal table (zero for an index the table does not have), else
/// the length of its span in the literal cache.
pub open spec fn literal_text_len(indexers: Indexers, l: Literal) -> u32 {
    match l {
        Literal::StringShort(i) => if i < indexers.short_literal_indexer@.len() {
            (encode_utf8(indexers.short_literal_indexer@[i as int]).len() as usize) as u32
        } else {
            0
        },
        Literal::String(span) => span.len,
        Literal::LangString(_, span) => span.len,
        Literal::TypedString(_, span) => span.len,
    }
}

/// The length of a literal's text (see `literal_text_len`).
pub fn literal_len(indexers: &Indexers, l: &Literal) -> (res: u32)
    requires
        indexers.wf(),
    ensures
        res == literal_text_len(*indexers, *l),
{
    match l {
        Literal::StringShort(i) => {
            if *i < indexers.short_literal_indexer.len() {
                proof {
                    assert((*i as u32) as int == *i as int);
                }
                match indexers.short_literal_indexer.index_to_str(*i) {
                    Some(text) => {
                        let n = text.len();
                        assert(text@ == indexers.short_literal_indexer@[*i as int]);
                        assert(n == encode_utf8(indexers.short_literal_indexer@[*i as int]).len() as usize);
                        #[verifier::truncate]
                        (n as u32)
                    },
                    None => 0,
                }
            } else {
                0
            }
        },
        Literal::String(span) => span.len,
        Literal::LangString(_, span) => span.len,
        Literal::TypedString(_, span) => span.len,
    }
}

/// How many properties have predicate `p`.
pub open spec fn prop_count(props: Seq<PredicateLiteral>, p: usize) -> nat
    decreases props.len(),
{
    if props.len() == 0 {
        0
    } else {
        prop_count(props.drop_last(), p) + if props.last().0 == p {
            1nat
        } else {
            0nat
        }
    }
}

/// The longest text among the properties with predicate `p`, starting
/// from `m`.
pub open spec fn prop_max_len(indexers: Indexers, props: Seq<PredicateLiteral>, p: usize, m: u32) -> u32
    decreases props.len(),
{
    if props.len() == 0 {
        m
    } else {
        let before = prop_max_len(indexers, props.drop_last(), p, m);
        let l = literal_text_len(indexers, props.last().1);
        if props.last().0 == p && l > before {
            l
        } else {
            before
        }
    }
}

/// The entries by predicate, as a map.
pub open spec fn props_map(v: Seq<(usize, DataPropCharacteristics)>) -> Map<usize, DataPropCharacteristics> {
    Map::new(
        |p: usize| exists|i: int| 0 <= i < v.len() && (#[trigger] v[i]).0 == p,
        |p: usize| v[choose|i: int| 0 <= i < v.len() && (#[trigger] v[i]).0 == p].1,
    )
}

/// One more instance with these properties: a known predicate adds the
/// instance's number of values to its count and cardinalities and its
/// longest value to the length; a predicate new to the type starts from
/// this instance alone.
pub open spec fn prop_step(
    m: Map<usize, DataPropCharacteristics>,
    props: Seq<PredicateLiteral>,
    indexers: Indexers,
) -> Map<usize, DataPropCharacteristics> {
    Map::new(
        |p: usize| m.contains_key(p) || prop_count(props, p) > 0,
        |p: usize|
            if m.contains_key(p) {
                updated_stat(m[p], props, p, indexers)
            } else {
                fresh_stat(props, p, indexers)
            },
    )
}

/// A known predicate's statistics after one more instance.
pub open spec fn updated_stat(
    old: DataPropCharacteristics,
    props: Seq<PredicateLiteral>,
    p: usize,
    indexers: Indexers,
) -> DataPropCharacteristics {
    let card = prop_count(props, p);
    DataPropCharacteristics {
        count: (old.count + card) as u32,
        max_len: prop_max_len(indexers, props, p, old.max_len),
        max_cardinality: if card > old.max_cardinality {
            card as u32
        } else {
            old.max_cardinality
        },
        min_cardinality: if card < old.min_cardinality {
            card as u32
        } else {
            old.min_cardinality
        },
    }
}

/// A predicate's statistics from its first instance.
pub open spec fn fresh_stat(props: Seq<PredicateLiteral>, p: usize, indexers: Indexers) -> DataPropCharacteristics {
    let card = prop_count(props, p);
    DataPropCharacteristics {
        count: card as u32,
        max_len: prop_max_len(indexers, props, p, 0),
        max_cardinality: card as u32,
        min_cardinality: card as u32,
    }
}

/// No predicate has two entries.
pub open spec fn prop_keys_distinct(v: Seq<(usize, DataPropCharacteristics)>) -> bool {
    forall|i: int, j: int| 0 <= i < j < v.len() ==> (#[trigger] v[i]).0 != (#[trigger] v[j]).0
}

/// In a list without repeated predicates, the map has each entry.
proof fn lemma_props_map(v: Seq<(usize, DataPropCharacteristics)>, i: int)
    requires
        prop_keys_distinct(v),
        0 <= i < v.len(),
    ensures
        props_map(v).contains_key(v[i].0),
        props_map(v)[v[i].0] == v[i].1,
{
    let k = choose|k: int| 0 <= k < v.len() && (#[trigger] v[k]).0 == v[i].0;
    if k != i {
        if k < i {
            assert(v[k].0 != v[i].0);
        } else {
            assert(v[i].0 != v[k].0);
        }
    }
}

/// A predicate occurs among the properties exactly when it is counted.
proof fn lemma_prop_count_contains(props: Seq<PredicateLiteral>, p: usize)
    ensures
        (prop_count(props, p) > 0) == (exists|j: int| 0 <= j < props.len() && (#[trigger] props[j]).0 == p),
        prop_count(props, p) <= props.len(),
    decreases props.len(),
{
    if props.len() > 0 {
        let d = props.drop_last();
        lemma_prop_count_contains(d, p);
        if exists|j: int| 0 <= j < d.len() && (#[trigger] d[j]).0 == p {
            let j = choose|j: int| 0 <= j < d.len() && (#[trigger] d[j]).0 == p;
            assert(props[j].0 == p);
        }
        if exists|j: int| 0 <= j < props.len() && (#[trigger] props[j]).0 == p {
            let j = choose|j: int| 0 <= j < props.len() && (#[trigger] props[j]).0 == p;
            if j < d.len() {
                assert(d[j].0 == p);
            }
        }
    }
}


/// The statistics after `c` more instances with the same properties.
pub open spec fn prop_steps(
    m: Map<usize, DataPropCharacteristics>,
    props: Seq<PredicateLiteral>,
    c: nat,
    indexers: Indexers,
) -> Map<usize, DataPropCharacteristics>
    decreases c,
{
    if c == 0 {
        m
    } else {
        prop_step(prop_steps(m, props, (c - 1) as nat, indexers), props, indexers)
    }
}

/// The property statistics of type `t` over the first `n` nodes: each node
/// counts once for each time its types list `t`.
pub open spec fn props_upto(nodes: Seq<(Seq<char>, NObjectView)>, t: usize, n: int, indexers: Indexers) -> Map<
    usize,
    DataPropCharacteristics,
>
    decreases n,
{
    if n <= 0 {
        Map::empty()
    } else {
        prop_steps(props_upto(nodes, t, n - 1, indexers), nodes[n - 1].1.properties, count_of(nodes[n - 1].1.types, t), indexers)
    }
}

/// The longest text starts from `m` and covers every value with predicate
/// `p`; it is `m` or the length of one of those values.
proof fn lemma_prop_max_len_bounds(indexers: Indexers, props: Seq<PredicateLiteral>, p: usize, m: u32)
    ensures
        prop_max_len(indexers, props, p, m) >= m,
        forall|j: int|
            0 <= j < props.len() && (#[trigger] props[j]).0 == p ==> prop_max_len(indexers, props, p, m)
                >= literal_text_len(indexers, props[j].1),
        prop_max_len(indexers, props, p, m) == m || exists|j: int|
            0 <= j < props.len() && (#[trigger] props[j]).0 == p && prop_max_len(indexers, props, p, m)
                == literal_text_len(indexers, props[j].1),
    decreases props.len(),
{
    if props.len() > 0 {
        let d = props.drop_last();
        lemma_prop_max_len_bounds(indexers, d, p, m);
        assert forall|j: int|
            0 <= j < props.len() && (#[trigger] props[j]).0 == p implies prop_max_len(indexers, props, p, m)
                >= literal_text_len(indexers, props[j].1) by {
            if j < d.len() {
                assert(props[j] == d[j]);
            }
        }
        let r = prop_max_len(indexers, props, p, m);
        if r != m {
            if r == prop_max_len(indexers, d, p, m) {
                let j = choose|j: int|
                    0 <= j < d.len() && (#[trigger] d[j]).0 == p && prop_max_len(indexers, d, p, m) == literal_text_len(
                        indexers,
                        d[j].1,
                    );
                assert(props[j] == d[j]);
            } else {
                assert(props[props.len() - 1] == props.last());
            }
        }
    }
}

/// One more instance keeps every predicate, never lowers a longest text,
/// and covers the instance's values.
proof fn lemma_prop_step_max_len(m: Map<usize, DataPropCharacteristics>, props: Seq<PredicateLiteral>, indexers: Indexers)
    ensures
        forall|p: usize| #[trigger] m.contains_key(p) ==> prop_step(m, props, indexers).contains_key(p) && prop_step(
            m,
            props,
            indexers,
        )[p].max_len >= m[p].max_len,
        forall|j: int|
            0 <= j < props.len() ==> prop_step(m, props, indexers).contains_key((#[trigger] props[j]).0) && prop_step(
                m,
                props,
                indexers,
            )[props[j].0].max_len >= literal_text_len(indexers, props[j].1),
{
    assert forall|p: usize| #[trigger] m.contains_key(p) implies prop_step(m, props, indexers).contains_key(p) && prop_step(
        m,
        props,
        indexers,
    )[p].max_len >= m[p].max_len by {
        lemma_prop_max_len_bounds(indexers, props, p, m[p].max_len);
    }
    assert forall|j: int| 0 <= j < props.len() implies prop_step(m, props, indexers).contains_key(
        (#[trigger] props[j]).0,
    ) && prop_step(m, props, indexers)[props[j].0].max_len >= literal_text_len(indexers, props[j].1) by {
        let p = props[j].0;
        lemma_prop_count_contains(props, p);
        if m.contains_key(p) {
            lemma_prop_max_len_bounds(indexers, props, p, m[p].max_len);
        } else {
            lemma_prop_max_len_bounds(indexers, props, p, 0);
        }
    }
}

/// Repeated instances keep every predicate and never lower a longest text;
/// at least one covers the instance's values.
proof fn lemma_prop_steps_max_len(
    m: Map<usize, DataPropCharacteristics>,
    props: Seq<PredicateLiteral>,
    c: nat,
    indexers: Indexers,
)
    ensures
        forall|p: usize| #[trigger] m.contains_key(p) ==> prop_steps(m, props, c, indexers).contains_key(p) && prop_steps(
            m,
            props,
            c,
            indexers,
        )[p].max_len >= m[p].max_len,
        c > 0 ==> forall|j: int|
            0 <= j < props.len() ==> prop_steps(m, props, c, indexers).contains_key((#[trigger] props[j]).0)
                && prop_steps(m, props, c, indexers)[props[j].0].max_len >= literal_text_len(indexers, props[j].1),
    decreases c,
{
    if c > 0 {
        let prev = prop_steps(m, props, (c - 1) as nat, indexers);
        lemma_prop_steps_max_len(m, props, (c - 1) as nat, indexers);
        lemma_prop_step_max_len(prev, props, indexers);
    }
}

/// From `a` to `b` nodes the statistics keep every predicate and never
/// lower a longest text.
proof fn lemma_props_upto_grow(nodes: Seq<(Seq<char>, NObjectView)>, t: usize, a: int, b: int, indexers: Indexers)
    requires
        0 <= a <= b,
    ensures
        forall|p: usize| #[trigger] props_upto(nodes, t, a, indexers).contains_key(p) ==> props_upto(
            nodes,
            t,
            b,
            indexers,
        ).contains_key(p) && props_upto(nodes, t, b, indexers)[p].max_len >= props_upto(nodes, t, a, indexers)[p].max_len,
    decreases b - a,
{
    if b > a {
        lemma_props_upto_grow(nodes, t, a, b - 1, indexers);
        lemma_prop_steps_max_len(
            props_upto(nodes, t, b - 1, indexers),
            nodes[b - 1].1.properties,
            count_of(nodes[b - 1].1.types, t),
            indexers,
        );
    }
}

/// Law: the longest text of a type's predicate covers every value with
/// that predicate in every instance of the type among the first `n` nodes,
/// not only in the first one: the statistics hold the predicate, and its
/// `max_len` is at least the length of each such value's text.
pub proof fn lemma_prop_max_len_covers_instances(
    nodes: Seq<(Seq<char>, NObjectView)>,
    t: usize,
    n: int,
    indexers: Indexers,
    i: int,
    j: int,
)
    requires
        0 <= i < n <= nodes.len(),
        nodes[i].1.types.contains(t),
        0 <= j < nodes[i].1.properties.len(),
    ensures
        props_upto(nodes, t, n, indexers).contains_key(nodes[i].1.properties[j].0),
        props_upto(nodes, t, n, indexers)[nodes[i].1.properties[j].0].max_len >= literal_text_len(
            indexers,
            nodes[i].1.properties[j].1,
        ),
{
    let props = nodes[i].1.properties;
    lemma_count_of_contains(nodes[i].1.types, t);
    lemma_prop_steps_max_len(props_upto(nodes, t, i, indexers), props, count_of(nodes[i].1.types, t), indexers);
    assert(props_upto(nodes, t, i + 1, indexers) == prop_steps(
        props_upto(nodes, t, i, indexers),
        props,
        count_of(nodes[i].1.types, t),
        indexers,
    ));
    lemma_props_upto_grow(nodes, t, i + 1, n, indexers);
}

/// How many of the properties have predicate `p`, counted by filtering.
pub open spec fn values_with(props: Seq<PredicateLiteral>, p: usize) -> nat {
    props.filter(|x: PredicateLiteral| x.0 == p).len()
}

/// The counted values are the filtered ones.
proof fn lemma_prop_count_filter(props: Seq<PredicateLiteral>, p: usize)
    ensures
        prop_count(props, p) == values_with(props, p),
    decreases props.len(),
{
    reveal(Seq::filter);
    if props.len() > 0 {
        lemma_prop_count_filter(props.drop_last(), p);
    }
}

/// One instance more keeps every predicate and its greatest number of
/// values per instance, and that number covers this instance's values.
proof fn lemma_prop_steps_max_card(
    m: Map<usize, DataPropCharacteristics>,
    props: Seq<PredicateLiteral>,
    c: nat,
    indexers: Indexers,
)
    requires
        props.len() <= u32::MAX,
    ensures
        forall|p: usize| #[trigger] m.contains_key(p) ==> prop_steps(m, props, c, indexers).contains_key(p) && prop_steps(
            m,
            props,
            c,
            indexers,
        )[p].max_cardinality >= m[p].max_cardinality,
        c > 0 ==> forall|p: usize|
            #[trigger] prop_steps(m, props, c, indexers).contains_key(p) ==> prop_steps(m, props, c, indexers)[p].max_cardinality
                >= values_with(props, p),
    decreases c,
{
    if c > 0 {
        let prev = prop_steps(m, props, (c - 1) as nat, indexers);
        lemma_prop_steps_max_card(m, props, (c - 1) as nat, indexers);
        let next = prop_step(prev, props, indexers);
        assert forall|p: usize| #[trigger] next.contains_key(p) implies next[p].max_cardinality >= values_with(props, p) by {
            lemma_prop_count_filter(props, p);
            lemma_prop_count_contains(props, p);
        }
        assert forall|p: usize| #[trigger] prev.contains_key(p) implies next.contains_key(p) && next[p].max_cardinality
            >= prev[p].max_cardinality by {
            lemma_prop_count_contains(props, p);
        }
    }
}

/// From `a` to `b` nodes the greatest number of values per instance never
/// drops.
proof fn lemma_props_upto_max_card_grow(nodes: Seq<(Seq<char>, NObjectView)>, t: usize, a: int, b: int, indexers: Indexers)
    requires
        0 <= a <= b <= nodes.len(),
        forall|i: int| 0 <= i < nodes.len() ==> (#[trigger] nodes[i]).1.properties.len() <= u32::MAX,
    ensures
        forall|p: usize| #[trigger] props_upto(nodes, t, a, indexers).contains_key(p) ==> props_upto(
            nodes,
            t,
            b,
            indexers,
        ).contains_key(p) && props_upto(nodes, t, b, indexers)[p].max_cardinality >= props_upto(
            nodes,
            t,
            a,
            indexers,
        )[p].max_cardinality,
    decreases b - a,
{
    if b > a {
        lemma_props_upto_max_card_grow(nodes, t, a, b - 1, indexers);
        assert(nodes[b - 1].1.properties.len() <= u32::MAX);
        lemma_prop_steps_max_card(
            props_upto(nodes, t, b - 1, indexers),
            nodes[b - 1].1.properties,
            count_of(nodes[b - 1].1.types, t),
            indexers,
        );
    }
}

/// Law: the greatest number of values per instance that a type's predicate
/// has covers every instance of the type: it is at least the number of
/// values with that predicate in each instance.
pub proof fn lemma_prop_max_cardinality_covers_instances(
    nodes: Seq<(Seq<char>, NObjectView)>,
    t: usize,
    n: int,
    indexers: Indexers,
    i: int,
    p: usize,
)
    requires
        0 <= i < n <= nodes.len(),
        nodes[i].1.types.contains(t),
        forall|k: int| 0 <= k < nodes.len() ==> (#[trigger] nodes[k]).1.properties.len() <= u32::MAX,
        props_upto(nodes, t, n, indexers).contains_key(p),
    ensures
        props_upto(nodes, t, n, indexers)[p].max_cardinality >= values_with(nodes[i].1.properties, p),
{
    let props = nodes[i].1.properties;
    assert(nodes[i].1.properties.len() <= u32::MAX);
    lemma_count_of_contains(nodes[i].1.types, t);
    lemma_prop_count_filter(props, p);
    lemma_prop_count_contains(props, p);
    if values_with(props, p) > 0 {
        let j = choose|j: int| 0 <= j < props.len() && (#[trigger] props[j]).0 == p;
        lemma_prop_max_len_covers_instances(nodes, t, i + 1, indexers, i, j);
        lemma_prop_steps_max_card(props_upto(nodes, t, i, indexers), props, count_of(nodes[i].1.types, t), indexers);
        lemma_props_upto_max_card_grow(nodes, t, i + 1, n, indexers);
    }
}

/// The number of values with predicate `p` over the instances of type `t`
/// among the first `n` nodes (a node counted once for each time it lists
/// `t`).
pub open spec fn values_total(nodes: Seq<(Seq<char>, NObjectView)>, t: usize, n: int, p: usize) -> nat
    decreases n,
{
    if n <= 0 {
        0
    } else {
        values_total(nodes, t, n - 1, p) + count_of(nodes[n - 1].1.types, t) * values_with(nodes[n - 1].1.properties, p)
    }
}

/// Repeating an instance `c` times adds `c` times its number of values to
/// a predicate's count; a predicate is held once it has a value.
proof fn lemma_prop_steps_count(
    m: Map<usize, DataPropCharacteristics>,
    props: Seq<PredicateLiteral>,
    c: nat,
    indexers: Indexers,
    p: usize,
)
    requires
        (if m.contains_key(p) { m[p].count as int } else { 0int }) + c * values_with(props, p) <= u32::MAX,
    ensures
        prop_steps(m, props, c, indexers).contains_key(p) == (m.contains_key(p) || (c > 0 && values_with(props, p) > 0)),
        prop_steps(m, props, c, indexers).contains_key(p) ==> prop_steps(m, props, c, indexers)[p].count == (if m.contains_key(
            p,
        ) {
            m[p].count as int
        } else {
            0int
        }) + c * values_with(props, p),
    decreases c,
{
    if c > 0 {
        let k = values_with(props, p);
        let base: int = if m.contains_key(p) {
            m[p].count as int
        } else {
            0int
        };
        assert((c - 1) * k <= c * k) by (nonlinear_arith)
            requires
                c > 0,
                k >= 0,
        ;
        assert(c * k == (c - 1) * k + k) by (nonlinear_arith);
        lemma_prop_steps_count(m, props, (c - 1) as nat, indexers, p);
        lemma_prop_count_filter(props, p);
        lemma_prop_count_contains(props, p);
        let prev = prop_steps(m, props, (c - 1) as nat, indexers);
        if c - 1 == 0 {
            assert(prev == m);
        }
        assert((c - 1) as nat > 0 || prev.contains_key(p) == m.contains_key(p));
        let next = prop_steps(m, props, c, indexers);
        assert(next == prop_step(prev, props, indexers));
        if next.contains_key(p) {
            if prev.contains_key(p) {
                assert(prev[p].count == base + (c - 1) * k);
                assert(next[p] == updated_stat(prev[p], props, p, indexers));
                assert(prev[p].count + k <= u32::MAX);
                assert(next[p].count == prev[p].count + k);
            } else {
                assert(k > 0);
                assert(c == 1);
                assert(!m.contains_key(p));
                assert(next[p] == fresh_stat(props, p, indexers));
                assert(k <= u32::MAX);
                assert(next[p].count == k);
                assert(c * k == k) by (nonlinear_arith)
                    requires
                        c == 1,
                ;
            }
        }
    } else {
        assert(c * values_with(props, p) == 0) by (nonlinear_arith)
            requires
                c == 0,
        ;
    }
}

/// Law: the count of a type's predicate is the number of values with that
/// predicate over all instances of the type, and the statistics hold
/// exactly the predicates that have a value in some instance.
pub proof fn lemma_prop_count_total(nodes: Seq<(Seq<char>, NObjectView)>, t: usize, n: int, indexers: Indexers, p: usize)
    requires
        0 <= n <= nodes.len(),
        values_total(nodes, t, n, p) <= u32::MAX,
    ensures
        props_upto(nodes, t, n, indexers).contains_key(p) == (values_total(nodes, t, n, p) > 0),
        props_upto(nodes, t, n, indexers).contains_key(p) ==> props_upto(nodes, t, n, indexers)[p].count == values_total(
            nodes,
            t,
            n,
            p,
        ),
    decreases n,
{
    if n > 0 {
        lemma_prop_count_total(nodes, t, n - 1, indexers, p);
        let m = props_upto(nodes, t, n - 1, indexers);
        let c = count_of(nodes[n - 1].1.types, t);
        let k = values_with(nodes[n - 1].1.properties, p);
        assert(c * k >= 0) by (nonlinear_arith)
            requires
                c >= 0,
                k >= 0,
        ;
        assert(c * k > 0 <==> (c > 0 && k > 0)) by (nonlinear_arith)
            requires
                c >= 0,
                k >= 0,
        ;
        lemma_prop_steps_count(m, nodes[n - 1].1.properties, c, indexers, p);
    }
}

/// `v` is zero or the text length of a value with predicate `p` in one of
/// the first `n` nodes that has type `t`.
pub open spec fn len_attained(nodes: Seq<(Seq<char>, NObjectView)>, t: usize, n: int, indexers: Indexers, p: usize, v: u32) -> bool {
    v == 0 || exists|i: int, j: int|
        0 <= i < n && nodes[i].1.types.contains(t) && 0 <= j < nodes[i].1.properties.len() && (
        #[trigger] nodes[i].1.properties[j]).0 == p && literal_text_len(indexers, nodes[i].1.properties[j].1) == v
}

/// Every longest text of the map is attained over the first `n` nodes.
pub open spec fn all_attained(
    m: Map<usize, DataPropCharacteristics>,
    nodes: Seq<(Seq<char>, NObjectView)>,
    t: usize,
    n: int,
    indexers: Indexers,
) -> bool {
    forall|p: usize| #[trigger] m.contains_key(p) ==> len_attained(nodes, t, n, indexers, p, m[p].max_len)
}

/// Steps over the properties of node `n - 1`, a node of type `t`, keep
/// every longest text attained over the first `n` nodes.
proof fn lemma_prop_steps_attained(
    m: Map<usize, DataPropCharacteristics>,
    nodes: Seq<(Seq<char>, NObjectView)>,
    t: usize,
    n: int,
    indexers: Indexers,
    c: nat,
)
    requires
        0 < n <= nodes.len(),
        c > 0 ==> nodes[n - 1].1.types.contains(t),
        all_attained(m, nodes, t, n, indexers),
    ensures
        all_attained(prop_steps(m, nodes[n - 1].1.properties, c, indexers), nodes, t, n, indexers),
    decreases c,
{
    if c > 0 {
        let props = nodes[n - 1].1.properties;
        let prev = prop_steps(m, props, (c - 1) as nat, indexers);
        lemma_prop_steps_attained(m, nodes, t, n, indexers, (c - 1) as nat);
        let next = prop_step(prev, props, indexers);
        assert forall|p: usize| #[trigger] next.contains_key(p) implies len_attained(
            nodes,
            t,
            n,
            indexers,
            p,
            next[p].max_len,
        ) by {
            let start: u32 = if prev.contains_key(p) {
                prev[p].max_len
            } else {
                0
            };
            lemma_prop_max_len_bounds(indexers, props, p, start);
            let r = prop_max_len(indexers, props, p, start);
            assert(next[p].max_len == r);
            if r != start {
                let j = choose|j: int|
                    0 <= j < props.len() && (#[trigger] props[j]).0 == p && r == literal_text_len(indexers, props[j].1);
                assert(nodes[n - 1].1.properties[j].0 == p);
            }
        }
    }
}

/// Law: each longest text of a type's predicate over the first `n` nodes
/// is zero or the text length of one of the values with that predicate in
/// an instance of the type; with `lemma_prop_max_len_covers_instances` it
/// is the greatest of them.
pub proof fn lemma_prop_max_len_attained(nodes: Seq<(Seq<char>, NObjectView)>, t: usize, n: int, indexers: Indexers)
    requires
        0 <= n <= nodes.len(),
    ensures
        all_attained(props_upto(nodes, t, n, indexers), nodes, t, n, indexers),
    decreases n,
{
    if n > 0 {
        lemma_prop_max_len_attained(nodes, t, n - 1, indexers);
        let m = props_upto(nodes, t, n - 1, indexers);
        assert forall|p: usize| #[trigger] m.contains_key(p) implies len_attained(nodes, t, n, indexers, p, m[p].max_len) by {
            assert(len_attained(nodes, t, n - 1, indexers, p, m[p].max_len));
            if m[p].max_len != 0 {
                let (i, j) = choose|i: int, j: int|
                    0 <= i < n - 1 && nodes[i].1.types.contains(t) && 0 <= j < nodes[i].1.properties.len() && (
                    #[trigger] nodes[i].1.properties[j]).0 == p && literal_text_len(indexers, nodes[i].1.properties[j].1)
                        == m[p].max_len;
                assert(nodes[i].1.properties[j].0 == p);
            }
        }
        lemma_count_of_contains(nodes[n - 1].1.types, t);
        lemma_prop_steps_attained(m, nodes, t, n, indexers, count_of(nodes[n - 1].1.types, t));
    }
}

/// Law: in an index that `update` built, each type's statistics entry for
/// a predicate has a `max_len` at least the text length of every value
/// with that predicate in every instance of the type.
pub proof fn lemma_type_prop_max_len(
    types: Seq<TypeData>,
    nodes: Seq<(Seq<char>, NObjectView)>,
    indexers: Indexers,
    k: int,
    i: int,
    j: int,
)
    requires
        props_indexed(types, nodes, nodes.len() as int, indexers),
        0 <= k < types.len(),
        0 <= i < nodes.len(),
        nodes[i].1.types.contains(types[k].type_index),
        0 <= j < nodes[i].1.properties.len(),
    ensures
        exists|e: int|
            0 <= e < types[k].properties@.len() && (#[trigger] types[k].properties@[e]).0 == nodes[i].1.properties[j].0
                && types[k].properties@[e].1.max_len >= literal_text_len(indexers, nodes[i].1.properties[j].1),
{
    let v = types[k].properties@;
    let p = nodes[i].1.properties[j].0;
    lemma_prop_max_len_covers_instances(nodes, types[k].type_index, nodes.len() as int, indexers, i, j);
    assert(props_map(v) == props_upto(nodes, types[k].type_index, nodes.len() as int, indexers));
    assert(props_map(v).contains_key(p));
    let e = choose|e: int| 0 <= e < v.len() && (#[trigger] v[e]).0 == p;
    lemma_props_map(v, e);
    assert(v[e].0 == p);
}

/// The number of type and property pairs of the first `n` nodes: a bound
/// for every property count.
pub open spec fn prop_work_upto(nodes: Seq<(Seq<char>, NObjectView)>, n: int) -> nat
    decreases n,
{
    if n <= 0 {
        0
    } else {
        prop_work_upto(nodes, n - 1) + nodes[n - 1].1.types.len() * nodes[n - 1].1.properties.len()
    }
}

/// Every count of the map is at most `w`.
pub open spec fn counts_within(m: Map<usize, DataPropCharacteristics>, w: nat) -> bool {
    forall|p: usize| #[trigger] m.contains_key(p) ==> m[p].count <= w
}

proof fn lemma_prop_step_bound(m: Map<usize, DataPropCharacteristics>, props: Seq<PredicateLiteral>, indexers: Indexers, w: nat)
    requires
        counts_within(m, w),
        w + props.len() <= u32::MAX,
    ensures
        counts_within(prop_step(m, props, indexers), w + props.len()),
{
    let r = prop_step(m, props, indexers);
    assert forall|p: usize| #[trigger] r.contains_key(p) implies r[p].count <= w + props.len() by {
        lemma_prop_count_contains(props, p);
    }
}

proof fn lemma_prop_steps_bound(
    m: Map<usize, DataPropCharacteristics>,
    props: Seq<PredicateLiteral>,
    c: nat,
    indexers: Indexers,
    w: nat,
)
    requires
        counts_within(m, w),
        w + c * props.len() <= u32::MAX,
    ensures
        counts_within(prop_steps(m, props, c, indexers), w + c * props.len()),
    decreases c,
{
    if c > 0 {
        let l = props.len();
        assert((c - 1) * l + l == c * l) by (nonlinear_arith);
        assert((c - 1) * l <= c * l) by (nonlinear_arith);
        lemma_prop_steps_bound(m, props, (c - 1) as nat, indexers, w);
        lemma_prop_step_bound(prop_steps(m, props, (c - 1) as nat, indexers), props, indexers, (w + (c - 1) * l) as nat);
    }
}

proof fn lemma_prop_work_monotone(nodes: Seq<(Seq<char>, NObjectView)>, i: int, j: int)
    requires
        i <= j,
    ensures
        prop_work_upto(nodes, i) <= prop_work_upto(nodes, j),
    decreases j - i,
{
    if i < j {
        lemma_prop_work_monotone(nodes, i, j - 1);
    }
}

proof fn lemma_props_upto_bound(nodes: Seq<(Seq<char>, NObjectView)>, t: usize, n: int, indexers: Indexers, total: int)
    requires
        0 <= n <= nodes.len(),
        prop_work_upto(nodes, n) <= total <= u32::MAX,
    ensures
        counts_within(props_upto(nodes, t, n, indexers), prop_work_upto(nodes, n)),
    decreases n,
{
    if n > 0 {
        lemma_prop_work_monotone(nodes, n - 1, n);
        lemma_props_upto_bound(nodes, t, n - 1, indexers, total);
        let v = nodes[n - 1].1;
        let c = count_of(v.types, t);
        lemma_count_of_le_len(v.types, t);
        let l = v.properties.len();
        let lt = v.types.len();
        assert(c * l <= lt * l) by (nonlinear_arith)
            requires
                c <= lt,
        ;
        lemma_prop_steps_bound(props_upto(nodes, t, n - 1, indexers), v.properties, c, indexers, prop_work_upto(nodes, n - 1));
    } else {
        assert(counts_within(Map::<usize, DataPropCharacteristics>::empty(), 0));
    }
}

/// A type the first `n` nodes have not has no property statistics.
proof fn lemma_no_props(nodes: Seq<(Seq<char>, NObjectView)>, n: int, t: usize, indexers: Indexers)
    requires
        0 <= n <= nodes.len(),
        !types_seen(nodes, n).contains(t),
    ensures
        props_upto(nodes, t, n, indexers) == Map::<usize, DataPropCharacteristics>::empty(),
    decreases n,
{
    if n > 0 {
        lemma_types_seen(nodes, n, t);
        lemma_types_seen(nodes, n - 1, t);
        lemma_no_props(nodes, n - 1, t, indexers);
        assert(!nodes[n - 1].1.types.contains(t));
        lemma_count_of_contains(nodes[n - 1].1.types, t);
    }
}

/// The number of properties with predicate `p` and the longest of their
/// texts, starting from `start_len`.
fn scan_property(props: &Vec<PredicateLiteral>, indexers: &Indexers, p: IriIndex, start_len: u32) -> (res: (u32, u32))
    requires
        indexers.wf(),
        props@.len() <= u32::MAX,
    ensures
        res.0 == prop_count(props@, p),
        res.1 == prop_max_len(*indexers, props@, p, start_len),
{
    let mut card: u32 = 0;
    let mut max_len = start_len;
    let mut j: usize = 0;
    while j < props.len()
        invariant
            indexers.wf(),
            props@.len() <= u32::MAX,
            j <= props@.len(),
            card == prop_count(props@.take(j as int), p),
            max_len == prop_max_len(*indexers, props@.take(j as int), p, start_len),
        decreases props@.len() - j,
    {
        proof {
            let t = props@.take(j + 1);
            assert(t.drop_last() =~= props@.take(j as int));
            assert(t.last() == props@[j as int]);
            lemma_prop_count_contains(props@.take(j as int), p);
        }
        if props[j].0 == p {
            card += 1;
            let l = literal_len(indexers, &props[j].1);
            if l > max_len {
                max_len = l;
            }
        }
        j += 1;
    }
    proof {
        assert(props@.take(props@.len() as int) =~= props@);
    }
    (card, max_len)
}

/// Whether some entry is for predicate `q`.
fn has_prop_key(v: &Vec<(IriIndex, DataPropCharacteristics)>, q: IriIndex) -> (res: bool)
    ensures
        res == exists|x: int| 0 <= x < v@.len() && (#[trigger] v@[x]).0 == q,
{
    let mut x: usize = 0;
    while x < v.len()
        invariant
            x <= v@.len(),
            forall|y: int| 0 <= y < x ==> (#[trigger] v@[y]).0 != q,
        decreases v@.len() - x,
    {
        if v[x].0 == q {
            return true;
        }
        x += 1;
    }
    false
}

impl TypeData {
    /// Adds one instance's properties to the statistics (see `prop_step`).
    fn count_properties_of(&mut self, props: &Vec<PredicateLiteral>, indexers: &Indexers)
        requires
            indexers.wf(),
            props@.len() <= u32::MAX,
            prop_keys_distinct(old(self).properties@),
            forall|i: int|
                0 <= i < old(self).properties@.len() ==> (#[trigger] old(self).properties@[i]).1.count + prop_count(
                    props@,
                    old(self).properties@[i].0,
                ) <= u32::MAX,
        ensures
            prop_keys_distinct(final(self).properties@),
            props_map(final(self).properties@) == prop_step(props_map(old(self).properties@), props@, *indexers),
            final(self).type_index == old(self).type_index,
            final(self).instances == old(self).instances,
            final(self).filtered_instances == old(self).filtered_instances,
            final(self).rev_references == old(self).rev_references,
            final(self).references == old(self).references,
    {
        let ghost old_v = self.properties@;
        let len0 = self.properties.len();
        let mut e: usize = 0;
        while e < len0
            invariant
                indexers.wf(),
                props@.len() <= u32::MAX,
                old_v == old(self).properties@,
                len0 == old_v.len(),
                self.properties@.len() == len0,
                prop_keys_distinct(old_v),
                forall|i: int| 0 <= i < len0 ==> (#[trigger] old_v[i]).1.count + prop_count(props@, old_v[i].0) <= u32::MAX,
                e <= len0,
                forall|x: int| 0 <= x < e ==> #[trigger] self.properties@[x] == (
                    old_v[x].0,
                    updated_stat(old_v[x].1, props@, old_v[x].0, *indexers),
                ),
                forall|x: int| e <= x < len0 ==> #[trigger] self.properties@[x] == old_v[x],
                self.type_index == old(self).type_index,
                self.instances == old(self).instances,
                self.filtered_instances == old(self).filtered_instances,
                self.rev_references == old(self).rev_references,
                self.references == old(self).references,
            decreases len0 - e,
        {
            let (p, stat) = self.properties[e];
            let (card, max_len) = scan_property(props, indexers, p, stat.max_len);
            let new_stat = DataPropCharacteristics {
                count: stat.count + card,
                max_len,
                max_cardinality: if card > stat.max_cardinality {
                    card
                } else {
                    stat.max_cardinality
                },
                min_cardinality: if card < stat.min_cardinality {
                    card
                } else {
                    stat.min_cardinality
                },
            };
            self.properties.set(e, (p, new_stat));
            e += 1;
        }
        let mut j: usize = 0;
        while j < props.len()
            invariant
                indexers.wf(),
                props@.len() <= u32::MAX,
                old_v == old(self).properties@,
                len0 == old_v.len(),
                prop_keys_distinct(old_v),
                j <= props@.len(),
                self.properties@.len() >= len0,
                prop_keys_distinct(self.properties@),
                forall|x: int| 0 <= x < len0 ==> #[trigger] self.properties@[x] == (
                    old_v[x].0,
                    updated_stat(old_v[x].1, props@, old_v[x].0, *indexers),
                ),
                forall|x: int|
                    len0 <= x < self.properties@.len() ==> (forall|y: int| 0 <= y < len0 ==> old_v[y].0 != (
                    #[trigger] self.properties@[x]).0) && self.properties@[x].1 == fresh_stat(
                        props@,
                        self.properties@[x].0,
                        *indexers,
                    ) && exists|jj: int| 0 <= jj < j && (#[trigger] props@[jj]).0 == self.properties@[x].0,
                forall|jj: int|
                    0 <= jj < j ==> exists|x: int| 0 <= x < self.properties@.len() && (#[trigger] self.properties@[x]).0 == (
                    #[trigger] props@[jj]).0,
                self.type_index == old(self).type_index,
                self.instances == old(self).instances,
                self.filtered_instances == old(self).filtered_instances,
                self.rev_references == old(self).rev_references,
                self.references == old(self).references,
            decreases props@.len() - j,
        {
            let q = props[j].0;
            let ghost before = self.properties@;
            if !has_prop_key(&self.properties, q) {
                let (card, max_len) = scan_property(props, indexers, q, 0);
                self.properties.push(
                    (q, DataPropCharacteristics { count: card, max_len, max_cardinality: card, min_cardinality: card }),
                );
                proof {
                    let v = self.properties@;
                    assert(v[before.len() as int].0 == q);
                    assert forall|a: int, b: int| 0 <= a < b < v.len() implies (#[trigger] v[a]).0 != (#[trigger] v[b]).0 by {
                        if b < before.len() {
                            assert(before[a].0 != before[b].0);
                        } else {
                            assert(v[a] == before[a]);
                        }
                    }
                    assert forall|x: int| 0 <= x < len0 implies #[trigger] v[x] == (
                        old_v[x].0,
                        updated_stat(old_v[x].1, props@, old_v[x].0, *indexers),
                    ) by {
                        assert(v[x] == before[x]);
                    }
                    assert forall|x: int| len0 <= x < v.len() implies (forall|y: int| 0 <= y < len0 ==> old_v[y].0 != (
                    #[trigger] v[x]).0) && v[x].1 == fresh_stat(props@, v[x].0, *indexers) && exists|jj: int|
                        0 <= jj < j + 1 && (#[trigger] props@[jj]).0 == v[x].0 by {
                        if x < before.len() {
                            assert(v[x] == before[x]);
                            let jj = choose|jj: int| 0 <= jj < j && (#[trigger] props@[jj]).0 == before[x].0;
                            assert(props@[jj].0 == v[x].0);
                        } else {
                            assert forall|y: int| 0 <= y < len0 implies old_v[y].0 != v[x].0 by {
                                assert(before[y].0 == old_v[y].0);
                            }
                            assert(props@[j as int].0 == v[x].0);
                        }
                    }
                    assert forall|jj: int| 0 <= jj < j + 1 implies exists|x: int| 0 <= x < v.len() && (#[trigger] v[x]).0 == (
                    #[trigger] props@[jj]).0 by {
                        if jj < j {
                            let x = choose|x: int| 0 <= x < before.len() && (#[trigger] before[x]).0 == props@[jj].0;
                            assert(v[x] == before[x]);
                        } else {
                            assert(v[before.len() as int].0 == props@[jj].0);
                        }
                    }
                }
            } else {
                proof {
                    let v = self.properties@;
                    assert forall|x: int| len0 <= x < v.len() implies (forall|y: int| 0 <= y < len0 ==> old_v[y].0 != (
                    #[trigger] v[x]).0) && v[x].1 == fresh_stat(props@, v[x].0, *indexers) && exists|jj: int|
                        0 <= jj < j + 1 && (#[trigger] props@[jj]).0 == v[x].0 by {
                        let jj = choose|jj: int| 0 <= jj < j && (#[trigger] props@[jj]).0 == v[x].0;
                        assert(props@[jj].0 == v[x].0);
                    }
                    assert forall|jj: int| 0 <= jj < j + 1 implies exists|x: int| 0 <= x < v.len() && (#[trigger] v[x]).0 == (
                    #[trigger] props@[jj]).0 by {
                        if jj == j {
                            let x = choose|x: int| 0 <= x < v.len() && (#[trigger] v[x]).0 == q;
                            assert(v[x].0 == props@[jj].0);
                        }
                    }
                }
            }
            j += 1;
        }
        proof {
            let v = self.properties@;
            let m0 = props_map(old_v);
            let target = prop_step(m0, props@, *indexers);
            assert forall|p: usize| #[trigger] props_map(v).contains_key(p) == target.contains_key(p) by {
                lemma_prop_count_contains(props@, p);
                if props_map(v).contains_key(p) {
                    let x = choose|x: int| 0 <= x < v.len() && (#[trigger] v[x]).0 == p;
                    if x < len0 {
                        lemma_props_map(old_v, x);
                    } else {
                        let jj = choose|jj: int| 0 <= jj < j && (#[trigger] props@[jj]).0 == v[x].0;
                    }
                }
                if target.contains_key(p) {
                    if m0.contains_key(p) {
                        let y = choose|y: int| 0 <= y < old_v.len() && (#[trigger] old_v[y]).0 == p;
                        assert(v[y].0 == p);
                    } else {
                        let jj = choose|jj: int| 0 <= jj < props@.len() && (#[trigger] props@[jj]).0 == p;
                        let x = choose|x: int| 0 <= x < v.len() && (#[trigger] v[x]).0 == props@[jj].0;
                    }
                }
            }
            assert forall|p: usize| props_map(v).contains_key(p) implies #[trigger] props_map(v)[p] == target[p] by {
                let x = choose|x: int| 0 <= x < v.len() && (#[trigger] v[x]).0 == p;
                lemma_props_map(v, x);
                if x < len0 {
                    lemma_props_map(old_v, x);
                } else {
                    if m0.contains_key(p) {
                        let y = choose|y: int| 0 <= y < old_v.len() && (#[trigger] old_v[y]).0 == p;
                        assert(old_v[y].0 != v[x].0);
                    }
                }
            }
            assert(props_map(v) =~= target);
        }
    }
}

/// What the table knows of a reference predicate of a type: how many
/// references it has over all instances, the most and fewest one instance
/// has, and the types of the nodes referenced (as first gathered).
pub struct ReferenceCharacteristics {
    pub count: u32,
    pub max_cardinality: u32,
    pub min_cardinality: u32,
    pub types: Vec<IriIndex>,
}

/// The statistics of a reference predicate as values.
pub struct RefStats {
    pub count: u32,
    pub max_cardinality: u32,
    pub min_cardinality: u32,
    pub types: Seq<usize>,
}

impl ReferenceCharacteristics {
    pub open spec fn view(&self) -> RefStats {
        RefStats {
            count: self.count,
            max_cardinality: self.max_cardinality,
            min_cardinality: self.min_cardinality,
            types: self.types@,
        }
    }
}

/// The references of one instance by predicate `p` to nodes that exist:
/// how many, and the types of the referenced nodes (those of the first,
/// then each new one of the later ones, in order).
pub open spec fn ref_scan(refs: Seq<(usize, usize)>, p: usize, nodes: Seq<(Seq<char>, NObjectView)>) -> (nat, Seq<usize>)
    decreases refs.len(),
{
    if refs.len() == 0 {
        (0, Seq::empty())
    } else {
        let (c, tys) = ref_scan(refs.drop_last(), p, nodes);
        let (q, r) = refs.last();
        if q == p && (r as int) < nodes.len() {
            if c == 0 {
                (1, nodes[r as int].1.types)
            } else {
                (c + 1, add_new(tys, nodes[r as int].1.types))
            }
        } else {
            (c, tys)
        }
    }
}

/// One more instance with these references: a known predicate adds the
/// instance's number of references to its count and cardinalities; a
/// predicate new to the type starts from this instance, with the types
/// its references lead to.
pub open spec fn ref_step(m: Map<usize, RefStats>, refs: Seq<(usize, usize)>, nodes: Seq<(Seq<char>, NObjectView)>) -> Map<
    usize,
    RefStats,
> {
    Map::new(
        |p: usize| m.contains_key(p) || ref_scan(refs, p, nodes).0 > 0,
        |p: usize|
            {
                let (c, tys) = ref_scan(refs, p, nodes);
                if m.contains_key(p) {
                    let old = m[p];
                    RefStats {
                        count: (old.count + c) as u32,
                        max_cardinality: if c > old.max_cardinality {
                            c as u32
                        } else {
                            old.max_cardinality
                        },
                        min_cardinality: if c < old.min_cardinality {
                            c as u32
                        } else {
                            old.min_cardinality
                        },
                        types: old.types,
                    }
                } else {
                    RefStats { count: c as u32, max_cardinality: c as u32, min_cardinality: c as u32, types: tys }
                }
            },
    )
}

/// The statistics after `c` more instances with the same references.
pub open spec fn ref_steps(m: Map<usize, RefStats>, refs: Seq<(usize, usize)>, nodes: Seq<(Seq<char>, NObjectView)>, c: nat) -> Map<
    usize,
    RefStats,
>
    decreases c,
{
    if c == 0 {
        m
    } else {
        ref_step(ref_steps(m, refs, nodes, (c - 1) as nat), refs, nodes)
    }
}

/// The reference statistics of type `t` over the first `n` nodes.
pub open spec fn refs_upto(nodes: Seq<(Seq<char>, NObjectView)>, t: usize, n: int) -> Map<usize, RefStats>
    decreases n,
{
    if n <= 0 {
        Map::empty()
    } else {
        ref_steps(refs_upto(nodes, t, n - 1), nodes[n - 1].1.references, nodes, count_of(nodes[n - 1].1.types, t))
    }
}

/// The entries by predicate, as a map.
pub open spec fn refs_map(v: Seq<(usize, ReferenceCharacteristics)>) -> Map<usize, RefStats> {
    Map::new(
        |p: usize| exists|i: int| 0 <= i < v.len() && (#[trigger] v[i]).0 == p,
        |p: usize| v[choose|i: int| 0 <= i < v.len() && (#[trigger] v[i]).0 == p].1.view(),
    )
}

/// No predicate has two entries.
pub open spec fn ref_keys_distinct(v: Seq<(usize, ReferenceCharacteristics)>) -> bool {
    forall|i: int, j: int| 0 <= i < j < v.len() ==> (#[trigger] v[i]).0 != (#[trigger] v[j]).0
}

proof fn lemma_refs_map(v: Seq<(usize, ReferenceCharacteristics)>, i: int)
    requires
        ref_keys_distinct(v),
        0 <= i < v.len(),
    ensures
        refs_map(v).contains_key(v[i].0),
        refs_map(v)[v[i].0] == v[i].1.view(),
{
    let k = choose|k: int| 0 <= k < v.len() && (#[trigger] v[k]).0 == v[i].0;
    if k != i {
        if k < i {
            assert(v[k].0 != v[i].0);
        } else {
            assert(v[i].0 != v[k].0);
        }
    }
}

/// The scan counts at most the references.
proof fn lemma_ref_scan_len(refs: Seq<(usize, usize)>, p: usize, nodes: Seq<(Seq<char>, NObjectView)>)
    ensures
        ref_scan(refs, p, nodes).0 <= refs.len(),
    decreases refs.len(),
{
    if refs.len() > 0 {
        lemma_ref_scan_len(refs.drop_last(), p, nodes);
    }
}

/// Whether the list holds the index.
fn holds_index(v: &Vec<IriIndex>, x: IriIndex) -> (res: bool)
    ensures
        res == v@.contains(x),
{
    let mut k: usize = 0;
    while k < v.len()
        invariant
            k <= v@.len(),
            forall|y: int| 0 <= y < k ==> v@[y] != x,
        decreases v@.len() - k,
    {
        if v[k] == x {
            return true;
        }
        k += 1;
    }
    false
}

/// The position of the scan entry for predicate `p`, if there is one.
fn scan_slot(res: &Vec<(IriIndex, u32, Vec<IriIndex>)>, p: IriIndex) -> (o: Option<usize>)
    ensures
        match o {
            Some(a) => a < res@.len() && res@[a as int].0 == p,
            None => forall|y: int| 0 <= y < res@.len() ==> (#[trigger] res@[y]).0 != p,
        },
{
    let mut a: usize = 0;
    while a < res.len()
        invariant
            a <= res@.len(),
            forall|y: int| 0 <= y < a ==> (#[trigger] res@[y]).0 != p,
        decreases res@.len() - a,
    {
        if res[a].0 == p {
            return Some(a);
        }
        a += 1;
    }
    None
}

/// The list with the items of `ts` it does not hold yet added.
fn push_new_types(tys: &mut Vec<IriIndex>, ts: &Vec<IriIndex>)
    ensures
        final(tys)@ == add_new(old(tys)@, ts@),
{
    let mut j: usize = 0;
    while j < ts.len()
        invariant
            j <= ts@.len(),
            tys@ == add_new(old(tys)@, ts@.take(j as int)),
        decreases ts@.len() - j,
    {
        let x = ts[j];
        proof {
            assert(ts@.take(j + 1).drop_last() =~= ts@.take(j as int));
            assert(ts@.take(j + 1).last() == x);
        }
        if !holds_index(tys, x) {
            tys.push(x);
        }
        j += 1;
    }
    proof {
        assert(ts@.take(ts@.len() as int) =~= ts@);
    }
}

/// The scan of one instance's references (see `ref_scan`), one entry per
/// predicate with at least one reference to a node that exists.
fn scan_references(refs: &Vec<(IriIndex, IriIndex)>, node_data: &NodeData) -> (res: Vec<(IriIndex, u32, Vec<IriIndex>)>)
    requires
        refs@.len() <= u32::MAX,
    ensures
        forall|a: int, b: int| 0 <= a < b < res@.len() ==> (#[trigger] res@[a]).0 != (#[trigger] res@[b]).0,
        forall|a: int|
            0 <= a < res@.len() ==> (#[trigger] res@[a]).1 as nat == ref_scan(refs@, res@[a].0, node_data.node_cache@).0
                && res@[a].2@ == ref_scan(refs@, res@[a].0, node_data.node_cache@).1 && res@[a].1 > 0,
        forall|p: usize|
            #[trigger] ref_scan(refs@, p, node_data.node_cache@).0 > 0 ==> exists|a: int| 0 <= a < res@.len() && (#[trigger] res@[a]).0 == p,
{
    let ghost nodes = node_data.node_cache@;
    let mut res: Vec<(IriIndex, u32, Vec<IriIndex>)> = Vec::new();
    let mut j: usize = 0;
    while j < refs.len()
        invariant
            nodes == node_data.node_cache@,
            refs@.len() <= u32::MAX,
            j <= refs@.len(),
            forall|a: int, b: int| 0 <= a < b < res@.len() ==> (#[trigger] res@[a]).0 != (#[trigger] res@[b]).0,
            forall|a: int|
                0 <= a < res@.len() ==> (#[trigger] res@[a]).1 as nat == ref_scan(refs@.take(j as int), res@[a].0, nodes).0
                    && res@[a].2@ == ref_scan(refs@.take(j as int), res@[a].0, nodes).1
                    && ref_scan(refs@.take(j as int), res@[a].0, nodes).0 > 0,
            forall|p: usize|
                #[trigger] ref_scan(refs@.take(j as int), p, nodes).0 > 0 ==> exists|a: int| 0 <= a < res@.len() && (#[trigger] res@[a]).0 == p,
        decreases refs@.len() - j,
    {
        let (p, r) = refs[j];
        let ghost before = res@;
        let ghost pre = refs@.take(j as int);
        let ghost post = refs@.take(j + 1);
        proof {
            assert(post.drop_last() =~= pre);
            assert(post.last() == (p, r));
            assert forall|q: usize| q != p implies #[trigger] ref_scan(post, q, nodes) == ref_scan(pre, q, nodes) by {}
            lemma_ref_scan_len(pre, p, nodes);
        }
        match node_data.get_node_by_index(r) {
            Some(ref_node) => {
                let slot = scan_slot(&res, p);
                let found = slot.is_some();
                let a: usize = match slot {
                    Some(a) => a,
                    None => 0,
                };
                if found {
                    let q = res[a].0;
                    let c = res[a].1;
                    let mut tys = res[a].2.clone();
                    proof {
                        assert(tys@ =~= before[a as int].2@);
                    }
                    push_new_types(&mut tys, &ref_node.types);
                    res.set(a, (q, c + 1, tys));
                } else {
                    let tys = ref_node.types.clone();
                    proof {
                        assert(tys@ =~= ref_node.types@);
                    }
                    res.push((p, 1, tys));
                }
                proof {
                    let after = res@;
                    if found {
                        assert(before[a as int].0 == p);
                        assert(ref_scan(pre, p, nodes).0 > 0);
                    } else {
                        assert forall|y: int| 0 <= y < before.len() implies (#[trigger] before[y]).0 != p by {}
                        if ref_scan(pre, p, nodes).0 > 0 {
                            let y = choose|y: int| 0 <= y < before.len() && (#[trigger] before[y]).0 == p;
                        }
                        assert(ref_scan(pre, p, nodes).0 == 0);
                    }
                    assert forall|x: int, y: int| 0 <= x < y < after.len() implies (#[trigger] after[x]).0 != (#[trigger] after[y]).0 by {
                        if !found && y == before.len() {
                            assert(after[x] == before[x]);
                        } else {
                            assert(after[x].0 == before[x].0 && after[y].0 == before[y].0);
                        }
                    }
                    assert forall|x: int| 0 <= x < after.len() implies (#[trigger] after[x]).1 as nat == ref_scan(post, after[x].0, nodes).0
                        && after[x].2@ == ref_scan(post, after[x].0, nodes).1 && ref_scan(post, after[x].0, nodes).0 > 0 by {
                        if x < before.len() && before[x].0 != p {
                            assert(after[x] == before[x]);
                        }
                    }
                    assert forall|q: usize| #[trigger] ref_scan(post, q, nodes).0 > 0 implies exists|x: int| 0 <= x < after.len() && (
                    #[trigger] after[x]).0 == q by {
                        if q == p {
                            if found {
                                assert(after[a as int].0 == p);
                            } else {
                                assert(after[before.len() as int].0 == p);
                            }
                        } else {
                            let x = choose|x: int| 0 <= x < before.len() && (#[trigger] before[x]).0 == q;
                            assert(after[x].0 == q);
                        }
                    }
                }
            },
            None => {
                proof {
                    assert forall|q: usize| #[trigger] ref_scan(post, q, nodes) == ref_scan(pre, q, nodes) by {}
                }
            },
        }
        j += 1;
    }
    proof {
        assert(refs@.take(refs@.len() as int) =~= refs@);
    }
    res
}

/// The number of type and reference pairs of the first `n` nodes: a bound
/// for every reference count.
pub open spec fn ref_work_upto(nodes: Seq<(Seq<char>, NObjectView)>, n: int) -> nat
    decreases n,
{
    if n <= 0 {
        0
    } else {
        ref_work_upto(nodes, n - 1) + nodes[n - 1].1.types.len() * nodes[n - 1].1.references.len()
    }
}

/// Every count of the map is at most `w`.
pub open spec fn ref_counts_within(m: Map<usize, RefStats>, w: nat) -> bool {
    forall|p: usize| #[trigger] m.contains_key(p) ==> m[p].count <= w
}

proof fn lemma_ref_step_bound(m: Map<usize, RefStats>, refs: Seq<(usize, usize)>, nodes: Seq<(Seq<char>, NObjectView)>, w: nat)
    requires
        ref_counts_within(m, w),
        w + refs.len() <= u32::MAX,
    ensures
        ref_counts_within(ref_step(m, refs, nodes), w + refs.len()),
{
    let r = ref_step(m, refs, nodes);
    assert forall|p: usize| #[trigger] r.contains_key(p) implies r[p].count <= w + refs.len() by {
        lemma_ref_scan_len(refs, p, nodes);
    }
}

proof fn lemma_ref_steps_bound(
    m: Map<usize, RefStats>,
    refs: Seq<(usize, usize)>,
    nodes: Seq<(Seq<char>, NObjectView)>,
    c: nat,
    w: nat,
)
    requires
        ref_counts_within(m, w),
        w + c * refs.len() <= u32::MAX,
    ensures
        ref_counts_within(ref_steps(m, refs, nodes, c), w + c * refs.len()),
    decreases c,
{
    if c > 0 {
        let l = refs.len();
        assert((c - 1) * l + l == c * l) by (nonlinear_arith);
        assert((c - 1) * l <= c * l) by (nonlinear_arith);
        lemma_ref_steps_bound(m, refs, nodes, (c - 1) as nat, w);
        lemma_ref_step_bound(ref_steps(m, refs, nodes, (c - 1) as nat), refs, nodes, (w + (c - 1) * l) as nat);
    }
}

proof fn lemma_ref_work_monotone(nodes: Seq<(Seq<char>, NObjectView)>, i: int, j: int)
    requires
        i <= j,
    ensures
        ref_work_upto(nodes, i) <= ref_work_upto(nodes, j),
    decreases j - i,
{
    if i < j {
        lemma_ref_work_monotone(nodes, i, j - 1);
    }
}

proof fn lemma_refs_upto_bound(nodes: Seq<(Seq<char>, NObjectView)>, t: usize, n: int, total: int)
    requires
        0 <= n <= nodes.len(),
        ref_work_upto(nodes, n) <= total <= u32::MAX,
    ensures
        ref_counts_within(refs_upto(nodes, t, n), ref_work_upto(nodes, n)),
    decreases n,
{
    if n > 0 {
        lemma_ref_work_monotone(nodes, n - 1, n);
        lemma_refs_upto_bound(nodes, t, n - 1, total);
        let v = nodes[n - 1].1;
        let c = count_of(v.types, t);
        lemma_count_of_le_len(v.types, t);
        let l = v.references.len();
        let lt = v.types.len();
        assert(c * l <= lt * l) by (nonlinear_arith)
            requires
                c <= lt,
        ;
        lemma_ref_steps_bound(refs_upto(nodes, t, n - 1), v.references, nodes, c, ref_work_upto(nodes, n - 1));
    } else {
        assert(ref_counts_within(Map::<usize, RefStats>::empty(), 0));
    }
}

/// A type the first `n` nodes have not has no reference statistics.
proof fn lemma_no_refs(nodes: Seq<(Seq<char>, NObjectView)>, n: int, t: usize)
    requires
        0 <= n <= nodes.len(),
        !types_seen(nodes, n).contains(t),
    ensures
        refs_upto(nodes, t, n) == Map::<usize, RefStats>::empty(),
    decreases n,
{
    if n > 0 {
        lemma_types_seen(nodes, n, t);
        lemma_types_seen(nodes, n - 1, t);
        lemma_no_refs(nodes, n - 1, t);
        assert(!nodes[n - 1].1.types.contains(t));
        lemma_count_of_contains(nodes[n - 1].1.types, t);
    }
}

/// The entries also hold the reference statistics of their types.
pub open spec fn refs_indexed(types: Seq<TypeData>, nodes: Seq<(Seq<char>, NObjectView)>, n: int) -> bool {
    &&& forall|k: int| 0 <= k < types.len() ==> ref_keys_distinct((#[trigger] types[k]).references@)
    &&& forall|k: int| 0 <= k < types.len() ==> refs_map((#[trigger] types[k]).references@) == refs_upto(nodes, types[k].type_index, n)
}

/// The entries' reference statistics after the first `i` nodes and the
/// types `ts` of node `i`.
pub open spec fn refs_partial(types: Seq<TypeData>, nodes: Seq<(Seq<char>, NObjectView)>, i: int, ts: Seq<usize>) -> bool {
    let seen = add_new(types_seen(nodes, i), ts);
    &&& forall|k: int| 0 <= k < types.len() ==> ref_keys_distinct((#[trigger] types[k]).references@)
    &&& forall|k: int|
        0 <= k < types.len() ==> refs_map((#[trigger] types[k]).references@) == ref_steps(
            refs_upto(nodes, seen[k], i),
            nodes[i].1.references,
            nodes,
            count_of(ts, seen[k]),
        )
}

/// The statistics a scan entry starts a new predicate with.
pub open spec fn scan_stats(entry: (IriIndex, u32, Vec<IriIndex>)) -> RefStats {
    RefStats { count: entry.1, max_cardinality: entry.1, min_cardinality: entry.1, types: entry.2@ }
}

/// Whether some entry is for predicate `q`.
fn has_ref_key(v: &Vec<(IriIndex, ReferenceCharacteristics)>, q: IriIndex) -> (res: bool)
    ensures
        res == exists|x: int| 0 <= x < v@.len() && (#[trigger] v@[x]).0 == q,
{
    let mut x: usize = 0;
    while x < v.len()
        invariant
            x <= v@.len(),
            forall|y: int| 0 <= y < x ==> (#[trigger] v@[y]).0 != q,
        decreases v@.len() - x,
    {
        if v[x].0 == q {
            return true;
        }
        x += 1;
    }
    false
}

impl TypeData {
    /// Adds one instance's references to the statistics (see `ref_step`).
    #[verifier::rlimit(80)]
    fn count_references_of(&mut self, refs: &Vec<(IriIndex, IriIndex)>, node_data: &NodeData)
        requires
            refs@.len() <= u32::MAX,
            ref_keys_distinct(old(self).references@),
            forall|i: int|
                0 <= i < old(self).references@.len() ==> (#[trigger] old(self).references@[i]).1.count + ref_scan(
                    refs@,
                    old(self).references@[i].0,
                    node_data.node_cache@,
                ).0 <= u32::MAX,
        ensures
            ref_keys_distinct(final(self).references@),
            refs_map(final(self).references@) == ref_step(refs_map(old(self).references@), refs@, node_data.node_cache@),
            final(self).type_index == old(self).type_index,
            final(self).instances == old(self).instances,
            final(self).filtered_instances == old(self).filtered_instances,
            final(self).rev_references == old(self).rev_references,
            final(self).properties == old(self).properties,
    {
        let ghost nodes = node_data.node_cache@;
        let ghost old_v = self.references@;
        let scan = scan_references(refs, node_data);
        let len0 = self.references.len();
        let mut e: usize = 0;
        while e < len0
            invariant
                nodes == node_data.node_cache@,
                old_v == old(self).references@,
                len0 == old_v.len(),
                self.references@.len() == len0,
                ref_keys_distinct(old_v),
                forall|i: int| 0 <= i < len0 ==> (#[trigger] old_v[i]).1.count + ref_scan(refs@, old_v[i].0, nodes).0 <= u32::MAX,
                forall|a: int, b: int| 0 <= a < b < scan@.len() ==> (#[trigger] scan@[a]).0 != (#[trigger] scan@[b]).0,
                forall|a: int|
                    0 <= a < scan@.len() ==> (#[trigger] scan@[a]).1 as nat == ref_scan(refs@, scan@[a].0, nodes).0 && scan@[a].2@
                        == ref_scan(refs@, scan@[a].0, nodes).1 && scan@[a].1 > 0,
                forall|p: usize|
                    #[trigger] ref_scan(refs@, p, nodes).0 > 0 ==> exists|a: int| 0 <= a < scan@.len() && (#[trigger] scan@[a]).0 == p,
                e <= len0,
                forall|x: int| 0 <= x < e ==> #[trigger] self.references@[x].0 == old_v[x].0 && ref_step(
                    refs_map(old_v),
                    refs@,
                    nodes,
                )[old_v[x].0] == self.references@[x].1.view(),
                forall|x: int| e <= x < len0 ==> #[trigger] self.references@[x] == old_v[x],
                self.type_index == old(self).type_index,
                self.instances == old(self).instances,
                self.filtered_instances == old(self).filtered_instances,
                self.rev_references == old(self).rev_references,
                self.properties == old(self).properties,
            decreases len0 - e,
        {
            let ghost before_refs = self.references@;
            let p = self.references[e].0;
            let c: u32 = match scan_slot(&scan, p) {
                Some(a) => scan[a].1,
                None => 0,
            };
            proof {
                if c == 0 {
                    if ref_scan(refs@, p, nodes).0 > 0 {
                        let a = choose|a: int| 0 <= a < scan@.len() && (#[trigger] scan@[a]).0 == p;
                    }
                }
                assert(c as nat == ref_scan(refs@, p, nodes).0);
                lemma_refs_map(old_v, e as int);
            }
            let old_count = self.references[e].1.count;
            let old_max = self.references[e].1.max_cardinality;
            let old_min = self.references[e].1.min_cardinality;
            self.references[e].1.count = old_count + c;
            self.references[e].1.max_cardinality = if c > old_max {
                c
            } else {
                old_max
            };
            self.references[e].1.min_cardinality = if c < old_min {
                c
            } else {
                old_min
            };
            proof {
                let m0 = refs_map(old_v);
                assert(m0.contains_key(p));
                assert(m0[p] == old_v[e as int].1.view());
                assert(ref_step(m0, refs@, nodes).contains_key(p));
                assert(self.references@[e as int].1.view() == ref_step(m0, refs@, nodes)[p]);
                assert forall|x: int| 0 <= x < e + 1 implies #[trigger] self.references@[x].0 == old_v[x].0 && ref_step(
                    refs_map(old_v),
                    refs@,
                    nodes,
                )[old_v[x].0] == self.references@[x].1.view() by {
                    if x < e {
                        assert(self.references@[x] == before_refs[x]);
                    }
                }
                assert forall|x: int| e + 1 <= x < len0 implies #[trigger] self.references@[x] == old_v[x] by {
                    assert(self.references@[x] == before_refs[x]);
                }
            }
            e += 1;
        }
        let mut a: usize = 0;
        while a < scan.len()
            invariant
                nodes == node_data.node_cache@,
                old_v == old(self).references@,
                len0 == old_v.len(),
                ref_keys_distinct(old_v),
                forall|x: int, y: int| 0 <= x < y < scan@.len() ==> (#[trigger] scan@[x]).0 != (#[trigger] scan@[y]).0,
                forall|x: int|
                    0 <= x < scan@.len() ==> (#[trigger] scan@[x]).1 as nat == ref_scan(refs@, scan@[x].0, nodes).0 && scan@[x].2@
                        == ref_scan(refs@, scan@[x].0, nodes).1 && scan@[x].1 > 0,
                forall|p: usize|
                    #[trigger] ref_scan(refs@, p, nodes).0 > 0 ==> exists|x: int| 0 <= x < scan@.len() && (#[trigger] scan@[x]).0 == p,
                a <= scan@.len(),
                self.references@.len() >= len0,
                ref_keys_distinct(self.references@),
                forall|x: int| 0 <= x < len0 ==> #[trigger] self.references@[x].0 == old_v[x].0 && ref_step(
                    refs_map(old_v),
                    refs@,
                    nodes,
                )[old_v[x].0] == self.references@[x].1.view(),
                forall|x: int|
                    len0 <= x < self.references@.len() ==> (forall|y: int| 0 <= y < len0 ==> old_v[y].0 != (
                    #[trigger] self.references@[x]).0) && exists|z: int| 0 <= z < a && (#[trigger] scan@[z]).0 == self.references@[x].0
                        && self.references@[x].1.view() == scan_stats(scan@[z]),
                forall|z: int|
                    0 <= z < a ==> exists|x: int| 0 <= x < self.references@.len() && (#[trigger] self.references@[x]).0 == (
                    #[trigger] scan@[z]).0,
                self.type_index == old(self).type_index,
                self.instances == old(self).instances,
                self.filtered_instances == old(self).filtered_instances,
                self.rev_references == old(self).rev_references,
                self.properties == old(self).properties,
            decreases scan@.len() - a,
        {
            let p = scan[a].0;
            let c = scan[a].1;
            let ghost before = self.references@;
            if !has_ref_key(&self.references, p) {
                let tys = scan[a].2.clone();
                proof {
                    assert(tys@ =~= scan@[a as int].2@);
                }
                self.references.push((p, ReferenceCharacteristics { count: c, max_cardinality: c, min_cardinality: c, types: tys }));
                proof {
                    let v = self.references@;
                    assert(v[before.len() as int].0 == p);
                    assert forall|x: int, y: int| 0 <= x < y < v.len() implies (#[trigger] v[x]).0 != (#[trigger] v[y]).0 by {
                        if y < before.len() {
                            assert(before[x].0 != before[y].0);
                        } else {
                            assert(v[x] == before[x]);
                        }
                    }
                    assert forall|x: int| 0 <= x < len0 implies #[trigger] v[x].0 == old_v[x].0 && ref_step(refs_map(old_v), refs@, nodes)[old_v[x].0]
                        == v[x].1.view() by {
                        assert(v[x] == before[x]);
                    }
                    assert forall|x: int| len0 <= x < v.len() implies (forall|y: int| 0 <= y < len0 ==> old_v[y].0 != (#[trigger] v[x]).0)
                        && exists|z: int| 0 <= z < a + 1 && (#[trigger] scan@[z]).0 == v[x].0 && v[x].1.view() == scan_stats(scan@[z]) by {
                        if x < before.len() {
                            assert(v[x] == before[x]);
                            let z = choose|z: int| 0 <= z < a && (#[trigger] scan@[z]).0 == before[x].0 && before[x].1.view() == scan_stats(scan@[z]);
                            assert(scan@[z].0 == v[x].0);
                        } else {
                            assert forall|y: int| 0 <= y < len0 implies old_v[y].0 != v[x].0 by {
                                assert(before[y].0 == old_v[y].0);
                            }
                            assert(scan@[a as int].0 == v[x].0);
                        }
                    }
                    assert forall|z: int| 0 <= z < a + 1 implies exists|x: int| 0 <= x < v.len() && (#[trigger] v[x]).0 == (
                    #[trigger] scan@[z]).0 by {
                        if z < a {
                            let x = choose|x: int| 0 <= x < before.len() && (#[trigger] before[x]).0 == scan@[z].0;
                            assert(v[x] == before[x]);
                        } else {
                            assert(v[before.len() as int].0 == scan@[z].0);
                        }
                    }
                }
            } else {
                proof {
                    let v = self.references@;
                    let x = choose|x: int| 0 <= x < v.len() && (#[trigger] v[x]).0 == p;
                    if x >= len0 {
                        let z = choose|z: int| 0 <= z < a && (#[trigger] scan@[z]).0 == v[x].0 && v[x].1.view() == scan_stats(scan@[z]);
                        assert(scan@[z].0 != scan@[a as int].0);
                    }
                    assert forall|z: int| 0 <= z < a + 1 implies exists|x: int| 0 <= x < v.len() && (#[trigger] v[x]).0 == (
                    #[trigger] scan@[z]).0 by {
                        if z == a {
                            assert(v[x].0 == scan@[z].0);
                        }
                    }
                    assert forall|x: int| len0 <= x < v.len() implies (forall|y: int| 0 <= y < len0 ==> old_v[y].0 != (#[trigger] v[x]).0)
                        && exists|z: int| 0 <= z < a + 1 && (#[trigger] scan@[z]).0 == v[x].0 && v[x].1.view() == scan_stats(scan@[z]) by {
                        let z = choose|z: int| 0 <= z < a && (#[trigger] scan@[z]).0 == v[x].0 && v[x].1.view() == scan_stats(scan@[z]);
                    }
                }
            }
            a += 1;
        }
        proof {
            let v = self.references@;
            let m0 = refs_map(old_v);
            let target = ref_step(m0, refs@, nodes);
            assert forall|p: usize| #[trigger] refs_map(v).contains_key(p) == target.contains_key(p) by {
                if refs_map(v).contains_key(p) {
                    let x = choose|x: int| 0 <= x < v.len() && (#[trigger] v[x]).0 == p;
                    if x < len0 {
                        lemma_refs_map(old_v, x);
                    } else {
                        let z = choose|z: int| 0 <= z < a && (#[trigger] scan@[z]).0 == v[x].0 && v[x].1.view() == scan_stats(scan@[z]);
                        if ref_scan(refs@, p, nodes).0 == 0 {
                            assert(scan@[z].1 == 0);
                        }
                    }
                }
                if target.contains_key(p) {
                    if m0.contains_key(p) {
                        let y = choose|y: int| 0 <= y < old_v.len() && (#[trigger] old_v[y]).0 == p;
                        assert(v[y].0 == p);
                    } else {
                        let z = choose|z: int| 0 <= z < scan@.len() && (#[trigger] scan@[z]).0 == p;
                        let x = choose|x: int| 0 <= x < v.len() && (#[trigger] v[x]).0 == scan@[z].0;
                    }
                }
            }
            assert forall|p: usize| refs_map(v).contains_key(p) implies #[trigger] refs_map(v)[p] == target[p] by {
                let x = choose|x: int| 0 <= x < v.len() && (#[trigger] v[x]).0 == p;
                lemma_refs_map(v, x);
                if x < len0 {
                    lemma_refs_map(old_v, x);
                } else {
                    if m0.contains_key(p) {
                        let y = choose|y: int| 0 <= y < old_v.len() && (#[trigger] old_v[y]).0 == p;
                        assert(old_v[y].0 != v[x].0);
                    }
                    let z = choose|z: int| 0 <= z < a && (#[trigger] scan@[z]).0 == v[x].0 && v[x].1.view() == scan_stats(scan@[z]);
                }
            }
            assert(refs_map(v) =~= target);
        }
    }
}

/// The types of the loaded data and counts over all nodes, as the type
/// table shows them.
pub struct TypeInstanceIndex {
    pub nodes: usize,
    pub unique_predicates: usize,
    pub unique_types: usize,
    pub properties: usize,
    pub references: usize,
    pub blank_nodes: usize,
    pub max_instance_type_count: usize,
    pub min_instance_type_count: usize,
    pub unresolved_references: usize,
    pub types: Vec<TypeData>,
    pub types_order: Vec<IriIndex>,
    pub types_filtered: Vec<IriIndex>,
    pub selected_type: Option<IriIndex>,
    pub types_filter: String,
}

/// The entries list the types seen among the first `n` nodes, in order,
/// each with its instances among them.
pub open spec fn types_indexed(types: Seq<TypeData>, nodes: Seq<(Seq<char>, NObjectView)>, n: int) -> bool {
    &&& types.len() == types_seen(nodes, n).len()
    &&& forall|k: int|
        0 <= k < types.len() ==> (#[trigger] types[k]).type_index == types_seen(nodes, n)[k] && types[k].instances@
            == instances_upto(nodes, types[k].type_index, n)
    &&& forall|k: int| 0 <= k < types.len() ==> counts_wf((#[trigger] types[k]).rev_references@)
    &&& forall|k: int, p: usize|
        0 <= k < types.len() ==> #[trigger] pair_value(types[k].rev_references@, p) == rev_count_upto(
            nodes,
            types[k].type_index,
            p,
            n,
        )
}

/// The entries also hold the property statistics of their types.
pub open spec fn props_indexed(types: Seq<TypeData>, nodes: Seq<(Seq<char>, NObjectView)>, n: int, indexers: Indexers) -> bool {
    &&& forall|k: int| 0 <= k < types.len() ==> prop_keys_distinct((#[trigger] types[k]).properties@)
    &&& forall|k: int|
        0 <= k < types.len() ==> props_map((#[trigger] types[k]).properties@) == props_upto(
            nodes,
            types[k].type_index,
            n,
            indexers,
        )
}

/// The entries after the first `i` nodes and the types `ts` of node `i`.
pub open spec fn types_partial(types: Seq<TypeData>, nodes: Seq<(Seq<char>, NObjectView)>, i: int, ts: Seq<usize>) -> bool {
    let seen = add_new(types_seen(nodes, i), ts);
    &&& types.len() == seen.len()
    &&& forall|k: int|
        0 <= k < types.len() ==> (#[trigger] types[k]).type_index == seen[k] && types[k].instances@ == instances_upto(
            nodes,
            seen[k],
            i,
        ) + Seq::new(count_of(ts, seen[k]), |_x: int| i as usize)
    &&& forall|k: int| 0 <= k < types.len() ==> counts_wf((#[trigger] types[k]).rev_references@)
    &&& forall|k: int, p: usize|
        0 <= k < types.len() ==> #[trigger] pair_value(types[k].rev_references@, p) == rev_count_upto(nodes, seen[k], p, i)
            + count_of(ts, seen[k]) * pred_count(nodes[i].1.reverse_references, p)
}

/// The entries' property statistics after the first `i` nodes and the
/// types `ts` of node `i`.
pub open spec fn props_partial(
    types: Seq<TypeData>,
    nodes: Seq<(Seq<char>, NObjectView)>,
    i: int,
    ts: Seq<usize>,
    indexers: Indexers,
) -> bool {
    let seen = add_new(types_seen(nodes, i), ts);
    &&& forall|k: int| 0 <= k < types.len() ==> prop_keys_distinct((#[trigger] types[k]).properties@)
    &&& forall|k: int|
        0 <= k < types.len() ==> props_map((#[trigger] types[k]).properties@) == prop_steps(
            props_upto(nodes, seen[k], i, indexers),
            nodes[i].1.properties,
            count_of(ts, seen[k]),
            indexers,
        )
}

/// The number of instances of a type among all nodes.
pub open spec fn instance_count(nodes: Seq<(Seq<char>, NObjectView)>, t: usize) -> int {
    instances_upto(nodes, t, nodes.len() as int).len() as int
}

/// The totals over all nodes fit a `usize`.
pub open spec fn totals_fit(nodes: Seq<(Seq<char>, NObjectView)>) -> bool {
    &&& sum_upto(nodes, nodes.len() as int, reference_count()) <= usize::MAX
    &&& sum_upto(nodes, nodes.len() as int, property_count()) <= usize::MAX
    &&& rev_work_upto(nodes, nodes.len() as int) <= u32::MAX
    &&& prop_work_upto(nodes, nodes.len() as int) <= u32::MAX
    &&& ref_work_upto(nodes, nodes.len() as int) <= u32::MAX
}

/// Sorts the types by descending count, keeping each count with its type.
fn sort_by_count_desc(order: &mut Vec<IriIndex>, counts: &mut Vec<usize>, Ghost(cnt): Ghost<spec_fn(usize) -> int>)
    requires
        old(order)@.len() == old(counts)@.len(),
        old(order)@.no_duplicates(),
        forall|k: int| 0 <= k < old(order)@.len() ==> old(counts)@[k] == cnt(#[trigger] old(order)@[k]),
    ensures
        final(order)@.len() == old(order)@.len(),
        final(counts)@.len() == final(order)@.len(),
        final(order)@.no_duplicates(),
        forall|x: usize| #[trigger] final(order)@.contains(x) == old(order)@.contains(x),
        forall|k: int| 0 <= k < final(order)@.len() ==> final(counts)@[k] == cnt(#[trigger] final(order)@[k]),
        forall|a: int, b: int| 0 <= a < b < final(counts)@.len() ==> #[trigger] final(counts)@[a] >= #[trigger] final(counts)@[b],
{
    let n = order.len();
    if n == 0 {
        return;
    }
    let mut i: usize = 1;
    while i < n
        invariant
            1 <= i <= n,
            order@.len() == n,
            counts@.len() == n,
            order@.no_duplicates(),
            forall|x: usize| #[trigger] order@.contains(x) == old(order)@.contains(x),
            forall|k: int| 0 <= k < n ==> counts@[k] == cnt(#[trigger] order@[k]),
            forall|a: int, b: int| 0 <= a < b < i ==> #[trigger] counts@[a] >= #[trigger] counts@[b],
        decreases n - i,
    {
        let mut j: usize = i;
        while j > 0 && counts[j - 1] < counts[j]
            invariant
                0 <= j <= i < n,
                order@.len() == n,
                counts@.len() == n,
                order@.no_duplicates(),
                forall|x: usize| #[trigger] order@.contains(x) == old(order)@.contains(x),
                forall|k: int| 0 <= k < n ==> counts@[k] == cnt(#[trigger] order@[k]),
                forall|a: int, b: int| 0 <= a < b <= i && a != j && b != j ==> #[trigger] counts@[a] >= #[trigger] counts@[b],
                forall|b: int| j < b <= i ==> counts@[j as int] > #[trigger] counts@[b],
                0 < j < i ==> counts@[j - 1] >= counts@[j + 1],
            decreases j,
        {
            let ghost before = order@;
            let a = order[j - 1];
            let b = order[j];
            order.set(j - 1, b);
            order.set(j, a);
            let ca = counts[j - 1];
            let cb = counts[j];
            counts.set(j - 1, cb);
            counts.set(j, ca);
            proof {
                assert forall|x: usize| #[trigger] order@.contains(x) == before.contains(x) by {
                    if order@.contains(x) {
                        let w = choose|w: int| 0 <= w < n && order@[w] == x;
                        if w == j - 1 {
                            assert(before[j as int] == x);
                        } else if w == j {
                            assert(before[j - 1] == x);
                        } else {
                            assert(before[w] == x);
                        }
                    }
                    if before.contains(x) {
                        let w = choose|w: int| 0 <= w < n && before[w] == x;
                        if w == j - 1 {
                            assert(order@[j as int] == x);
                        } else if w == j {
                            assert(order@[j - 1] == x);
                        } else {
                            assert(order@[w] == x);
                        }
                    }
                }
                assert forall|x: int, y: int| 0 <= x < n && 0 <= y < n && x != y implies order@[x] != order@[y] by {
                    let fx = if x == j - 1 {
                        j as int
                    } else if x == j {
                        j - 1
                    } else {
                        x
                    };
                    let fy = if y == j - 1 {
                        j as int
                    } else if y == j {
                        j - 1
                    } else {
                        y
                    };
                    assert(order@[x] == before[fx] && order@[y] == before[fy]);
                }
            }
            j -= 1;
        }
        i += 1;
    }
}

/// The count columns of the type table that its rows can be sorted by.
#[derive(Debug, Clone, Copy, PartialEq, Eq, Structural)]
pub enum TypeCountColumn {
    Instances,
    DataProps,
    OutRef,
    InRef,
}

/// The count a column shows for a type's entry.
pub open spec fn column_count(d: TypeData, column: TypeCountColumn) -> int {
    match column {
        TypeCountColumn::Instances => d.instances@.len() as int,
        TypeCountColumn::DataProps => d.properties@.len() as int,
        TypeCountColumn::OutRef => d.references@.len() as int,
        TypeCountColumn::InRef => d.rev_references@.len() as int,
    }
}

/// The entries name distinct types.
pub open spec fn type_entries_distinct(types: Seq<TypeData>) -> bool {
    forall|a: int, b: int| 0 <= a < b < types.len() ==> (#[trigger] types[a]).type_index != (#[trigger] types[b]).type_index
}

/// Some entry is for type `t`.
pub open spec fn has_type_entry(types: Seq<TypeData>, t: usize) -> bool {
    exists|a: int| 0 <= a < types.len() && (#[trigger] types[a]).type_index == t
}

/// The entry for type `t`.
pub open spec fn entry_of_type(types: Seq<TypeData>, t: usize) -> int {
    choose|a: int| 0 <= a < types.len() && (#[trigger] types[a]).type_index == t
}

/// The count a column shows for type `t`.
pub open spec fn type_column_count(types: Seq<TypeData>, column: TypeCountColumn, t: usize) -> int {
    column_count(types[entry_of_type(types, t)], column)
}

/// The position of the entry for type `t`.
fn find_type_entry(types: &Vec<TypeData>, t: IriIndex) -> (k: usize)
    requires
        has_type_entry(types@, t),
        type_entries_distinct(types@),
    ensures
        k < types@.len(),
        k == entry_of_type(types@, t),
{
    let ghost w = entry_of_type(types@, t);
    let mut k: usize = 0;
    while k < types.len()
        invariant
            k <= types@.len(),
            0 <= w < types@.len(),
            types@[w].type_index == t,
            type_entries_distinct(types@),
            forall|a: int| 0 <= a < k ==> (#[trigger] types@[a]).type_index != t,
        decreases types@.len() - k,
    {
        if types[k].type_index == t {
            proof {
                if (k as int) < w {
                    assert(types@[k as int].type_index != types@[w].type_index);
                } else if (k as int) > w {
                    assert(types@[w].type_index != types@[k as int].type_index);
                }
            }
            return k;
        }
        k += 1;
    }
    proof {
        assert(types@[w].type_index != t);
    }
    0
}

impl TypeInstanceIndex {
    /// An index of no data.
    pub fn new() -> (res: Self)
        ensures
            res.nodes == 0 && res.unique_predicates == 0 && res.unique_types == 0,
            res.properties == 0 && res.references == 0 && res.blank_nodes == 0,
            res.max_instance_type_count == 0 && res.min_instance_type_count == 0 && res.unresolved_references == 0,
            res.types@.len() == 0,
            res.types_order@.len() == 0,
            res.types_filtered@.len() == 0,
            res.selected_type is None,
            res.types_filter@.len() == 0,
    {
        TypeInstanceIndex {
            nodes: 0,
            unique_predicates: 0,
            unique_types: 0,
            properties: 0,
            references: 0,
            blank_nodes: 0,
            max_instance_type_count: 0,
            min_instance_type_count: 0,
            unresolved_references: 0,
            types: Vec::new(),
            types_order: Vec::new(),
            types_filtered: Vec::new(),
            selected_type: None,
            types_filter: String::new(),
        }
    }

    /// Forgets the counts and types; the filter and selection stay.
    pub fn clean(&mut self)
        ensures
            final(self).nodes == 0 && final(self).unique_predicates == 0 && final(self).unique_types == 0,
            final(self).properties == 0 && final(self).references == 0 && final(self).blank_nodes == 0,
            final(self).max_instance_type_count == 0 && final(self).min_instance_type_count == 0,
            final(self).unresolved_references == 0,
            final(self).types@.len() == 0,
            final(self).types_order@.len() == 0,
            final(self).types_filtered == old(self).types_filtered,
            final(self).selected_type == old(self).selected_type,
            final(self).types_filter == old(self).types_filter,
    {
        self.nodes = 0;
        self.unique_predicates = 0;
        self.unique_types = 0;
        self.properties = 0;
        self.references = 0;
        self.blank_nodes = 0;
        self.unresolved_references = 0;
        self.max_instance_type_count = 0;
        self.min_instance_type_count = 0;
        self.types = Vec::new();
        self.types_order = Vec::new();
    }

    /// Sorts the shown types by a count column, greatest first; the list
    /// keeps the same types, and nothing else changes.
    pub fn sort_types_by_count(&mut self, column: TypeCountColumn)
        requires
            type_entries_distinct(old(self).types@),
            old(self).types_filtered@.no_duplicates(),
            forall|i: int|
                0 <= i < old(self).types_filtered@.len() ==> has_type_entry(
                    old(self).types@,
                    #[trigger] old(self).types_filtered@[i],
                ),
        ensures
            final(self).types_filtered@.len() == old(self).types_filtered@.len(),
            final(self).types_filtered@.no_duplicates(),
            forall|x: usize| #[trigger] final(self).types_filtered@.contains(x) == old(self).types_filtered@.contains(x),
            forall|a: int, b: int|
                0 <= a < b < final(self).types_filtered@.len() ==> type_column_count(
                    old(self).types@,
                    column,
                    #[trigger] final(self).types_filtered@[a],
                ) >= type_column_count(old(self).types@, column, #[trigger] final(self).types_filtered@[b]),
            final(self).types == old(self).types,
            final(self).types_order == old(self).types_order,
            final(self).selected_type == old(self).selected_type,
            final(self).types_filter == old(self).types_filter,
            final(self).nodes == old(self).nodes,
            final(self).unique_predicates == old(self).unique_predicates,
            final(self).unique_types == old(self).unique_types,
            final(self).properties == old(self).properties,
            final(self).references == old(self).references,
            final(self).blank_nodes == old(self).blank_nodes,
            final(self).max_instance_type_count == old(self).max_instance_type_count,
            final(self).min_instance_type_count == old(self).min_instance_type_count,
            final(self).unresolved_references == old(self).unresolved_references,
    {
        let ghost types = self.types@;
        let mut counts: Vec<usize> = Vec::new();
        let mut i: usize = 0;
        while i < self.types_filtered.len()
            invariant
                i <= self.types_filtered@.len(),
                self.types@ == types,
                type_entries_distinct(types),
                counts@.len() == i,
                forall|k: int|
                    0 <= k < self.types_filtered@.len() ==> has_type_entry(types, #[trigger] self.types_filtered@[k]),
                forall|k: int| 0 <= k < i ==> counts@[k] == type_column_count(types, column, #[trigger] self.types_filtered@[k]),
            decreases self.types_filtered@.len() - i,
        {
            let t = self.types_filtered[i];
            let k = find_type_entry(&self.types, t);
            let d = &self.types[k];
            let c = match column {
                TypeCountColumn::Instances => d.instances.len(),
                TypeCountColumn::DataProps => d.properties.len(),
                TypeCountColumn::OutRef => d.references.len(),
                TypeCountColumn::InRef => d.rev_references.len(),
            };
            counts.push(c);
            i += 1;
        }
        sort_by_count_desc(&mut self.types_filtered, &mut counts, Ghost(|t: usize| type_column_count(types, column, t)));
    }

    /// The position of the entry for type `t`, adding an entry without
    /// instances when there is none.
    fn type_slot(&mut self, t: IriIndex) -> (k: usize)
        requires
            forall|a: int, b: int| 0 <= a < b < old(self).types@.len() ==> (#[trigger] old(self).types@[a]).type_index
                != (#[trigger] old(self).types@[b]).type_index,
        ensures
            k < final(self).types@.len(),
            final(self).types@[k as int].type_index == t,
            (exists|a: int| 0 <= a < old(self).types@.len() && (#[trigger] old(self).types@[a]).type_index == t) ==> final(self).types
                == old(self).types,
            (forall|a: int| 0 <= a < old(self).types@.len() ==> (#[trigger] old(self).types@[a]).type_index != t) ==> final(self).types@
                == old(self).types@.push(final(self).types@[k as int]) && final(self).types@[k as int].instances@.len() == 0
                && final(self).types@[k as int].rev_references@.len() == 0 && final(self).types@[k as int].properties@.len() == 0
                && final(self).types@[k as int].references@.len() == 0,
            final(self).nodes == old(self).nodes,
            final(self).blank_nodes == old(self).blank_nodes,
            final(self).unresolved_references == old(self).unresolved_references,
            final(self).references == old(self).references,
            final(self).properties == old(self).properties,
    {
        let mut a: usize = 0;
        while a < self.types.len()
            invariant
                a <= self.types@.len(),
                forall|b: int| 0 <= b < a ==> (#[trigger] self.types@[b]).type_index != t,
            decreases self.types@.len() - a,
        {
            if self.types[a].type_index == t {
                return a;
            }
            a += 1;
        }
        self.types.push(TypeData::new(t));
        a
    }

    /// Rebuilds the index from the nodes: counts of subjects, nodes only
    /// referenced, blank nodes, references and properties; each type with
    /// its instances (types in order of first appearance); the types
    /// ordered by descending instance count, with the first selected and
    /// the filter cleared.
    pub fn update(&mut self, node_data: &NodeData)
        requires
            totals_fit(node_data.node_cache@),
            node_data.indexers.wf(),
        ensures
            ({
                let nodes = node_data.node_cache@;
                let n = nodes.len() as int;
                &&& final(self).nodes == sum_upto(nodes, n, is_subject())
                &&& final(self).unresolved_references == sum_upto(nodes, n, is_unresolved())
                &&& final(self).blank_nodes == sum_upto(nodes, n, is_blank())
                &&& final(self).references == sum_upto(nodes, n, reference_count())
                &&& final(self).properties == sum_upto(nodes, n, property_count())
                &&& final(self).unique_predicates == node_data.indexers.predicate_indexer@.len()
                &&& final(self).unique_types == node_data.indexers.type_indexer@.len()
                &&& types_indexed(final(self).types@, nodes, n)
                &&& props_indexed(final(self).types@, nodes, n, node_data.indexers)
                &&& refs_indexed(final(self).types@, nodes, n)
                &&& forall|k: int| 0 <= k < final(self).types@.len() ==> (#[trigger] final(self).types@[k]).filtered_instances@
                    == final(self).types@[k].instances@
                &&& final(self).types_order@.len() == types_seen(nodes, n).len()
                &&& final(self).types_order@.no_duplicates()
                &&& forall|t: usize| #[trigger] final(self).types_order@.contains(t) == types_seen(nodes, n).contains(t)
                &&& forall|a: int, b: int|
                    0 <= a < b < final(self).types_order@.len() ==> instance_count(nodes, #[trigger] final(self).types_order@[a])
                        >= instance_count(nodes, #[trigger] final(self).types_order@[b])
                &&& types_seen(nodes, n).len() == 0 ==> final(self).min_instance_type_count == 0
                    && final(self).max_instance_type_count == 0 && final(self).selected_type is None
                &&& types_seen(nodes, n).len() > 0 ==> final(self).selected_type == Some(final(self).types_order@[0])
                &&& forall|k: int| 0 <= k < types_seen(nodes, n).len() ==> final(self).min_instance_type_count <= instance_count(
                    nodes,
                    #[trigger] types_seen(nodes, n)[k],
                ) <= final(self).max_instance_type_count
                &&& types_seen(nodes, n).len() > 0 ==> types_seen(nodes, n).contains(
                    final(self).types_order@[final(self).types_order@.len() - 1],
                ) && final(self).min_instance_type_count == instance_count(
                    nodes,
                    final(self).types_order@[final(self).types_order@.len() - 1],
                ) && final(self).max_instance_type_count == instance_count(nodes, final(self).types_order@[0])
                &&& final(self).types_filtered@ == final(self).types_order@
                &&& final(self).types_filter@.len() == 0
            }),
    {
        self.clean();
        let ghost nodes = node_data.node_cache@;
        let n = node_data.len();
        let mut i: usize = 0;
        while i < n
            invariant
                nodes == node_data.node_cache@,
                n == nodes.len(),
                totals_fit(nodes),
                i <= n,
                types_indexed(self.types@, nodes, i as int),
                props_indexed(self.types@, nodes, i as int, node_data.indexers),
                refs_indexed(self.types@, nodes, i as int),
                node_data.indexers.wf(),
                self.nodes == sum_upto(nodes, i as int, is_subject()),
                self.unresolved_references == sum_upto(nodes, i as int, is_unresolved()),
                self.blank_nodes == sum_upto(nodes, i as int, is_blank()),
                self.references == sum_upto(nodes, i as int, reference_count()),
                self.properties == sum_upto(nodes, i as int, property_count()),
            decreases n - i,
        {
            let node = match node_data.get_node_by_index(i) {
                Some(node) => node,
                None => {
                    return;
                },
            };
            proof {
                lemma_sum_le_count(nodes, i as int, is_subject());
                lemma_sum_le_count(nodes, i as int, is_unresolved());
                lemma_sum_le_count(nodes, i as int, is_blank());
                lemma_sum_monotone(nodes, i + 1, n as int, reference_count());
                lemma_sum_monotone(nodes, i + 1, n as int, property_count());
            }
            if node.has_subject {
                self.nodes += 1;
            } else {
                self.unresolved_references += 1;
            }
            if node.is_blank_node {
                self.blank_nodes += 1;
            }
            let ghost types = node.types@;
            let ghost base = types_seen(nodes, i as int);
            proof {
                lemma_types_seen(nodes, i as int, 0);
                assert(types.take(0) =~= Seq::<usize>::empty());
                assert forall|k: int| 0 <= k < self.types@.len() implies (#[trigger] self.types@[k]).type_index == add_new(base, types.take(0))[k]
                    && self.types@[k].instances@ == instances_upto(nodes, add_new(base, types.take(0))[k], i as int) + Seq::new(
                    count_of(types.take(0), add_new(base, types.take(0))[k]),
                    |_x: int| i as usize,
                ) by {
                    assert(instances_upto(nodes, self.types@[k].type_index, i as int) + Seq::new(0, |_x: int| i as usize)
                        =~= instances_upto(nodes, self.types@[k].type_index, i as int));
                }
                assert forall|k: int, p: usize| 0 <= k < self.types@.len() implies #[trigger] pair_value(self.types@[k].rev_references@, p)
                    == rev_count_upto(nodes, add_new(base, types.take(0))[k], p, i as int) + count_of(
                    types.take(0),
                    add_new(base, types.take(0))[k],
                ) * pred_count(nodes[i as int].1.reverse_references, p) by {
                    assert(0 * pred_count(nodes[i as int].1.reverse_references, p) == 0);
                }
                assert(props_partial(self.types@, nodes, i as int, types.take(0), node_data.indexers));
                assert(refs_partial(self.types@, nodes, i as int, types.take(0)));
            }
            let mut j: usize = 0;
            while j < node.types.len()
                invariant
                    nodes == node_data.node_cache@,
                    i < n == nodes.len(),
                    types == node.types@,
                    types == nodes[i as int].1.types,
                    node.view() == nodes[i as int].1,
                    totals_fit(nodes),
                    base == types_seen(nodes, i as int),
                    base.no_duplicates(),
                    j <= types.len(),
                    types_partial(self.types@, nodes, i as int, types.take(j as int)),
                    props_partial(self.types@, nodes, i as int, types.take(j as int), node_data.indexers),
                    refs_partial(self.types@, nodes, i as int, types.take(j as int)),
                    node_data.indexers.wf(),
                    self.references == sum_upto(nodes, i as int, reference_count()),
                    self.properties == sum_upto(nodes, i as int, property_count()),
                    self.nodes == sum_upto(nodes, i + 1, is_subject()),
                    self.unresolved_references == sum_upto(nodes, i + 1, is_unresolved()),
                    self.blank_nodes == sum_upto(nodes, i + 1, is_blank()),
                decreases types.len() - j,
            {
                let t = node.types[j];
                let ghost ts = types.take(j as int);
                let ghost seen = add_new(base, ts);
                let ghost before = self.types@;
                proof {
                    lemma_add_new(base, ts);
                    assert forall|a: int, b: int| 0 <= a < b < self.types@.len() implies (#[trigger] self.types@[a]).type_index
                        != (#[trigger] self.types@[b]).type_index by {
                        assert(self.types@[a].type_index == seen[a] && self.types@[b].type_index == seen[b]);
                    }
                }
                let k = self.type_slot(t);
                self.types[k].instances.push(i);
                let ghost mid = self.types@;
                let ghost revs = nodes[i as int].1.reverse_references;
                proof {
                    let ts2 = types.take(j + 1);
                    assert(ts2 =~= ts.push(t));
                    lemma_count_of_push(ts, t, t);
                    lemma_count_of_le_len(ts2, t);
                    lemma_rev_work_monotone(nodes, i + 1, n as int);
                    lemma_add_new(base, ts);
                    if seen.contains(t) {
                        let w = choose|w: int| 0 <= w < seen.len() && seen[w] == t;
                        assert(before[w].type_index == t);
                        assert(w == k) by {
                            if w != k {
                                if w < k {
                                    assert(before[w].type_index != before[k as int].type_index);
                                } else {
                                    assert(before[k as int].type_index != before[w].type_index);
                                }
                            }
                        }
                        assert(mid[k as int].rev_references == before[k as int].rev_references);
                    } else {
                        assert(!base.contains(t));
                        lemma_count_of_contains(ts, t);
                        assert(mid[k as int].rev_references@.len() == 0);
                        assert forall|p: usize| #[trigger] pair_value(mid[k as int].rev_references@, p) == rev_count_upto(nodes, t, p, i as int)
                            + count_of(ts, t) * pred_count(revs, p) by {
                            lemma_no_rev_counts(nodes, i as int, t, p);
                            assert(count_of(ts, t) == 0);
                            assert(0 * pred_count(revs, p) == 0);
                        }
                    }
                    assert forall|p: usize| #[trigger] pair_value(mid[k as int].rev_references@, p) == rev_count_upto(nodes, t, p, i as int)
                        + count_of(ts, t) * pred_count(revs, p) by {
                        if seen.contains(t) {
                            let w = choose|w: int| 0 <= w < seen.len() && seen[w] == t;
                            assert(pair_value(before[k as int].rev_references@, p) == rev_count_upto(nodes, seen[k as int], p, i as int)
                                + count_of(ts, seen[k as int]) * pred_count(revs, p));
                        }
                    }
                    assert forall|p: usize| #[trigger] pair_value(mid[k as int].rev_references@, p) + pred_count(node.reverse_references@, p)
                        <= u32::MAX by {
                        let c = count_of(ts, t);
                        let x = pred_count(revs, p);
                        let lt = types.len();
                        let lr = revs.len();
                        lemma_rev_count_bound(nodes, t, p, i as int);
                        lemma_pred_count_le_len(revs, p);
                        assert(c + 1 <= lt);
                        assert(c * x + x <= lt * lr) by (nonlinear_arith)
                            requires
                                c + 1 <= lt,
                                x <= lr,
                        ;
                        assert(rev_work_upto(nodes, i + 1) == rev_work_upto(nodes, i as int) + lt * lr);
                    }
                    assert(counts_wf(mid[k as int].rev_references@));
                }
                self.types[k].count_reverse_of(&node.reverse_references);
                proof {
                    let ts2 = types.take(j + 1);
                    assert(ts2 =~= ts.push(t));
                    assert(ts2.drop_last() =~= ts);
                    let seen2 = add_new(base, ts2);
                    assert forall|x: usize| #[trigger] count_of(ts2, x) == count_of(ts, x) + if x == t {
                        1nat
                    } else {
                        0nat
                    } by {
                        lemma_count_of_push(ts, t, x);
                    }
                    assert(self.types@[k as int].type_index == t);
                    assert forall|q: int| 0 <= q < self.types@.len() && q != k implies #[trigger] self.types@[q] == mid[q] by {}
                    if seen.contains(t) {
                        assert(seen2 == seen);
                        assert forall|q: int| 0 <= q < self.types@.len() implies (#[trigger] self.types@[q]).type_index == seen2[q]
                            && self.types@[q].instances@ == instances_upto(nodes, seen2[q], i as int) + Seq::new(
                            count_of(ts2, seen2[q]),
                            |_x: int| i as usize,
                        ) by {
                            if q == k {
                                assert(self.types@[q].instances@ =~= before[q].instances@.push(i));
                                assert(instances_upto(nodes, seen2[q], i as int) + Seq::new(count_of(ts2, seen2[q]), |_x: int| i as usize)
                                    =~= (instances_upto(nodes, seen2[q], i as int) + Seq::new(count_of(ts, seen2[q]), |_x: int| i as usize)).push(i));
                            } else {
                                assert(mid[q] == before[q]);
                                assert(seen2[q] != t) by {
                                    if seen2[q] == t {
                                        assert(before[q].type_index == before[k as int].type_index);
                                    }
                                }
                            }
                        }
                        assert forall|q: int| 0 <= q < self.types@.len() implies counts_wf((#[trigger] self.types@[q]).rev_references@) by {
                            if q != k {
                                assert(mid[q] == before[q]);
                            }
                        }
                        assert forall|q: int, p: usize| 0 <= q < self.types@.len() implies #[trigger] pair_value(
                            self.types@[q].rev_references@,
                            p,
                        ) == rev_count_upto(nodes, seen2[q], p, i as int) + count_of(ts2, seen2[q]) * pred_count(revs, p) by {
                            let x = pred_count(revs, p);
                            if q == k {
                                let c = count_of(ts, t);
                                assert(c * x + x == (c + 1) * x) by (nonlinear_arith);
                            } else {
                                assert(mid[q] == before[q]);
                                assert(seen2[q] != t) by {
                                    if seen2[q] == t {
                                        assert(before[q].type_index == before[k as int].type_index);
                                    }
                                }
                                assert(pair_value(before[q].rev_references@, p) == rev_count_upto(nodes, seen[q], p, i as int)
                                    + count_of(ts, seen[q]) * x);
                            }
                        }
                    } else {
                        assert(seen2 == seen.push(t));
                        assert(!base.contains(t));
                        assert(!ts.contains(t));
                        lemma_no_instances(nodes, i as int, t);
                        lemma_count_of_contains(ts, t);
                        assert forall|q: int| 0 <= q < self.types@.len() implies (#[trigger] self.types@[q]).type_index == seen2[q]
                            && self.types@[q].instances@ == instances_upto(nodes, seen2[q], i as int) + Seq::new(
                            count_of(ts2, seen2[q]),
                            |_x: int| i as usize,
                        ) by {
                            if q == k {
                                assert(q == seen.len());
                                assert(instances_upto(nodes, seen2[q], i as int) + Seq::new(count_of(ts2, seen2[q]), |_x: int| i as usize)
                                    =~= seq![i]);
                                assert(self.types@[q].instances@ =~= seq![i]);
                            } else {
                                assert(mid[q] == before[q]);
                                assert(seen2[q] == seen[q]);
                                assert(seen[q] != t);
                            }
                        }
                        assert forall|q: int| 0 <= q < self.types@.len() implies counts_wf((#[trigger] self.types@[q]).rev_references@) by {
                            if q != k {
                                assert(mid[q] == before[q]);
                            }
                        }
                        assert forall|q: int, p: usize| 0 <= q < self.types@.len() implies #[trigger] pair_value(
                            self.types@[q].rev_references@,
                            p,
                        ) == rev_count_upto(nodes, seen2[q], p, i as int) + count_of(ts2, seen2[q]) * pred_count(revs, p) by {
                            let x = pred_count(revs, p);
                            if q == k {
                                let c = count_of(ts, t);
                                assert(c * x + x == (c + 1) * x) by (nonlinear_arith);
                            } else {
                                assert(mid[q] == before[q]);
                                assert(seen2[q] == seen[q]);
                                assert(seen[q] != t);
                                assert(pair_value(before[q].rev_references@, p) == rev_count_upto(nodes, seen[q], p, i as int)
                                    + count_of(ts, seen[q]) * x);
                            }
                        }
                    }
                }
                let ghost mid2 = self.types@;
                let ghost props = nodes[i as int].1.properties;
                let ghost idx = node_data.indexers;
                proof {
                    let ts2 = types.take(j + 1);
                    assert(ts2 =~= ts.push(t));
                    lemma_count_of_push(ts, t, t);
                    lemma_count_of_le_len(ts2, t);
                    lemma_add_new(base, ts);
                    let c = count_of(ts, t);
                    let l = props.len();
                    let lt = types.len();
                    assert(mid2[k as int].properties == mid[k as int].properties);
                    if seen.contains(t) {
                        let w = choose|w: int| 0 <= w < seen.len() && seen[w] == t;
                        assert(before[w].type_index == t);
                        assert(w == k) by {
                            if w != k {
                                if w < k {
                                    assert(before[w].type_index != before[k as int].type_index);
                                } else {
                                    assert(before[k as int].type_index != before[w].type_index);
                                }
                            }
                        }
                        assert(mid[k as int].properties == before[k as int].properties);
                        assert(props_map(mid2[k as int].properties@) == prop_steps(props_upto(nodes, t, i as int, idx), props, c, idx));
                    } else {
                        assert(!base.contains(t));
                        lemma_count_of_contains(ts, t);
                        lemma_no_props(nodes, i as int, t, idx);
                        assert(mid2[k as int].properties@.len() == 0);
                        assert(props_map(mid2[k as int].properties@) =~= Map::<usize, DataPropCharacteristics>::empty());
                        assert(prop_steps(props_upto(nodes, t, i as int, idx), props, c, idx) == Map::<
                            usize,
                            DataPropCharacteristics,
                        >::empty());
                    }
                    assert(prop_keys_distinct(mid2[k as int].properties@));
                    lemma_prop_work_monotone(nodes, i + 1, n as int);
                    lemma_prop_work_monotone(nodes, i as int, n as int);
                    lemma_props_upto_bound(nodes, t, i as int, idx, u32::MAX as int);
                    assert(c * l + l <= lt * l) by (nonlinear_arith)
                        requires
                            c + 1 <= lt,
                    ;
                    assert(l <= lt * l) by (nonlinear_arith)
                        requires
                            1 <= lt,
                    ;
                    assert(prop_work_upto(nodes, i + 1) == prop_work_upto(nodes, i as int) + lt * l);
                    lemma_prop_steps_bound(props_upto(nodes, t, i as int, idx), props, c, idx, prop_work_upto(nodes, i as int));
                    let pv = mid2[k as int].properties@;
                    assert forall|x: int| 0 <= x < pv.len() implies (#[trigger] pv[x]).1.count + prop_count(node.properties@, pv[x].0)
                        <= u32::MAX by {
                        lemma_props_map(pv, x);
                        lemma_prop_count_contains(props, pv[x].0);
                    }
                }
                self.types[k].count_properties_of(&node.properties, &node_data.indexers);
                proof {
                    let ts2 = types.take(j + 1);
                    assert(ts2 =~= ts.push(t));
                    assert(ts2.drop_last() =~= ts);
                    let seen2 = add_new(base, ts2);
                    assert forall|x: usize| #[trigger] count_of(ts2, x) == count_of(ts, x) + if x == t {
                        1nat
                    } else {
                        0nat
                    } by {
                        lemma_count_of_push(ts, t, x);
                    }
                    assert forall|q: int| 0 <= q < self.types@.len() && q != k implies #[trigger] self.types@[q] == mid2[q] by {}
                    assert forall|q: int| 0 <= q < self.types@.len() implies prop_keys_distinct((#[trigger] self.types@[q]).properties@) by {
                        if q != k {
                            if q < before.len() {
                                assert(mid2[q] == before[q]);
                            }
                        }
                    }
                    assert forall|q: int| 0 <= q < self.types@.len() implies props_map((#[trigger] self.types@[q]).properties@) == prop_steps(
                        props_upto(nodes, seen2[q], i as int, idx),
                        props,
                        count_of(ts2, seen2[q]),
                        idx,
                    ) by {
                        if q == k {
                            assert(seen2[q] == t);
                            assert(count_of(ts2, t) == count_of(ts, t) + 1);
                        } else {
                            assert(q < before.len());
                            assert(mid2[q] == before[q]);
                            if seen.contains(t) {
                                assert(seen2 == seen);
                                assert(seen2[q] != t) by {
                                    if seen2[q] == t {
                                        assert(before[q].type_index == before[k as int].type_index);
                                    }
                                }
                            } else {
                                assert(seen2 == seen.push(t));
                                assert(seen2[q] == seen[q]);
                                assert(seen[q] != t);
                            }
                        }
                    }
                }
                let ghost mid3 = self.types@;
                let ghost refs = nodes[i as int].1.references;
                proof {
                    let ts2 = types.take(j + 1);
                    assert(ts2 =~= ts.push(t));
                    lemma_count_of_push(ts, t, t);
                    lemma_count_of_le_len(ts2, t);
                    lemma_add_new(base, ts);
                    let c = count_of(ts, t);
                    let l = refs.len();
                    let lt = types.len();
                    assert(mid3[k as int].references == mid[k as int].references);
                    if seen.contains(t) {
                        let w = choose|w: int| 0 <= w < seen.len() && seen[w] == t;
                        assert(before[w].type_index == t);
                        assert(w == k) by {
                            if w != k {
                                if w < k {
                                    assert(before[w].type_index != before[k as int].type_index);
                                } else {
                                    assert(before[k as int].type_index != before[w].type_index);
                                }
                            }
                        }
                        assert(mid[k as int].references == before[k as int].references);
                        assert(refs_map(mid3[k as int].references@) == ref_steps(refs_upto(nodes, t, i as int), refs, nodes, c));
                    } else {
                        assert(!base.contains(t));
                        lemma_count_of_contains(ts, t);
                        lemma_no_refs(nodes, i as int, t);
                        assert(mid3[k as int].references@.len() == 0);
                        assert(refs_map(mid3[k as int].references@) =~= Map::<usize, RefStats>::empty());
                        assert(ref_steps(refs_upto(nodes, t, i as int), refs, nodes, c) == Map::<usize, RefStats>::empty());
                    }
                    assert(ref_keys_distinct(mid3[k as int].references@));
                    lemma_ref_work_monotone(nodes, i + 1, n as int);
                    lemma_ref_work_monotone(nodes, i as int, n as int);
                    lemma_refs_upto_bound(nodes, t, i as int, u32::MAX as int);
                    assert(c * l + l <= lt * l) by (nonlinear_arith)
                        requires
                            c + 1 <= lt,
                    ;
                    assert(l <= lt * l) by (nonlinear_arith)
                        requires
                            1 <= lt,
                    ;
                    assert(ref_work_upto(nodes, i + 1) == ref_work_upto(nodes, i as int) + lt * l);
                    lemma_ref_steps_bound(refs_upto(nodes, t, i as int), refs, nodes, c, ref_work_upto(nodes, i as int));
                    let rv = mid3[k as int].references@;
                    assert forall|x: int| 0 <= x < rv.len() implies (#[trigger] rv[x]).1.count + ref_scan(
                        node.references@,
                        rv[x].0,
                        node_data.node_cache@,
                    ).0 <= u32::MAX by {
                        lemma_refs_map(rv, x);
                        lemma_ref_scan_len(refs, rv[x].0, nodes);
                    }
                }
                self.types[k].count_references_of(&node.references, node_data);
                proof {
                    let ts2 = types.take(j + 1);
                    assert(ts2 =~= ts.push(t));
                    assert(ts2.drop_last() =~= ts);
                    let seen2 = add_new(base, ts2);
                    assert forall|x: usize| #[trigger] count_of(ts2, x) == count_of(ts, x) + if x == t {
                        1nat
                    } else {
                        0nat
                    } by {
                        lemma_count_of_push(ts, t, x);
                    }
                    assert forall|q: int| 0 <= q < self.types@.len() && q != k implies #[trigger] self.types@[q] == mid3[q] by {}
                    assert forall|q: int| 0 <= q < self.types@.len() implies ref_keys_distinct((#[trigger] self.types@[q]).references@) by {
                        if q != k {
                            if q < before.len() {
                                assert(mid3[q] == before[q]);
                            }
                        }
                    }
                    assert forall|q: int| 0 <= q < self.types@.len() implies refs_map((#[trigger] self.types@[q]).references@) == ref_steps(
                        refs_upto(nodes, seen2[q], i as int),
                        refs,
                        nodes,
                        count_of(ts2, seen2[q]),
                    ) by {
                        if q == k {
                            assert(seen2[q] == t);
                            assert(count_of(ts2, t) == count_of(ts, t) + 1);
                        } else {
                            assert(q < before.len());
                            assert(mid3[q] == before[q]);
                            if seen.contains(t) {
                                assert(seen2 == seen);
                                assert(seen2[q] != t) by {
                                    if seen2[q] == t {
                                        assert(before[q].type_index == before[k as int].type_index);
                                    }
                                }
                            } else {
                                assert(seen2 == seen.push(t));
                                assert(seen2[q] == seen[q]);
                                assert(seen[q] != t);
                            }
                        }
                    }
                    assert forall|q: int| 0 <= q < self.types@.len() implies prop_keys_distinct((#[trigger] self.types@[q]).properties@) by {
                        assert(self.types@[q].properties == mid3[q].properties);
                    }
                }
                j += 1;
            }
            proof {
                assert(types.take(types.len() as int) =~= types);
                assert forall|k: int| 0 <= k < self.types@.len() implies (#[trigger] self.types@[k]).type_index == types_seen(nodes, i + 1)[k]
                    && self.types@[k].instances@ == instances_upto(nodes, self.types@[k].type_index, i + 1) by {
                }
            }
            self.references += node.references.len();
            self.properties += node.properties.len();
            i += 1;
        }
        self.unique_predicates = node_data.unique_predicates();
        self.unique_types = node_data.unique_types();
        // The types with their instance counts, in order of first appearance.
        let mut order: Vec<IriIndex> = Vec::new();
        let mut counts: Vec<usize> = Vec::new();
        let ghost seen = types_seen(nodes, n as int);
        let ghost cnt = |t: usize| instance_count(nodes, t);
        let mut k: usize = 0;
        while k < self.types.len()
            invariant
                types_indexed(self.types@, nodes, n as int),
                props_indexed(self.types@, nodes, n as int, node_data.indexers),
                refs_indexed(self.types@, nodes, n as int),
                seen == types_seen(nodes, n as int),
                n == nodes.len(),
                cnt == (|t: usize| instance_count(nodes, t)),
                k <= self.types@.len(),
                order@ == seen.take(k as int),
                counts@.len() == k,
                forall|q: int| 0 <= q < k ==> counts@[q] == cnt(#[trigger] order@[q]),
                forall|q: int| 0 <= q < k ==> (#[trigger] self.types@[q]).filtered_instances@ == self.types@[q].instances@,
                self.nodes == sum_upto(nodes, n as int, is_subject()),
                self.unresolved_references == sum_upto(nodes, n as int, is_unresolved()),
                self.blank_nodes == sum_upto(nodes, n as int, is_blank()),
                self.references == sum_upto(nodes, n as int, reference_count()),
                self.properties == sum_upto(nodes, n as int, property_count()),
                self.unique_predicates == node_data.indexers.predicate_indexer@.len(),
                self.unique_types == node_data.indexers.type_indexer@.len(),
            decreases self.types@.len() - k,
        {
            let t = self.types[k].type_index;
            let c = self.types[k].instances.len();
            let f = self.types[k].instances.clone();
            self.types[k].filtered_instances = f;
            order.push(t);
            counts.push(c);
            proof {
                assert(order@ =~= seen.take(k + 1));
            }
            k += 1;
        }
        proof {
            assert(order@ =~= seen);
            lemma_types_seen(nodes, n as int, 0);
        }
        sort_by_count_desc(&mut order, &mut counts, Ghost(cnt));
        let m = order.len();
        if m == 0 {
            self.min_instance_type_count = 0;
            self.max_instance_type_count = 0;
            self.selected_type = None;
        } else {
            self.max_instance_type_count = counts[0];
            self.min_instance_type_count = counts[m - 1];
            self.selected_type = Some(order[0]);
            proof {
                assert forall|q: int| 0 <= q < seen.len() implies self.min_instance_type_count <= instance_count(
                    nodes,
                    #[trigger] seen[q],
                ) <= self.max_instance_type_count by {
                    assert(seen.contains(seen[q]));
                    assert(order@.contains(seen[q]));
                    let w = choose|w: int| 0 <= w < m && order@[w] == seen[q];
                    if w > 0 {
                        assert(counts@[0] >= counts@[w]);
                    }
                    if w < m - 1 {
                        assert(counts@[w] >= counts@[m - 1]);
                    }
                }
                assert(order@.contains(order@[m - 1]));
            }
        }
        proof {
            assert forall|a: int, b: int| 0 <= a < b < order@.len() implies instance_count(nodes, #[trigger] order@[a]) >= instance_count(
                nodes,
                #[trigger] order@[b],
            ) by {
                assert(counts@[a] >= counts@[b]);
            }
        }
        self.types_filtered = order.clone();
        self.types_order = order;
        self.types_filter = String::new();
    }
}

} // verus!
