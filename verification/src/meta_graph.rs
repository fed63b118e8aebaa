//! The graph of types: a node for each type of the loaded data, and an
//! edge wherever instances of one type reference instances of another.

use vstd::prelude::*;

use crate::support::sorted_vec::SortedVec;
use crate::table_view::{ReferenceCharacteristics, TypeData, TypeInstanceIndex};
use crate::IriIndex;

verus! {

/// An edge of the type graph between layout positions, by a predicate.
#[derive(Debug, Clone, Copy, PartialEq, Eq, Structural)]
pub struct TypeEdge {
    pub from: usize,
    pub to: usize,
    pub predicate: IriIndex,
}

/// The first position of type `t` in the layout, or -1.
pub open spec fn pos_of(layout: Seq<IriIndex>, t: IriIndex) -> int
    decreases layout.len(),
{
    if layout.len() == 0 {
        -1
    } else {
        let p = pos_of(layout.drop_last(), t);
        if p >= 0 {
            p
        } else if layout.last() == t {
            layout.len() - 1
        } else {
            -1
        }
    }
}

/// The edges from position `pos` (of type `t`) by predicate `p` to the
/// referenced types `tys`: to itself for `t`, else to the position of each
/// type the layout has.
pub open spec fn ref_type_edges(layout: Seq<IriIndex>, pos: int, t: IriIndex, p: IriIndex, tys: Seq<IriIndex>) -> Seq<TypeEdge>
    decreases tys.len(),
{
    if tys.len() == 0 {
        Seq::empty()
    } else {
        let before = ref_type_edges(layout, pos, t, p, tys.drop_last());
        let ty = tys.last();
        if ty == t {
            before.push(TypeEdge { from: pos as usize, to: pos as usize, predicate: p })
        } else if pos_of(layout, ty) >= 0 {
            before.push(TypeEdge { from: pos as usize, to: pos_of(layout, ty) as usize, predicate: p })
        } else {
            before
        }
    }
}

/// The edges from position `pos` (of type `t`) for the reference
/// statistics of the type, predicate by predicate.
pub open spec fn pred_edges(
    layout: Seq<IriIndex>,
    pos: int,
    t: IriIndex,
    refs: Seq<(IriIndex, ReferenceCharacteristics)>,
) -> Seq<TypeEdge>
    decreases refs.len(),
{
    if refs.len() == 0 {
        Seq::empty()
    } else {
        pred_edges(layout, pos, t, refs.drop_last()) + ref_type_edges(layout, pos, t, refs.last().0, refs.last().1.types@)
    }
}

/// The first entry of the index for type `t`, or -1.
pub open spec fn entry_of(types: Seq<TypeData>, t: IriIndex) -> int
    decreases types.len(),
{
    if types.len() == 0 {
        -1
    } else {
        let e = entry_of(types.drop_last(), t);
        if e >= 0 {
            e
        } else if types.last().type_index == t {
            types.len() - 1
        } else {
            -1
        }
    }
}

/// The edges of the first `n` layout positions, position by position.
pub open spec fn layout_edges(layout: Seq<IriIndex>, types: Seq<TypeData>, n: int) -> Seq<TypeEdge>
    decreases n,
{
    if n <= 0 {
        Seq::empty()
    } else {
        let pos = n - 1;
        let e = entry_of(types, layout[pos]);
        layout_edges(layout, types, n - 1) + if e >= 0 {
            pred_edges(layout, pos, layout[pos], types[e].references@)
        } else {
            Seq::empty()
        }
    }
}

proof fn lemma_pos_of_range(layout: Seq<IriIndex>, t: IriIndex)
    ensures
        -1 <= pos_of(layout, t) < layout.len(),
        pos_of(layout, t) >= 0 ==> layout[pos_of(layout, t)] == t,
        pos_of(layout, t) < 0 ==> !layout.contains(t),
    decreases layout.len(),
{
    if layout.len() > 0 {
        lemma_pos_of_range(layout.drop_last(), t);
        if layout.contains(t) && pos_of(layout.drop_last(), t) < 0 && layout.last() != t {
            let i = choose|i: int| 0 <= i < layout.len() && layout[i] == t;
            assert(layout.drop_last()[i] == t);
        }
    }
}

proof fn lemma_entry_of_range(types: Seq<TypeData>, t: IriIndex)
    ensures
        -1 <= entry_of(types, t) < types.len(),
        entry_of(types, t) >= 0 ==> types[entry_of(types, t)].type_index == t,
        entry_of(types, t) < 0 ==> forall|i: int| 0 <= i < types.len() ==> (#[trigger] types[i]).type_index != t,
    decreases types.len(),
{
    if types.len() > 0 {
        lemma_entry_of_range(types.drop_last(), t);
        if entry_of(types, t) < 0 {
            assert forall|i: int| 0 <= i < types.len() implies (#[trigger] types[i]).type_index != t by {
                if i < types.len() - 1 {
                    assert(types.drop_last()[i] == types[i]);
                }
            }
        }
    }
}

/// The first position of a type in the layout, or none.
fn find_pos(layout: &Vec<IriIndex>, t: IriIndex) -> (res: Option<usize>)
    ensures
        match res {
            Some(i) => i as int == pos_of(layout@, t),
            None => pos_of(layout@, t) < 0,
        },
{
    let mut i: usize = 0;
    while i < layout.len()
        invariant
            i <= layout@.len(),
            pos_of(layout@.take(i as int), t) < 0,
        decreases layout@.len() - i,
    {
        proof {
            assert(layout@.take(i + 1).drop_last() =~= layout@.take(i as int));
        }
        if layout[i] == t {
            proof {
                lemma_pos_of_prefix(layout@, i + 1, t);
            }
            return Some(i);
        }
        i += 1;
    }
    proof {
        assert(layout@.take(layout@.len() as int) =~= layout@);
    }
    None
}

/// Where a prefix has the type, the whole list has it at the same first
/// position.
proof fn lemma_pos_of_prefix(layout: Seq<IriIndex>, k: int, t: IriIndex)
    requires
        0 <= k <= layout.len(),
        pos_of(layout.take(k), t) >= 0,
    ensures
        pos_of(layout, t) == pos_of(layout.take(k), t),
    decreases layout.len() - k,
{
    if k < layout.len() {
        assert(layout.take(k + 1).drop_last() =~= layout.take(k));
        lemma_pos_of_prefix(layout, k + 1, t);
    } else {
        assert(layout.take(k) =~= layout);
    }
}

/// The first entry of the index for a type, or none.
fn find_entry(types: &Vec<TypeData>, t: IriIndex) -> (res: Option<usize>)
    ensures
        match res {
            Some(i) => i as int == entry_of(types@, t),
            None => entry_of(types@, t) < 0,
        },
{
    let mut i: usize = 0;
    while i < types.len()
        invariant
            i <= types@.len(),
            entry_of(types@.take(i as int), t) < 0,
        decreases types@.len() - i,
    {
        proof {
            assert(types@.take(i + 1).drop_last() =~= types@.take(i as int));
        }
        if types[i].type_index == t {
            proof {
                lemma_entry_of_prefix(types@, i + 1, t);
            }
            return Some(i);
        }
        i += 1;
    }
    proof {
        assert(types@.take(types@.len() as int) =~= types@);
    }
    None
}

proof fn lemma_entry_of_prefix(types: Seq<TypeData>, k: int, t: IriIndex)
    requires
        0 <= k <= types.len(),
        entry_of(types.take(k), t) >= 0,
    ensures
        entry_of(types, t) == entry_of(types.take(k), t),
    decreases types.len() - k,
{
    if k < types.len() {
        assert(types.take(k + 1).drop_last() =~= types.take(k));
        lemma_entry_of_prefix(types, k + 1, t);
    } else {
        assert(types.take(k) =~= types);
    }
}

/// The edges of the type graph for a layout of types (the layout's types
/// in position order): for each position whose type the index has, each
/// reference predicate of the type and each type its references lead to,
/// an edge to the same position (references among instances of the type)
/// or to the position of the other type, where the layout has it.
pub fn create_types_layout_edges(layout: &Vec<IriIndex>, type_index: &TypeInstanceIndex) -> (edges: Vec<TypeEdge>)
    ensures
        edges@ == layout_edges(layout@, type_index.types@, layout@.len() as int),
{
    let mut edges: Vec<TypeEdge> = Vec::new();
    let mut pos: usize = 0;
    while pos < layout.len()
        invariant
            pos <= layout@.len(),
            edges@ == layout_edges(layout@, type_index.types@, pos as int),
        decreases layout@.len() - pos,
    {
        let t = layout[pos];
        proof {
            lemma_entry_of_range(type_index.types@, t);
        }
        match find_entry(&type_index.types, t) {
            Some(e) => {
                let refs = &type_index.types[e].references;
                let ghost base = edges@;
                let mut k: usize = 0;
                while k < refs.len()
                    invariant
                        pos < layout@.len(),
                        t == layout@[pos as int],
                        k <= refs@.len(),
                        edges@ == base + pred_edges(layout@, pos as int, t, refs@.take(k as int)),
                    decreases refs@.len() - k,
                {
                    let p = refs[k].0;
                    let tys = &refs[k].1.types;
                    let ghost mid = edges@;
                    let mut m: usize = 0;
                    while m < tys.len()
                        invariant
                            pos < layout@.len(),
                            m <= tys@.len(),
                            edges@ == mid + ref_type_edges(layout@, pos as int, t, p, tys@.take(m as int)),
                        decreases tys@.len() - m,
                    {
                        let ty = tys[m];
                        proof {
                            assert(tys@.take(m + 1).drop_last() =~= tys@.take(m as int));
                            assert(tys@.take(m + 1).last() == ty);
                            lemma_pos_of_range(layout@, ty);
                        }
                        if ty == t {
                            edges.push(TypeEdge { from: pos, to: pos, predicate: p });
                        } else {
                            match find_pos(layout, ty) {
                                Some(to) => {
                                    edges.push(TypeEdge { from: pos, to, predicate: p });
                                },
                                None => {},
                            }
                        }
                        m += 1;
                    }
                    proof {
                        assert(tys@.take(tys@.len() as int) =~= tys@);
                        assert(refs@.take(k + 1).drop_last() =~= refs@.take(k as int));
                        assert(refs@.take(k + 1).last() == refs@[k as int]);
                    }
                    k += 1;
                }
                proof {
                    assert(refs@.take(refs@.len() as int) =~= refs@);
                }
            },
            None => {
                proof {
                    assert(layout_edges(layout@, type_index.types@, pos + 1) =~= layout_edges(layout@, type_index.types@, pos as int));
                }
            },
        }
        pos += 1;
    }
    edges
}

/// The type graph: its nodes are the types of the index, ascending, and
/// its edges those of `create_types_layout_edges` for that layout.
pub struct MetaGraph {
    pub nodes: Vec<IriIndex>,
    pub edges: Vec<TypeEdge>,
}

/// Builds the type graph of an index.
pub fn build_meta_graph(type_index: &TypeInstanceIndex) -> (graph: MetaGraph)
    ensures
        forall|i: int, j: int| 0 <= i < j < graph.nodes@.len() ==> graph.nodes@[i] < graph.nodes@[j],
        forall|t: IriIndex|
            #[trigger] graph.nodes@.contains(t) == exists|k: int| 0 <= k < type_index.types@.len() && (
            #[trigger] type_index.types@[k]).type_index == t,
        graph.edges@ == layout_edges(graph.nodes@, type_index.types@, graph.nodes@.len() as int),
{
    let mut nodes = SortedVec::new();
    let mut k: usize = 0;
    while k < type_index.types.len()
        invariant
            k <= type_index.types@.len(),
            nodes.wf(),
            forall|t: IriIndex|
                #[trigger] nodes.members().contains(t) == exists|q: int| 0 <= q < k && (#[trigger] type_index.types@[q]).type_index
                    == t,
        decreases type_index.types@.len() - k,
    {
        nodes.add(type_index.types[k].type_index);
        proof {
            assert forall|t: IriIndex| #[trigger] nodes.members().contains(t) == exists|q: int|
                0 <= q < k + 1 && (#[trigger] type_index.types@[q]).type_index == t by {
                if t == type_index.types@[k as int].type_index {
                    assert(type_index.types@[k as int].type_index == t);
                }
            }
        }
        k += 1;
    }
    let ghost members = nodes.members();
    let data = nodes.data;
    proof {
        assert forall|t: IriIndex| #[trigger] data@.contains(t) == exists|q: int|
            0 <= q < type_index.types@.len() && (#[trigger] type_index.types@[q]).type_index == t by {
            assert(members == data@.to_set());
            assert(members.contains(t) == data@.contains(t));
        }
    }
    let edges = create_types_layout_edges(&data, type_index);
    MetaGraph { nodes: data, edges }
}

} // verus!
