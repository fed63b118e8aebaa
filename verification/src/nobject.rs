//! RDF nodes as the viewer keeps them.

use indexmap::IndexMap;
use vstd::prelude::*;

use crate::persistency::{DataTypeIndex, LangIndex};
use crate::string_indexer::{IndexSpan, StringCache, StringIndexer};
use crate::IriIndex;

verus! {

/// A literal value: text in the literal cache, or a short string interned
/// by index.
#[derive(Debug, Clone, Copy, PartialEq, Eq, Structural)]
pub enum Literal {
    String(IndexSpan),
    LangString(LangIndex, IndexSpan),
    TypedString(DataTypeIndex, IndexSpan),
    StringShort(IriIndex),
}

/// A predicate with its literal value.
pub type PredicateLiteral = (IriIndex, Literal);

/// A predicate with the node it references.
pub type PredicateReference = (IriIndex, IriIndex);

/// An RDF node: its types, literal properties and references.
pub struct NObject {
    pub types: Vec<IriIndex>,
    pub properties: Vec<PredicateLiteral>,
    pub references: Vec<PredicateReference>,
    pub reverse_references: Vec<PredicateReference>,
    pub is_blank_node: bool,
    pub has_subject: bool,
}

/// The contents of a node as mathematical sequences.
pub struct NObjectView {
    pub types: Seq<IriIndex>,
    pub properties: Seq<PredicateLiteral>,
    pub references: Seq<PredicateReference>,
    pub reverse_references: Seq<PredicateReference>,
    pub is_blank_node: bool,
    pub has_subject: bool,
}

impl NObject {
    pub open spec fn view(&self) -> NObjectView {
        NObjectView {
            types: self.types@,
            properties: self.properties@,
            references: self.references@,
            reverse_references: self.reverse_references@,
            is_blank_node: self.is_blank_node,
            has_subject: self.has_subject,
        }
    }

    /// Whether the node has one of the given types.
    pub fn has_same_type(&self, types: &Vec<IriIndex>) -> (res: bool)
        ensures
            res == exists|i: int, j: int| 0 <= i < types@.len() && 0 <= j < self.types@.len() && types@[i] == self.types@[j],
    {
        let mut i: usize = 0;
        while i < types.len()
            invariant
                i <= types@.len(),
                forall|a: int, b: int| 0 <= a < i && 0 <= b < self.types@.len() ==> types@[a] != self.types@[b],
            decreases types@.len() - i,
        {
            let mut j: usize = 0;
            while j < self.types.len()
                invariant
                    i < types@.len(),
                    j <= self.types@.len(),
                    forall|b: int| 0 <= b < j ==> types@[i as int] != self.types@[b],
                decreases self.types@.len() - j,
            {
                if self.types[j] == types[i] {
                    return true;
                }
                j += 1;
            }
            i += 1;
        }
        false
    }

    /// The value of the first property with the given predicate.
    pub fn get_property(&self, predicate_index: IriIndex) -> (res: Option<&Literal>)
        ensures
            match res {
                Some(l) => exists|k: int| 0 <= k < self.properties@.len() && self.properties@[k].0 == predicate_index
                    && self.properties@[k].1 == *l
                    && forall|m: int| 0 <= m < k ==> self.properties@[m].0 != predicate_index,
                None => forall|m: int| 0 <= m < self.properties@.len() ==> self.properties@[m].0 != predicate_index,
            },
    {
        let mut k: usize = 0;
        while k < self.properties.len()
            invariant
                k <= self.properties@.len(),
                forall|m: int| 0 <= m < k ==> self.properties@[m].0 != predicate_index,
            decreases self.properties@.len() - k,
        {
            if self.properties[k].0 == predicate_index {
                return Some(&self.properties[k].1);
            }
            k += 1;
        }
        None
    }
}

/// A node without types, properties or references, not yet seen as a
/// subject.
pub open spec fn empty_node(is_blank_node: bool) -> NObjectView {
    NObjectView {
        types: Seq::empty(),
        properties: Seq::empty(),
        references: Seq::empty(),
        reverse_references: Seq::empty(),
        is_blank_node,
        has_subject: false,
    }
}

/// No IRI names two entries.
pub open spec fn keys_unique(entries: Seq<(Seq<char>, NObjectView)>) -> bool {
    forall|i: int, j: int| 0 <= i < j < entries.len() ==> (#[trigger] entries[i]).0 != (#[trigger] entries[j]).0
}

/// Some entry has the IRI.
pub open spec fn has_key(entries: Seq<(Seq<char>, NObjectView)>, iri: Seq<char>) -> bool {
    exists|i: int| 0 <= i < entries.len() && (#[trigger] entries[i]).0 == iri
}

/// The position of the entry with the IRI, if there is one.
pub open spec fn key_index(entries: Seq<(Seq<char>, NObjectView)>, iri: Seq<char>) -> int {
    choose|i: int| 0 <= i < entries.len() && (#[trigger] entries[i]).0 == iri
}

/// In a list without repeated IRIs, the entry with an IRI is the one at
/// its position.
pub proof fn lemma_key_index(entries: Seq<(Seq<char>, NObjectView)>, iri: Seq<char>, i: int)
    requires
        keys_unique(entries),
        0 <= i < entries.len(),
        entries[i].0 == iri,
    ensures
        has_key(entries, iri),
        key_index(entries, iri) == i,
{
    let k = key_index(entries, iri);
    if k != i {
        if k < i {
            assert(entries[k].0 != entries[i].0);
        } else {
            assert(entries[i].0 != entries[k].0);
        }
    }
}

#[verifier::external_type_specification]
#[verifier::external_body]
#[verifier::reject_recursive_types(K)]
#[verifier::reject_recursive_types(V)]
#[verifier::reject_recursive_types(S)]
pub struct ExIndexMap<K, V, S>(IndexMap<K, V, S>);

/// The entries (IRI, node) of a node map, in insertion order.
pub uninterp spec fn node_entries(m: IndexMap<String, NObject>) -> Seq<(Seq<char>, NObject)>;

/// A node map's entries with each node by its view.
pub open spec fn entries_view(m: IndexMap<String, NObject>) -> Seq<(Seq<char>, NObjectView)> {
    node_entries(m).map_values(|e: (Seq<char>, NObject)| (e.0, e.1.view()))
}

/// No entries.
pub open spec fn no_entries() -> Seq<(Seq<char>, NObject)> {
    Seq::empty()
}

/// `IndexMap::new`: a map without entries.
#[verifier::external_body]
fn node_map_new() -> (m: IndexMap<String, NObject>)
    ensures
        node_entries(m) == no_entries(),
{
    IndexMap::new()
}

/// `IndexMap::len`: the number of entries.
#[verifier::external_body]
fn node_map_len(m: &IndexMap<String, NObject>) -> (n: usize)
    ensures
        n == node_entries(*m).len(),
{
    m.len()
}

/// `IndexMap::get_index_of`: the position of the entry whose key equals the
/// IRI, if there is one.
#[verifier::external_body]
fn node_map_index_of(m: &IndexMap<String, NObject>, iri: &str) -> (res: Option<usize>)
    ensures
        match res {
            Some(i) => i < node_entries(*m).len() && node_entries(*m)[i as int].0 == iri@,
            None => forall|j: int| 0 <= j < node_entries(*m).len() ==> (#[trigger] node_entries(*m)[j]).0 != iri@,
        },
{
    m.get_index_of(iri)
}

/// `IndexMap::insert`: an entry with a new key goes last and `None` comes
/// back; for a key that is there, its value is replaced in place and the
/// old value comes back.
#[verifier::external_body]
fn node_map_insert(m: &mut IndexMap<String, NObject>, iri: String, node: NObject) -> (res: Option<NObject>)
    ensures
        (forall|j: int| 0 <= j < node_entries(*old(m)).len() ==> (#[trigger] node_entries(*old(m))[j]).0 != iri@) ==> res is None
            && node_entries(*final(m)) == node_entries(*old(m)).push((iri@, node)),
        forall|j: int|
            0 <= j < node_entries(*old(m)).len() && (#[trigger] node_entries(*old(m))[j]).0 == iri@ ==> res == Some(
                node_entries(*old(m))[j].1,
            ) && node_entries(*final(m)) == node_entries(*old(m)).update(j, (iri@, node)),
{
    m.insert(iri, node)
}

/// `Index<usize>` of `IndexMap`: the value at a position.
#[verifier::external_body]
fn node_map_at(m: &IndexMap<String, NObject>, index: usize) -> (res: &NObject)
    requires
        index < node_entries(*m).len(),
    ensures
        *res == node_entries(*m)[index as int].1,
{
    &m[index]
}

/// `IndexMut<usize>` of `IndexMap`: the value at a position, to change in
/// place; the key stays.
#[verifier::external_body]
fn node_map_at_mut(m: &mut IndexMap<String, NObject>, index: usize) -> (res: &mut NObject)
    requires
        index < node_entries(*old(m)).len(),
    ensures
        *res == node_entries(*old(m))[index as int].1,
        node_entries(*final(m)) == node_entries(*old(m)).update(index as int, (node_entries(*old(m))[index as int].0, *final(res))),
{
    &mut m[index]
}

/// `IndexMap::clear`: no entries are left.
#[verifier::external_body]
fn node_map_clear(m: &mut IndexMap<String, NObject>)
    ensures
        node_entries(*final(m)) == no_entries(),
{
    m.clear()
}

/// The nodes by IRI, numbered in the order they were added.
pub struct NodeCache {
    cache: IndexMap<String, NObject>,
}

impl NodeCache {
    /// The entries (IRI, node), in order: a node's index is its position.
    pub closed spec fn view(&self) -> Seq<(Seq<char>, NObjectView)> {
        entries_view(self.cache)
    }

    /// No IRI is held twice.
    pub open spec fn wf(&self) -> bool {
        keys_unique(self@)
    }

    pub fn new() -> (res: Self)
        ensures
            res.wf(),
            res@ == Seq::<(Seq<char>, NObjectView)>::empty(),
    {
        let res = NodeCache { cache: node_map_new() };
        assert(res@ =~= Seq::<(Seq<char>, NObjectView)>::empty());
        res
    }

    /// The number of nodes.
    pub fn len(&self) -> (res: usize)
        ensures
            res == self@.len(),
    {
        node_map_len(&self.cache)
    }

    /// The index of the node with the IRI, if it is held.
    pub fn get_node_index(&self, iri: &str) -> (res: Option<IriIndex>)
        ensures
            match res {
                Some(i) => i < self@.len() && self@[i as int].0 == iri@,
                None => !has_key(self@, iri@),
            },
    {
        let res = node_map_index_of(&self.cache, iri);
        proof {
            if res is None {
                assert forall|j: int| 0 <= j < self@.len() implies (#[trigger] self@[j]).0 != iri@ by {
                    assert(node_entries(self.cache)[j].0 != iri@);
                }
            }
        }
        res
    }

    /// The node at an index, if there is one.
    pub fn get_node_by_index(&self, index: IriIndex) -> (res: Option<&NObject>)
        ensures
            res is Some <==> index < self@.len(),
            res is Some ==> res.unwrap().view() == self@[index as int].1,
    {
        if index < node_map_len(&self.cache) {
            Some(node_map_at(&self.cache, index))
        } else {
            None
        }
    }

    /// The node with the IRI, if it is held.
    pub fn get_node(&self, iri: &str) -> (res: Option<&NObject>)
        requires
            self.wf(),
        ensures
            res is Some <==> has_key(self@, iri@),
            res is Some ==> res.unwrap().view() == self@[key_index(self@, iri@)].1,
    {
        match node_map_index_of(&self.cache, iri) {
            Some(i) => {
                proof {
                    lemma_key_index(self@, iri@, i as int);
                }
                Some(node_map_at(&self.cache, i))
            },
            None => {
                proof {
                    assert forall|j: int| 0 <= j < self@.len() implies (#[trigger] self@[j]).0 != iri@ by {
                        assert(node_entries(self.cache)[j].0 != iri@);
                    }
                }
                None
            },
        }
    }

    /// The node at an index, to change in place.
    pub fn get_node_by_index_mut(&mut self, index: IriIndex) -> (res: &mut NObject)
        requires
            index < old(self)@.len(),
        ensures
            res.view() == old(self)@[index as int].1,
            final(self)@ == old(self)@.update(index as int, (old(self)@[index as int].0, final(res).view())),
    {
        node_map_at_mut(&mut self.cache, index)
    }

    /// Adds a node under a new IRI; its index is the number of nodes
    /// before.
    pub fn put_node(&mut self, iri: String, node: NObject) -> (res: usize)
        requires
            old(self).wf(),
            !has_key(old(self)@, iri@),
        ensures
            final(self).wf(),
            res == old(self)@.len(),
            final(self)@ == old(self)@.push((iri@, node.view())),
    {
        let ghost v = node.view();
        let res = node_map_len(&self.cache);
        let ghost before = node_entries(self.cache);
        proof {
            assert forall|j: int| 0 <= j < before.len() implies (#[trigger] before[j]).0 != iri@ by {
                assert(old(self)@[j].0 == before[j].0);
            }
        }
        let _ = node_map_insert(&mut self.cache, iri, node);
        proof {
            assert(self@ =~= old(self)@.push((iri@, v)));
        }
        res
    }

    /// Replaces the node under an IRI that is held.
    pub fn put_node_replace(&mut self, iri: String, node: NObject)
        requires
            old(self).wf(),
            has_key(old(self)@, iri@),
        ensures
            final(self).wf(),
            final(self)@ == old(self)@.update(key_index(old(self)@, iri@), (iri@, node.view())),
    {
        let ghost v = node.view();
        let ghost k = key_index(old(self)@, iri@);
        let ghost before = node_entries(self.cache);
        proof {
            assert(before[k].0 == iri@);
        }
        let _ = node_map_insert(&mut self.cache, iri, node);
        proof {
            assert(self@ =~= old(self)@.update(k, (iri@, v)));
            assert forall|i: int, j: int| 0 <= i < j < self@.len() implies (#[trigger] self@[i]).0 != (#[trigger] self@[j]).0 by {
                assert(old(self)@[i].0 != old(self)@[j].0);
            }
        }
    }

    /// The index of the node with the IRI, adding a node without types,
    /// properties or references when the IRI is new.
    pub fn get_node_index_or_insert(&mut self, iri: &str, is_blank_node: bool) -> (res: IriIndex)
        requires
            old(self).wf(),
        ensures
            final(self).wf(),
            res < final(self)@.len(),
            final(self)@[res as int].0 == iri@,
            has_key(old(self)@, iri@) ==> final(self)@ == old(self)@ && res == key_index(old(self)@, iri@),
            !has_key(old(self)@, iri@) ==> final(self)@ == old(self)@.push((iri@, empty_node(is_blank_node)))
                && res == old(self)@.len(),
    {
        match self.get_node_index(iri) {
            Some(i) => {
                proof {
                    lemma_key_index(self@, iri@, i as int);
                }
                i
            },
            None => {
                let node = NObject {
                    types: Vec::new(),
                    properties: Vec::new(),
                    references: Vec::new(),
                    reverse_references: Vec::new(),
                    is_blank_node: is_blank_node,
                    has_subject: false,
                };
                proof {
                    assert(node.view() =~= empty_node(is_blank_node));
                }
                let res = self.put_node(iri.to_string(), node);
                proof {
                    assert(self@[res as int] == (iri@, empty_node(is_blank_node)));
                }
                res
            },
        }
    }

    /// Removes all nodes.
    pub fn clean(&mut self)
        ensures
            final(self).wf(),
            final(self)@ == Seq::<(Seq<char>, NObjectView)>::empty(),
    {
        node_map_clear(&mut self.cache);
        assert(self@ =~= Seq::<(Seq<char>, NObjectView)>::empty());
    }
}

/// The string tables of the loaded data: types, predicates, languages,
/// datatypes and short literal values each get dense indexes; longer
/// literal texts go to one cache.
pub struct Indexers {
    pub type_indexer: StringIndexer,
    pub predicate_indexer: StringIndexer,
    pub language_indexer: StringIndexer,
    pub datatype_indexer: StringIndexer,
    pub short_literal_indexer: StringIndexer,
    pub literal_cache: StringCache,
}

impl Indexers {
    /// Each table holds every string once.
    pub open spec fn wf(&self) -> bool {
        &&& self.type_indexer.wf()
        &&& self.predicate_indexer.wf()
        &&& self.language_indexer.wf()
        &&& self.datatype_indexer.wf()
        &&& self.short_literal_indexer.wf()
    }

    /// Empty tables.
    pub fn new() -> (res: Self)
        ensures
            res.wf(),
            res.type_indexer@ == Seq::<Seq<char>>::empty(),
            res.predicate_indexer@ == Seq::<Seq<char>>::empty(),
            res.language_indexer@ == Seq::<Seq<char>>::empty(),
            res.datatype_indexer@ == Seq::<Seq<char>>::empty(),
            res.short_literal_indexer@ == Seq::<Seq<char>>::empty(),
            res.literal_cache.bytes() == Seq::<u8>::empty(),
    {
        Indexers {
            type_indexer: StringIndexer::new(),
            predicate_indexer: StringIndexer::new(),
            language_indexer: StringIndexer::new(),
            datatype_indexer: StringIndexer::new(),
            short_literal_indexer: StringIndexer::new(),
            literal_cache: StringCache::new(),
        }
    }

    /// The index of a type IRI, added when new.
    pub fn get_type_index(&mut self, type_iri: &str) -> (res: IriIndex)
        requires
            old(self).wf(),
            old(self).type_indexer@.len() < u32::MAX,
        ensures
            final(self).wf(),
            final(self).type_indexer@ == interned_after(old(self).type_indexer@, type_iri@),
            res == interned_index(old(self).type_indexer@, type_iri@),
            final(self).predicate_indexer == old(self).predicate_indexer,
            final(self).language_indexer == old(self).language_indexer,
            final(self).datatype_indexer == old(self).datatype_indexer,
            final(self).short_literal_indexer == old(self).short_literal_indexer,
            final(self).literal_cache == old(self).literal_cache,
    {
        let res = self.type_indexer.get_index(type_iri);
        proof {
            lemma_interned(old(self).type_indexer@, self.type_indexer@, type_iri@, res as int);
        }
        res
    }

    /// The index of a predicate IRI, added when new.
    pub fn get_predicate_index(&mut self, predicate_name: &str) -> (res: IriIndex)
        requires
            old(self).wf(),
            old(self).predicate_indexer@.len() < u32::MAX,
        ensures
            final(self).wf(),
            final(self).predicate_indexer@ == interned_after(old(self).predicate_indexer@, predicate_name@),
            res == interned_index(old(self).predicate_indexer@, predicate_name@),
            final(self).type_indexer == old(self).type_indexer,
            final(self).language_indexer == old(self).language_indexer,
            final(self).datatype_indexer == old(self).datatype_indexer,
            final(self).short_literal_indexer == old(self).short_literal_indexer,
            final(self).literal_cache == old(self).literal_cache,
    {
        let res = self.predicate_indexer.get_index(predicate_name);
        proof {
            lemma_interned(old(self).predicate_indexer@, self.predicate_indexer@, predicate_name@, res as int);
        }
        res
    }

    /// The index of a language tag, added when new.
    pub fn get_language_index(&mut self, language: &str) -> (res: LangIndex)
        requires
            old(self).wf(),
            old(self).language_indexer@.len() < u32::MAX,
        ensures
            final(self).wf(),
            final(self).language_indexer@ == interned_after(old(self).language_indexer@, language@),
            res == interned_index(old(self).language_indexer@, language@),
            final(self).type_indexer == old(self).type_indexer,
            final(self).predicate_indexer == old(self).predicate_indexer,
            final(self).datatype_indexer == old(self).datatype_indexer,
            final(self).short_literal_indexer == old(self).short_literal_indexer,
            final(self).literal_cache == old(self).literal_cache,
    {
        let res = self.language_indexer.get_index(language);
        proof {
            lemma_interned(old(self).language_indexer@, self.language_indexer@, language@, res as int);
        }
        res
    }

    /// The index of a datatype IRI, added when new.
    pub fn get_data_type_index(&mut self, data_type: &str) -> (res: DataTypeIndex)
        requires
            old(self).wf(),
            old(self).datatype_indexer@.len() < u32::MAX,
        ensures
            final(self).wf(),
            final(self).datatype_indexer@ == interned_after(old(self).datatype_indexer@, data_type@),
            res == interned_index(old(self).datatype_indexer@, data_type@),
            final(self).type_indexer == old(self).type_indexer,
            final(self).predicate_indexer == old(self).predicate_indexer,
            final(self).language_indexer == old(self).language_indexer,
            final(self).short_literal_indexer == old(self).short_literal_indexer,
            final(self).literal_cache == old(self).literal_cache,
    {
        let res = self.datatype_indexer.get_index(data_type);
        proof {
            lemma_interned(old(self).datatype_indexer@, self.datatype_indexer@, data_type@, res as int);
        }
        res
    }
}

/// The table after looking a string up: unchanged when it holds the
/// string, else with the string added last.
pub open spec fn interned_after(table: Seq<Seq<char>>, s: Seq<char>) -> Seq<Seq<char>> {
    if table.contains(s) {
        table
    } else {
        table.push(s)
    }
}

/// The index a string gets: its position when the table holds it, else
/// the table's length.
pub open spec fn interned_index(table: Seq<Seq<char>>, s: Seq<char>) -> int {
    if table.contains(s) {
        choose|i: int| 0 <= i < table.len() && table[i] == s
    } else {
        table.len() as int
    }
}

/// What an interning lookup gives is the table and index above.
pub proof fn lemma_interned(before: Seq<Seq<char>>, after: Seq<Seq<char>>, s: Seq<char>, i: int)
    requires
        before.no_duplicates(),
        0 <= i < after.len(),
        after[i] == s,
        before.contains(s) ==> after == before,
        !before.contains(s) ==> after == before.push(s),
    ensures
        after == interned_after(before, s),
        i == interned_index(before, s),
{
    if before.contains(s) {
        let k = choose|k: int| 0 <= k < before.len() && before[k] == s;
        if k != i {
            assert(before[k] == before[i]);
        }
    } else {
        if i != before.len() {
            assert(before[i] == s);
            assert(before.contains(s));
        }
    }
}

/// The loaded nodes with their string tables.
pub struct NodeData {
    pub node_cache: NodeCache,
    pub indexers: Indexers,
}

impl NodeData {
    /// Both parts are well formed.
    pub open spec fn wf(&self) -> bool {
        self.node_cache.wf() && self.indexers.wf()
    }

    pub fn new() -> (res: Self)
        ensures
            res.wf(),
            res.node_cache@ == Seq::<(Seq<char>, NObjectView)>::empty(),
            res.indexers.type_indexer@ == Seq::<Seq<char>>::empty(),
            res.indexers.predicate_indexer@ == Seq::<Seq<char>>::empty(),
    {
        NodeData { node_cache: NodeCache::new(), indexers: Indexers::new() }
    }

    /// The node at an index, if there is one.
    pub fn get_node_by_index(&self, index: IriIndex) -> (res: Option<&NObject>)
        ensures
            res is Some <==> index < self.node_cache@.len(),
            res is Some ==> res.unwrap().view() == self.node_cache@[index as int].1,
    {
        self.node_cache.get_node_by_index(index)
    }

    /// The node at an index, to change in place.
    pub fn get_node_by_index_mut(&mut self, index: IriIndex) -> (res: &mut NObject)
        requires
            index < old(self).node_cache@.len(),
        ensures
            res.view() == old(self).node_cache@[index as int].1,
            final(self).node_cache@ == old(self).node_cache@.update(
                index as int,
                (old(self).node_cache@[index as int].0, final(res).view()),
            ),
            final(self).indexers == old(self).indexers,
    {
        self.node_cache.get_node_by_index_mut(index)
    }

    /// The node with the IRI, if it is held.
    pub fn get_node(&self, iri: &str) -> (res: Option<&NObject>)
        requires
            self.wf(),
        ensures
            res is Some <==> has_key(self.node_cache@, iri@),
            res is Some ==> res.unwrap().view() == self.node_cache@[key_index(self.node_cache@, iri@)].1,
    {
        self.node_cache.get_node(iri)
    }

    /// The index of the node with the IRI, if it is held.
    pub fn get_node_index(&self, iri: &str) -> (res: Option<IriIndex>)
        ensures
            match res {
                Some(i) => i < self.node_cache@.len() && self.node_cache@[i as int].0 == iri@,
                None => !has_key(self.node_cache@, iri@),
            },
    {
        self.node_cache.get_node_index(iri)
    }

    /// The index of the node with the IRI, adding an empty node when the
    /// IRI is new.
    pub fn get_node_index_or_insert(&mut self, iri: &str, is_blank_node: bool) -> (res: IriIndex)
        requires
            old(self).wf(),
        ensures
            final(self).wf(),
            final(self).indexers == old(self).indexers,
            res < final(self).node_cache@.len(),
            final(self).node_cache@[res as int].0 == iri@,
            has_key(old(self).node_cache@, iri@) ==> final(self).node_cache@ == old(self).node_cache@ && res == key_index(
                old(self).node_cache@,
                iri@,
            ),
            !has_key(old(self).node_cache@, iri@) ==> final(self).node_cache@ == old(self).node_cache@.push(
                (iri@, empty_node(is_blank_node)),
            ) && res == old(self).node_cache@.len(),
    {
        self.node_cache.get_node_index_or_insert(iri, is_blank_node)
    }

    /// The number of nodes.
    pub fn len(&self) -> (res: usize)
        ensures
            res == self.node_cache@.len(),
    {
        self.node_cache.len()
    }

    /// Adds a node under a new IRI; its index is the number of nodes before.
    pub fn put_node(&mut self, iri: String, node: NObject) -> (res: usize)
        requires
            old(self).wf(),
            !has_key(old(self).node_cache@, iri@),
        ensures
            final(self).wf(),
            final(self).indexers == old(self).indexers,
            res == old(self).node_cache@.len(),
            final(self).node_cache@ == old(self).node_cache@.push((iri@, node.view())),
    {
        self.node_cache.put_node(iri, node)
    }

    /// Replaces the node under an IRI that is held.
    pub fn put_node_replace(&mut self, iri: String, node: NObject)
        requires
            old(self).wf(),
            has_key(old(self).node_cache@, iri@),
        ensures
            final(self).wf(),
            final(self).indexers == old(self).indexers,
            final(self).node_cache@ == old(self).node_cache@.update(
                key_index(old(self).node_cache@, iri@),
                (iri@, node.view()),
            ),
    {
        self.node_cache.put_node_replace(iri, node)
    }

    /// The IRI of a type index, if it is one.
    pub fn get_type(&self, type_index: IriIndex) -> (res: Option<&str>)
        requires
            (type_index as u32) < u32::MAX,
        ensures
            res.is_some() == ((type_index as u32) < self.indexers.type_indexer@.len()),
            res.is_some() ==> res.unwrap()@ == self.indexers.type_indexer@[(type_index as u32) as int],
    {
        self.indexers.type_indexer.index_to_str(type_index)
    }

    /// The IRI of a predicate index, if it is one.
    pub fn get_predicate(&self, predicate_index: IriIndex) -> (res: Option<&str>)
        requires
            (predicate_index as u32) < u32::MAX,
        ensures
            res.is_some() == ((predicate_index as u32) < self.indexers.predicate_indexer@.len()),
            res.is_some() ==> res.unwrap()@ == self.indexers.predicate_indexer@[(predicate_index as u32) as int],
    {
        self.indexers.predicate_indexer.index_to_str(predicate_index)
    }

    /// The index of a type IRI, added when new.
    pub fn get_type_index(&mut self, type_iri: &str) -> (res: IriIndex)
        requires
            old(self).wf(),
            old(self).indexers.type_indexer@.len() < u32::MAX,
        ensures
            final(self).wf(),
            final(self).node_cache == old(self).node_cache,
            final(self).indexers.type_indexer@ == interned_after(old(self).indexers.type_indexer@, type_iri@),
            res == interned_index(old(self).indexers.type_indexer@, type_iri@),
            final(self).indexers.predicate_indexer == old(self).indexers.predicate_indexer,
            final(self).indexers.language_indexer == old(self).indexers.language_indexer,
            final(self).indexers.datatype_indexer == old(self).indexers.datatype_indexer,
            final(self).indexers.short_literal_indexer == old(self).indexers.short_literal_indexer,
            final(self).indexers.literal_cache == old(self).indexers.literal_cache,
    {
        self.indexers.get_type_index(type_iri)
    }

    /// The index of a predicate IRI, added when new.
    pub fn get_predicate_index(&mut self, predicate_iri: &str) -> (res: IriIndex)
        requires
            old(self).wf(),
            old(self).indexers.predicate_indexer@.len() < u32::MAX,
        ensures
            final(self).wf(),
            final(self).node_cache == old(self).node_cache,
            final(self).indexers.predicate_indexer@ == interned_after(old(self).indexers.predicate_indexer@, predicate_iri@),
            res == interned_index(old(self).indexers.predicate_indexer@, predicate_iri@),
            final(self).indexers.type_indexer == old(self).indexers.type_indexer,
            final(self).indexers.language_indexer == old(self).indexers.language_indexer,
            final(self).indexers.datatype_indexer == old(self).indexers.datatype_indexer,
            final(self).indexers.short_literal_indexer == old(self).indexers.short_literal_indexer,
            final(self).indexers.literal_cache == old(self).indexers.literal_cache,
    {
        self.indexers.get_predicate_index(predicate_iri)
    }

    /// The number of distinct predicates.
    pub fn unique_predicates(&self) -> (res: usize)
        ensures
            res == self.indexers.predicate_indexer@.len(),
    {
        self.indexers.predicate_indexer.len()
    }

    /// The number of distinct types.
    pub fn unique_types(&self) -> (res: usize)
        ensures
            res == self.indexers.type_indexer@.len(),
    {
        self.indexers.type_indexer.len()
    }

    /// Removes all nodes; the string tables stay.
    pub fn clean(&mut self)
        requires
            old(self).wf(),
        ensures
            final(self).wf(),
            final(self).indexers == old(self).indexers,
            final(self).node_cache@ == Seq::<(Seq<char>, NObjectView)>::empty(),
    {
        self.node_cache.clean();
    }
}

} // verus!
