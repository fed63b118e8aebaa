//! Whole project files: the header, then a block for each string table,
//! the literal cache, the nodes and the prefix table.

use vstd::prelude::*;
use vstd::string::StringSliceAdditionalSpecFns;
use vstd::utf8::{encode_utf8, valid_utf8};

use super::blocks::{
    encode_block, encode_blocks, file_header, lemma_project_blocks_roundtrip, parse_blocks_from, parse_project_blocks,
    payloads_fit, read_project_blocks, blocks_read_back, write_file_header, zlib_compressed, zlib_decompressed, BlockRef,
};
use super::nodes::{encode_list, node_enc, node_item, node_lists_fit, nodes_view, parse_list, restore_nodes, store_nodes};
use super::payloads::{
    encode_prefix_pairs, indexer_payload, indexer_strings, intern_all, lemma_indexer_store_restore, prefix_block_payload,
    prefix_pairs_bytes,
};
use super::{HeaderType, PersistError};
use crate::nobject::{has_key, key_index, Indexers, NObject, NObjectView, NodeCache, NodeData};
use crate::prefix_manager::{
    empty_table, lists_stored, prefix_block_entries, with_default_prefixes, with_stored_pairs, PrefixManager,
};
use crate::string_indexer::{StringCache, StringIndexer};

verus! {

/// The parts of a project that the library keeps: the string tables, the
/// literal cache, the prefix table and the nodes with their IRIs.
pub struct Project {
    pub predicates: StringIndexer,
    pub types: StringIndexer,
    pub languages: StringIndexer,
    pub datatypes: StringIndexer,
    pub short_literals: StringIndexer,
    pub literals: StringCache,
    pub prefixes: PrefixManager,
    pub nodes: Vec<(String, NObject)>,
}

/// What a project holds: the strings of each table, the literal bytes, the
/// prefix table, and the nodes with their IRIs' bytes.
pub struct ProjectView {
    pub predicates: Seq<Seq<char>>,
    pub types: Seq<Seq<char>>,
    pub languages: Seq<Seq<char>>,
    pub datatypes: Seq<Seq<char>>,
    pub short_literals: Seq<Seq<char>>,
    pub literals: Seq<u8>,
    pub prefixes: Map<Seq<char>, Seq<char>>,
    pub nodes: Seq<(Seq<u8>, NObjectView)>,
}

/// An empty project: empty tables, the well-known prefixes, no node.
pub open spec fn empty_project() -> ProjectView {
    ProjectView {
        predicates: Seq::empty(),
        types: Seq::empty(),
        languages: Seq::empty(),
        datatypes: Seq::empty(),
        short_literals: Seq::empty(),
        literals: Seq::empty(),
        prefixes: with_default_prefixes(empty_table()),
        nodes: Seq::empty(),
    }
}

impl Project {
    pub open spec fn view(&self) -> ProjectView {
        ProjectView {
            predicates: self.predicates@,
            types: self.types@,
            languages: self.languages@,
            datatypes: self.datatypes@,
            short_literals: self.short_literals@,
            literals: self.literals.bytes(),
            prefixes: self.prefixes@,
            nodes: nodes_view(self.nodes@),
        }
    }

    /// The tables hold each string once and the prefix table is one to one.
    pub open spec fn wf(&self) -> bool {
        &&& self.predicates.wf()
        &&& self.types.wf()
        &&& self.languages.wf()
        &&& self.datatypes.wf()
        &&& self.short_literals.wf()
        &&& self.prefixes.wf()
    }

    /// A project without data.
    pub fn empty() -> (res: Self)
        ensures
            res.wf(),
            res.view() == empty_project(),
    {
        let res = Project {
            predicates: StringIndexer::new(),
            types: StringIndexer::new(),
            languages: StringIndexer::new(),
            datatypes: StringIndexer::new(),
            short_literals: StringIndexer::new(),
            literals: StringCache::new(),
            prefixes: PrefixManager::new(),
            nodes: Vec::new(),
        };
        assert(nodes_view(res.nodes@) =~= Seq::empty());
        res
    }
}

/// What reading a string table's payload gives.
pub open spec fn indexer_outcome(payload: Seq<u8>) -> Result<Seq<Seq<char>>, PersistError> {
    match zlib_decompressed(payload) {
        None => Err(PersistError::InvalidCompression),
        Some(bytes) => if bytes.len() >= u32::MAX {
            Err(PersistError::BlockTooLarge)
        } else {
            match indexer_strings(bytes) {
                Ok(strings) => Ok(intern_all(Seq::empty(), strings)),
                Err(e) => Err(e),
            }
        },
    }
}

/// What reading the literal cache's payload gives.
pub open spec fn literals_outcome(payload: Seq<u8>) -> Result<Seq<u8>, PersistError> {
    match zlib_decompressed(payload) {
        None => Err(PersistError::InvalidCompression),
        Some(bytes) => if valid_utf8(bytes) {
            Ok(bytes)
        } else {
            Err(PersistError::InvalidUtf8)
        },
    }
}

/// What reading the prefix table's payload gives.
pub open spec fn prefixes_outcome(payload: Seq<u8>) -> Result<Map<Seq<char>, Seq<char>>, PersistError> {
    match prefix_block_entries(payload) {
        Ok(pairs) => Ok(with_stored_pairs(with_default_prefixes(empty_table()), pairs, pairs.len() as int)),
        Err(e) => Err(e),
    }
}

/// What reading the nodes' payload gives.
pub open spec fn nodes_outcome(payload: Seq<u8>) -> Result<Seq<(Seq<u8>, NObjectView)>, PersistError> {
    match parse_list(payload, node_item()) {
        Ok((xs, _)) => Ok(xs),
        Err(e) => Err(e),
    }
}

/// A string table read from a payload replaces the table it names.
pub open spec fn with_table(v: ProjectView, t: HeaderType, strings: Seq<Seq<char>>) -> ProjectView {
    match t {
        HeaderType::Predicates => ProjectView { predicates: strings, ..v },
        HeaderType::Types => ProjectView { types: strings, ..v },
        HeaderType::Languages => ProjectView { languages: strings, ..v },
        HeaderType::DataTypes => ProjectView { datatypes: strings, ..v },
        _ => ProjectView { short_literals: strings, ..v },
    }
}

/// What a block does to the project read so far: each table block replaces
/// its part; blocks of the visual layout and styles are passed over.
pub open spec fn block_step(v: ProjectView, payload: Seq<u8>, t: HeaderType) -> Result<ProjectView, PersistError> {
    match t {
        HeaderType::Predicates | HeaderType::Types | HeaderType::Languages | HeaderType::DataTypes
        | HeaderType::ShortLiterals => match indexer_outcome(payload) {
            Ok(strings) => Ok(with_table(v, t, strings)),
            Err(e) => Err(e),
        },
        HeaderType::Literals => match literals_outcome(payload) {
            Ok(bytes) => Ok(ProjectView { literals: bytes, ..v }),
            Err(e) => Err(e),
        },
        HeaderType::Nodes => match nodes_outcome(payload) {
            Ok(nodes) => Ok(ProjectView { nodes: nodes, ..v }),
            Err(e) => Err(e),
        },
        HeaderType::Prefixes => match prefixes_outcome(payload) {
            Ok(m) => Ok(ProjectView { prefixes: m, ..v }),
            Err(e) => Err(e),
        },
        HeaderType::VisualNodes | HeaderType::VisualStyles => Ok(v),
    }
}

/// The project after the first `k` blocks, or the first error.
#[verifier::opaque]
pub open spec fn blocks_loaded(data: Seq<u8>, blocks: Seq<BlockRef>, k: int) -> Result<ProjectView, PersistError>
    decreases k,
{
    if k <= 0 {
        Ok(empty_project())
    } else {
        match blocks_loaded(data, blocks, k - 1) {
            Ok(v) => block_step(
                v,
                data.subrange(blocks[k - 1].start as int, blocks[k - 1].end as int),
                blocks[k - 1].header_type,
            ),
            Err(e) => Err(e),
        }
    }
}

/// What reading a project file gives: its blocks, in order, each read into
/// the project; the first error ends the reading.
pub open spec fn project_loaded(data: Seq<u8>) -> Result<ProjectView, PersistError> {
    match parse_project_blocks(data) {
        Ok(blocks) => blocks_loaded(data, blocks, blocks.len() as int),
        Err(e) => Err(e),
    }
}

/// The blocks found from `pos` lie within the data.
proof fn lemma_blocks_within(data: Seq<u8>, pos: int)
    requires
        parse_blocks_from(data, pos) is Ok,
        data.len() <= usize::MAX,
    ensures
        forall|i: int|
            0 <= i < parse_blocks_from(data, pos).unwrap().len() ==> (#[trigger] parse_blocks_from(data, pos).unwrap()[i]).start
                <= parse_blocks_from(data, pos).unwrap()[i].end <= data.len(),
    decreases data.len() - pos,
{
    if pos < 0 || pos >= data.len() {
    } else if pos + 5 > data.len() {
    } else {
        let size = super::u32_from_le(data.subrange(pos + 1, pos + 5)) as int;
        if size >= 5 {
            let end = pos + size;
            let rest: Seq<BlockRef> = if end < data.len() {
                lemma_blocks_within(data, end);
                parse_blocks_from(data, end).unwrap()
            } else {
                Seq::empty()
            };
            let found = parse_blocks_from(data, pos).unwrap();
            match HeaderType::spec_from_u8(data[pos]) {
                Some(t) => {
                    let first = BlockRef {
                        header_type: t,
                        start: (pos + 5) as usize,
                        end: (if end < data.len() { end } else { data.len() as int }) as usize,
                    };
                    assert(found == seq![first] + rest);
                    assert forall|i: int| 0 <= i < found.len() implies (#[trigger] found[i]).start <= found[i].end
                        <= data.len() by {
                        if i > 0 {
                            assert(found[i] == rest[i - 1]);
                        }
                    }
                },
                None => {
                    assert(found == rest);
                },
            }
        }
    }
}

/// The blocks of a project file lie within the data.
proof fn lemma_project_blocks_within(data: Seq<u8>)
    requires
        parse_project_blocks(data) is Ok,
        data.len() <= usize::MAX,
    ensures
        forall|i: int|
            0 <= i < parse_project_blocks(data).unwrap().len() ==> (#[trigger] parse_project_blocks(data).unwrap()[i]).start
                <= parse_project_blocks(data).unwrap()[i].end <= data.len(),
{
    lemma_blocks_within(data, super::u16_from_le(data.subrange(8, 10)) as int);
}

/// Once reading has failed, it stays failed with the same error.
proof fn lemma_error_stays(data: Seq<u8>, blocks: Seq<BlockRef>, k: int)
    requires
        0 <= k <= blocks.len(),
        blocks_loaded(data, blocks, k) is Err,
    ensures
        blocks_loaded(data, blocks, blocks.len() as int) == blocks_loaded(data, blocks, k),
    decreases blocks.len() - k,
{
    reveal(blocks_loaded);
    if k < blocks.len() {
        assert(blocks_loaded(data, blocks, k + 1) == blocks_loaded(data, blocks, k));
        lemma_error_stays(data, blocks, k + 1);
    }
}

/// Reads one block into the project, as `block_step` says.
fn read_block(project: &mut Project, payload: &[u8], t: HeaderType) -> (res: Result<(), PersistError>)
    requires
        old(project).wf(),
    ensures
        match block_step(old(project).view(), payload@, t) {
            Ok(v) => res is Ok && final(project).wf() && final(project).view() == v,
            Err(e) => res == Err::<(), PersistError>(e),
        },
{
    reveal(block_step);
    match t {
        HeaderType::Predicates => {
            project.predicates = StringIndexer::restore(payload)?;
        },
        HeaderType::Types => {
            project.types = StringIndexer::restore(payload)?;
        },
        HeaderType::Languages => {
            project.languages = StringIndexer::restore(payload)?;
        },
        HeaderType::DataTypes => {
            project.datatypes = StringIndexer::restore(payload)?;
        },
        HeaderType::ShortLiterals => {
            project.short_literals = StringIndexer::restore(payload)?;
        },
        HeaderType::Literals => {
            project.literals = StringCache::restore(payload)?;
        },
        HeaderType::Nodes => {
            project.nodes = restore_nodes(payload)?;
        },
        HeaderType::Prefixes => {
            project.prefixes = PrefixManager::restore(payload)?;
        },
        HeaderType::VisualNodes | HeaderType::VisualStyles => {},
    }
    assert(project.view() =~= block_step(old(project).view(), payload@, t).unwrap());
    Ok(())
}

/// Reads a project from the bytes of its file: each block of a table, the
/// literal cache, the nodes or the prefix table replaces that part, in file
/// order; blocks of the visual layout and styles are passed over; the
/// first error is returned.
pub fn load_project(data: &[u8]) -> (res: Result<Project, PersistError>)
    ensures
        match project_loaded(data@) {
            Ok(v) => res matches Ok(p) && p.wf() && p.view() == v,
            Err(e) => res matches Err(e2) && e2 == e,
        },
{
    let blocks = read_project_blocks(data)?;
    let n: usize = data.len();
    assert(data@.len() == n);
    let ghost bs = blocks@;
    proof {
        lemma_project_blocks_within(data@);
        reveal(blocks_loaded);
    }
    let mut project = Project::empty();
    let mut k: usize = 0;
    while k < blocks.len()
        invariant
            bs == blocks@,
            project_loaded(data@) == blocks_loaded(data@, bs, bs.len() as int),
            forall|i: int| 0 <= i < bs.len() ==> (#[trigger] bs[i]).start <= bs[i].end <= data@.len(),
            k <= bs.len(),
            project.wf(),
            blocks_loaded(data@, bs, k as int) == Ok::<ProjectView, PersistError>(project.view()),
        decreases bs.len() - k,
    {
        let block = blocks[k];
        assert(bs[k as int] == block);
        assert(block.start <= block.end <= data@.len());
        let payload = &data[block.start..block.end];
        proof {
            lemma_loaded_step(data@, bs, k as int);
            assert(payload@ == data@.subrange(block.start as int, block.end as int));
            if block_step(project.view(), payload@, block.header_type) is Err {
                lemma_error_stays(data@, bs, k + 1);
            }
        }
        read_block(&mut project, payload, block.header_type)?;
        k += 1;
    }
    Ok(project)
}

/// One more block read.
proof fn lemma_loaded_step(data: Seq<u8>, blocks: Seq<BlockRef>, k: int)
    requires
        0 <= k < blocks.len(),
    ensures
        blocks_loaded(data, blocks, k + 1) == match blocks_loaded(data, blocks, k) {
            Ok(v) => block_step(v, data.subrange(blocks[k].start as int, blocks[k].end as int), blocks[k].header_type),
            Err(e) => Err(e),
        },
{
    reveal(blocks_loaded);
}

/// The blocks of a stored project, in file order: the five string tables,
/// the literal cache, the nodes and the prefix table (its pairs listed in
/// the order `pairs` gives).
pub open spec fn project_blocks(p: Project, pairs: Seq<(String, String)>) -> Seq<(HeaderType, Seq<u8>)> {
    seq![
        (HeaderType::Predicates, zlib_compressed(indexer_payload(p.predicates@))),
        (HeaderType::Types, zlib_compressed(indexer_payload(p.types@))),
        (HeaderType::Languages, zlib_compressed(indexer_payload(p.languages@))),
        (HeaderType::DataTypes, zlib_compressed(indexer_payload(p.datatypes@))),
        (HeaderType::ShortLiterals, zlib_compressed(indexer_payload(p.short_literals@))),
        (HeaderType::Literals, zlib_compressed(p.literals.bytes())),
        (HeaderType::Nodes, encode_list(nodes_view(p.nodes@), node_enc())),
        (HeaderType::Prefixes, prefix_block_payload(pairs)),
    ]
}

/// Every block of the project fits, and so does the count of prefix pairs.
pub open spec fn project_fits(p: Project, pairs: Seq<(String, String)>) -> bool {
    &&& pairs.len() <= u32::MAX
    &&& payloads_fit(project_blocks(p, pairs))
}

/// The bytes are the header and the blocks, and they read back as those
/// blocks, in order, each payload range holding the payload written.
pub open spec fn stored_as(bytes: Seq<u8>, blocks: Seq<(HeaderType, Seq<u8>)>) -> bool {
    &&& bytes == file_header() + encode_blocks(blocks)
    &&& parse_project_blocks(bytes) matches Ok(found) && blocks_read_back(bytes, found, blocks)
}

/// The compressed payloads of the project decompress to what was
/// compressed.
pub open spec fn compression_round_trips(p: Project, pairs: Seq<(String, String)>) -> bool {
    &&& zlib_decompressed(zlib_compressed(indexer_payload(p.predicates@))) == Some(indexer_payload(p.predicates@))
    &&& zlib_decompressed(zlib_compressed(indexer_payload(p.types@))) == Some(indexer_payload(p.types@))
    &&& zlib_decompressed(zlib_compressed(indexer_payload(p.languages@))) == Some(indexer_payload(p.languages@))
    &&& zlib_decompressed(zlib_compressed(indexer_payload(p.datatypes@))) == Some(indexer_payload(p.datatypes@))
    &&& zlib_decompressed(zlib_compressed(indexer_payload(p.short_literals@))) == Some(
        indexer_payload(p.short_literals@),
    )
    &&& zlib_decompressed(zlib_compressed(p.literals.bytes())) == Some(p.literals.bytes())
    &&& zlib_decompressed(zlib_compressed(encode_prefix_pairs(prefix_pairs_bytes(pairs)))) == Some(
        encode_prefix_pairs(prefix_pairs_bytes(pairs)),
    )
}

/// Writes the project as file bytes: the header, then the blocks of
/// `project_blocks`; `None` when a block does not fit. The file reads back
/// as those blocks, in order, each payload as written.
#[verifier::spinoff_prover]
#[verifier::rlimit(80)]
pub fn store_project(p: &Project) -> (res: Option<Vec<u8>>)
    requires
        p.wf(),
    ensures
        exists|pairs: Seq<(String, String)>|
            #[trigger] lists_stored(pairs, p.prefixes@) && (res is Some <==> project_fits(*p, pairs)) && (res matches Some(
                bytes,
            ) ==> stored_as(bytes@, project_blocks(*p, pairs)) && compression_round_trips(*p, pairs)),
{
    let mut out: Vec<u8> = Vec::new();
    write_file_header(&mut out);
    let w1 = p.predicates.store(HeaderType::Predicates, &mut out);
    let w2 = p.types.store(HeaderType::Types, &mut out);
    let w3 = p.languages.store(HeaderType::Languages, &mut out);
    let w4 = p.datatypes.store(HeaderType::DataTypes, &mut out);
    let w5 = p.short_literals.store(HeaderType::ShortLiterals, &mut out);
    let w6 = p.literals.store(&mut out);
    let w7 = store_nodes(&p.nodes, &mut out);
    let ghost before_prefixes = out@;
    let w8 = p.prefixes.store(&mut out);
    let ghost pairs = choose|pairs: Seq<(String, String)>|
        #[trigger] lists_stored(pairs, p.prefixes@) && (w8 == (pairs.len() <= u32::MAX && prefix_block_payload(pairs).len()
            + 5 <= u32::MAX)) && (w8 ==> out@ == before_prefixes + encode_block(
            HeaderType::Prefixes,
            prefix_block_payload(pairs),
        )) && (!w8 ==> out@ == before_prefixes) && (w8 ==> zlib_decompressed(
            zlib_compressed(encode_prefix_pairs(prefix_pairs_bytes(pairs))),
        ) == Some(encode_prefix_pairs(prefix_pairs_bytes(pairs))));
    let ghost blocks = project_blocks(*p, pairs);
    proof {
        assert(payloads_fit(blocks) <==> (w1 && w2 && w3 && w4 && w5 && w6 && w7 && blocks[7].1.len() + 5 <= u32::MAX))
            by {
            if w1 && w2 && w3 && w4 && w5 && w6 && w7 && blocks[7].1.len() + 5 <= u32::MAX {
                assert forall|i: int| 0 <= i < blocks.len() implies #[trigger] blocks[i].1.len() + 5 <= u32::MAX by {
                }
            }
            if payloads_fit(blocks) {
                assert(blocks[0].1.len() + 5 <= u32::MAX);
                assert(blocks[1].1.len() + 5 <= u32::MAX);
                assert(blocks[2].1.len() + 5 <= u32::MAX);
                assert(blocks[3].1.len() + 5 <= u32::MAX);
                assert(blocks[4].1.len() + 5 <= u32::MAX);
                assert(blocks[5].1.len() + 5 <= u32::MAX);
                assert(blocks[6].1.len() + 5 <= u32::MAX);
                assert(blocks[7].1.len() + 5 <= u32::MAX);
            }
        }
    }
    if w1 && w2 && w3 && w4 && w5 && w6 && w7 && w8 {
        let n: usize = out.len();
        proof {
            lemma_encode_eight_blocks(blocks);
            assert(out@ =~= file_header() + encode_blocks(blocks));
            lemma_project_blocks_roundtrip(blocks);
        }
        Some(out)
    } else {
        None
    }
}

/// The encoding of eight blocks is their encodings one after another.
proof fn lemma_encode_eight_blocks(blocks: Seq<(HeaderType, Seq<u8>)>)
    requires
        blocks.len() == 8,
    ensures
        encode_blocks(blocks) == encode_block(blocks[0].0, blocks[0].1) + encode_block(blocks[1].0, blocks[1].1)
            + encode_block(blocks[2].0, blocks[2].1) + encode_block(blocks[3].0, blocks[3].1) + encode_block(
            blocks[4].0,
            blocks[4].1,
        ) + encode_block(blocks[5].0, blocks[5].1) + encode_block(blocks[6].0, blocks[6].1) + encode_block(
            blocks[7].0,
            blocks[7].1,
        ),
{
    let mut k: int = 8;
    reveal_with_fuel(encode_blocks, 9);
    let b = blocks;
    assert(b.drop_first()[0] == b[1]);
    assert(b.drop_first().drop_first()[0] == b[2]);
    assert(b.drop_first().drop_first().drop_first()[0] == b[3]);
    assert(b.drop_first().drop_first().drop_first().drop_first()[0] == b[4]);
    assert(b.drop_first().drop_first().drop_first().drop_first().drop_first()[0] == b[5]);
    assert(b.drop_first().drop_first().drop_first().drop_first().drop_first().drop_first()[0] == b[6]);
    assert(b.drop_first().drop_first().drop_first().drop_first().drop_first().drop_first().drop_first()[0] == b[7]);
    assert(b.drop_first().drop_first().drop_first().drop_first().drop_first().drop_first().drop_first().drop_first().len() == 0);
    assert(encode_blocks(blocks) =~= encode_block(blocks[0].0, blocks[0].1) + encode_block(blocks[1].0, blocks[1].1)
        + encode_block(blocks[2].0, blocks[2].1) + encode_block(blocks[3].0, blocks[3].1) + encode_block(
        blocks[4].0,
        blocks[4].1,
    ) + encode_block(blocks[5].0, blocks[5].1) + encode_block(blocks[6].0, blocks[6].1) + encode_block(
        blocks[7].0,
        blocks[7].1,
    ));
}

/// A table's strings can be stored and read back: none holds the unit
/// separator that ends each string in the payload, and the payload is
/// shorter than `u32::MAX` bytes.
pub open spec fn table_storable(strings: Seq<Seq<char>>) -> bool {
    &&& forall|k: int| 0 <= k < strings.len() ==> !(#[trigger] strings[k]).contains('\u{1F}')
    &&& indexer_payload(strings).len() < u32::MAX
}

/// The nodes' counts fit the varints and their IRIs a slice.
pub open spec fn nodes_storable(nodes: Seq<(Seq<u8>, NObjectView)>) -> bool {
    &&& nodes.len() <= u64::MAX
    &&& forall|k: int| 0 <= k < nodes.len() ==> (#[trigger] nodes[k]).0.len() <= usize::MAX && node_lists_fit(nodes[k].1)
}

/// The prefix pairs' texts fit a slice.
pub open spec fn prefixes_storable(pairs: Seq<(String, String)>) -> bool {
    forall|i: int|
        0 <= i < pairs.len() ==> encode_utf8((#[trigger] pairs[i]).0@).len() <= usize::MAX && encode_utf8(pairs[i].1@).len()
            <= usize::MAX
}

/// The project read back holds the tables, literal cache and nodes of `p`,
/// and every prefix pair of `p`.
pub open spec fn reads_back_as(loaded: Result<ProjectView, PersistError>, p: Project) -> bool {
    &&& loaded is Ok
    &&& loaded.unwrap().predicates == p.predicates@
    &&& loaded.unwrap().types == p.types@
    &&& loaded.unwrap().languages == p.languages@
    &&& loaded.unwrap().datatypes == p.datatypes@
    &&& loaded.unwrap().short_literals == p.short_literals@
    &&& loaded.unwrap().literals == p.literals.bytes()
    &&& loaded.unwrap().nodes == nodes_view(p.nodes@)
    &&& forall|k: Seq<char>|
        #[trigger] p.prefixes@.contains_key(k) ==> loaded.unwrap().prefixes.contains_key(k)
            && loaded.unwrap().prefixes[k] == p.prefixes@[k]
}

/// A stored table reads back as its strings.
proof fn lemma_table_reads_back(strings: Seq<Seq<char>>)
    requires
        strings.no_duplicates(),
        table_storable(strings),
        zlib_decompressed(zlib_compressed(indexer_payload(strings))) == Some(indexer_payload(strings)),
    ensures
        indexer_outcome(zlib_compressed(indexer_payload(strings))) == Ok::<Seq<Seq<char>>, PersistError>(strings),
{
    lemma_indexer_store_restore(strings);
}

/// Law: a project written by `store_project` reads back by
/// `load_project` with the same string tables, literal cache and nodes,
/// and with every prefix pair it had.
#[verifier::spinoff_prover]
#[verifier::rlimit(80)]
pub proof fn lemma_project_roundtrip(p: Project, pairs: Seq<(String, String)>, bytes: Seq<u8>)
    requires
        p.wf(),
        lists_stored(pairs, p.prefixes@),
        project_fits(p, pairs),
        stored_as(bytes, project_blocks(p, pairs)),
        compression_round_trips(p, pairs),
        table_storable(p.predicates@),
        table_storable(p.types@),
        table_storable(p.languages@),
        table_storable(p.datatypes@),
        table_storable(p.short_literals@),
        nodes_storable(nodes_view(p.nodes@)),
        prefixes_storable(pairs),
    ensures
        reads_back_as(project_loaded(bytes), p),
{
    let blocks = project_blocks(p, pairs);
    let found = parse_project_blocks(bytes).unwrap();
    assert(found.len() == 8);
    let nv = nodes_view(p.nodes@);
    let m = with_stored_pairs(with_default_prefixes(empty_table()), prefix_pairs_bytes(pairs), pairs.len() as int);
    assert(indexer_outcome(blocks[0].1) == Ok::<Seq<Seq<char>>, PersistError>(p.predicates@)) by {
        lemma_table_reads_back(p.predicates@);
    }
    assert(indexer_outcome(blocks[1].1) == Ok::<Seq<Seq<char>>, PersistError>(p.types@)) by {
        lemma_table_reads_back(p.types@);
    }
    assert(indexer_outcome(blocks[2].1) == Ok::<Seq<Seq<char>>, PersistError>(p.languages@)) by {
        lemma_table_reads_back(p.languages@);
    }
    assert(indexer_outcome(blocks[3].1) == Ok::<Seq<Seq<char>>, PersistError>(p.datatypes@)) by {
        lemma_table_reads_back(p.datatypes@);
    }
    assert(indexer_outcome(blocks[4].1) == Ok::<Seq<Seq<char>>, PersistError>(p.short_literals@)) by {
        lemma_table_reads_back(p.short_literals@);
    }
    assert(literals_outcome(blocks[5].1) == Ok::<Seq<u8>, PersistError>(p.literals.bytes())) by {
        vstd::utf8::encode_utf8_valid_utf8(p.literals.cache@);
    }
    assert(nodes_outcome(blocks[6].1) == Ok::<Seq<(Seq<u8>, NObjectView)>, PersistError>(nv)) by {
        assert forall|k: int| 0 <= k < nv.len() implies valid_utf8((#[trigger] nv[k]).0) && nv[k].0.len() <= usize::MAX
            && node_lists_fit(nv[k].1) by {
            vstd::utf8::encode_utf8_valid_utf8(p.nodes@[k].0@);
        }
        super::nodes::lemma_nodes_roundtrip(nv, Seq::empty());
        assert(encode_list(nv, node_enc()) + Seq::<u8>::empty() =~= encode_list(nv, node_enc()));
    }
    assert(prefixes_outcome(blocks[7].1) == Ok::<Map<Seq<char>, Seq<char>>, PersistError>(m)
        && forall|k: Seq<char>| #[trigger] p.prefixes@.contains_key(k) ==> m.contains_key(k) && m[k] == p.prefixes@[k]) by {
        crate::prefix_manager::lemma_prefix_table_roundtrip(p.prefixes@, pairs);
    }
    let v0 = empty_project();
    let v1 = ProjectView { predicates: p.predicates@, ..v0 };
    let v2 = ProjectView { types: p.types@, ..v1 };
    let v3 = ProjectView { languages: p.languages@, ..v2 };
    let v4 = ProjectView { datatypes: p.datatypes@, ..v3 };
    let v5 = ProjectView { short_literals: p.short_literals@, ..v4 };
    let v6 = ProjectView { literals: p.literals.bytes(), ..v5 };
    let v7 = ProjectView { nodes: nv, ..v6 };
    let v8 = ProjectView { prefixes: m, ..v7 };
    assert(blocks_loaded(bytes, found, 0) == Ok::<ProjectView, PersistError>(v0)) by {
        reveal(blocks_loaded);
    }
    lemma_read_step(bytes, found, blocks, 0, v0, v1);
    lemma_read_step(bytes, found, blocks, 1, v1, v2);
    lemma_read_step(bytes, found, blocks, 2, v2, v3);
    lemma_read_step(bytes, found, blocks, 3, v3, v4);
    lemma_read_step(bytes, found, blocks, 4, v4, v5);
    lemma_read_step(bytes, found, blocks, 5, v5, v6);
    lemma_read_step(bytes, found, blocks, 6, v6, v7);
    lemma_read_step(bytes, found, blocks, 7, v7, v8);
}

/// One block of a read-back file moves the project read so far one step.
proof fn lemma_read_step(
    bytes: Seq<u8>,
    found: Seq<BlockRef>,
    blocks: Seq<(HeaderType, Seq<u8>)>,
    k: int,
    before: ProjectView,
    after: ProjectView,
)
    requires
        0 <= k < found.len(),
        blocks_read_back(bytes, found, blocks),
        blocks_loaded(bytes, found, k) == Ok::<ProjectView, PersistError>(before),
        block_step(before, blocks[k].1, blocks[k].0) == Ok::<ProjectView, PersistError>(after),
    ensures
        blocks_loaded(bytes, found, k + 1) == Ok::<ProjectView, PersistError>(after),
{
    lemma_loaded_step(bytes, found, k);
    assert(found[k].header_type == blocks[k].0);
}

/// The nodes of a project as the node cache keys them: by IRI text.
pub open spec fn node_entries_of(nodes: Seq<(String, NObject)>) -> Seq<(Seq<char>, NObjectView)> {
    nodes.map_values(|x: (String, NObject)| (x.0@, x.1.view()))
}

/// The node cache after the first `k` entries: an IRI seen before keeps
/// its position and takes the later node; a new IRI is added last.
pub open spec fn merged_nodes(entries: Seq<(Seq<char>, NObjectView)>, k: int) -> Seq<(Seq<char>, NObjectView)>
    decreases k,
{
    if k <= 0 {
        Seq::empty()
    } else {
        let m = merged_nodes(entries, k - 1);
        let e = entries[k - 1];
        if has_key(m, e.0) {
            m.update(key_index(m, e.0), e)
        } else {
            m.push(e)
        }
    }
}

/// Moves the tables and nodes of a project into a node data and its prefix
/// table: a node stored twice under one IRI keeps its first position and
/// its last value.
pub fn into_node_data(project: Project) -> (res: (NodeData, PrefixManager))
    requires
        project.wf(),
    ensures
        res.0.wf(),
        res.0.indexers.type_indexer@ == project.types@,
        res.0.indexers.predicate_indexer@ == project.predicates@,
        res.0.indexers.language_indexer@ == project.languages@,
        res.0.indexers.datatype_indexer@ == project.datatypes@,
        res.0.indexers.short_literal_indexer@ == project.short_literals@,
        res.0.indexers.literal_cache.bytes() == project.literals.bytes(),
        res.0.node_cache@ == merged_nodes(node_entries_of(project.nodes@), project.nodes@.len() as int),
        res.1.wf(),
        res.1@ == project.prefixes@,
{
    let ghost entries = node_entries_of(project.nodes@);
    let Project { predicates, types, languages, datatypes, short_literals, literals, prefixes, nodes } = project;
    let mut data = NodeData {
        node_cache: NodeCache::new(),
        indexers: Indexers {
            type_indexer: types,
            predicate_indexer: predicates,
            language_indexer: languages,
            datatype_indexer: datatypes,
            short_literal_indexer: short_literals,
            literal_cache: literals,
        },
    };
    let ghost indexers = data.indexers;
    let ghost all = nodes@;
    for item in it: nodes.into_iter()
        invariant
            it.seq() == all,
            entries == node_entries_of(all),
            data.wf(),
            data.indexers == indexers,
            data.node_cache@ == merged_nodes(entries, it.index()),
    {
        let (iri, node) = item;
        let ghost k = it.index();
        proof {
            assert(entries[k] == (iri@, node.view()));
        }
        if data.get_node_index(iri.as_str()).is_some() {
            data.put_node_replace(iri, node);
        } else {
            data.put_node(iri, node);
        }
    }
    (data, prefixes)
}

} // verus!
