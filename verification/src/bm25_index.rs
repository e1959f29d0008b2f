//! The BM25 index: which chunks hold which terms, and the search over them.
//!
//! The score of a chunk is a double, which the caller computes from
//! [`BM25Index::score_terms`]; [`BM25Index::search`] takes the scores by their
//! bits, which order positive doubles as they are ordered themselves.
use vstd::prelude::*;

use crate::chunks;
use crate::chunks::{ChunkKind, ChunkModel, CodeChunk};
use crate::ordering;
use crate::ordering::Ordered;
use crate::string_table::StringTable;
use crate::text;
use crate::tokens;

verus! {

// ---------------------------------------------------------------- types
/// What is known of an indexed file.
#[derive(Debug, Clone, Copy, PartialEq, Eq, Structural)]
pub struct IndexedFileState {
    pub mtime_ms: u64,
    pub size_bytes: u64,
}

/// The index. The mean length of a chunk is `total_len` by `doc_count`.
pub struct BM25Index {
    pub chunks: Vec<CodeChunk>,
    pub inverted: StringTable<Vec<usize>>,
    pub total_len: u128,
    pub doc_count: usize,
    pub doc_freqs: StringTable<usize>,
    pub files: StringTable<IndexedFileState>,
}

/// A chunk that a search found; `score` holds the bits of its score.
#[derive(Debug)]
pub struct SearchResult {
    pub chunk_idx: usize,
    pub score: u64,
    pub file_path: String,
    pub symbol_name: String,
    pub kind: ChunkKind,
    pub start_line: usize,
    pub end_line: usize,
    pub snippet: String,
}

/// One occurrence of a query term in a chunk, with the number of chunks that
/// hold the term and the length of the chunk.
#[derive(Debug, Clone, Copy, PartialEq, Eq, Structural)]
pub struct ScoreTerm {
    pub chunk_idx: usize,
    pub doc_freq: usize,
    pub doc_len: usize,
}

/// The meaning of a [`SearchResult`].
pub struct ResultModel {
    pub chunk_idx: int,
    pub score: u64,
    pub file_path: Seq<char>,
    pub symbol_name: Seq<char>,
    pub kind: ChunkKind,
    pub start_line: int,
    pub end_line: int,
    pub snippet: Seq<char>,
}

impl View for SearchResult {
    type V = ResultModel;

    open spec fn view(&self) -> ResultModel {
        ResultModel {
            chunk_idx: self.chunk_idx as int,
            score: self.score,
            file_path: self.file_path@,
            symbol_name: self.symbol_name@,
            kind: self.kind,
            start_line: self.start_line as int,
            end_line: self.end_line as int,
            snippet: self.snippet@,
        }
    }
}

// ---------------------------------------------------------------- terms
/// The terms of a text: its tokens in lower case.
pub open spec fn terms_of(s: Seq<char>) -> Seq<Seq<char>> {
    Seq::new(tokens::tokens_of(s).len(), |i: int| text::lowercase(tokens::tokens_of(s)[i]))
}

/// The terms under which a chunk is found.
pub open spec fn chunk_terms(c: ChunkModel) -> Seq<Seq<char>> {
    terms_of(chunks::enriched(c.file_path, c.content))
}

/// How often a term occurs.
pub open spec fn occurrences(terms: Seq<Seq<char>>, t: Seq<char>) -> nat
    decreases terms.len(),
{
    if terms.len() == 0 {
        0
    } else {
        occurrences(terms.drop_last(), t) + (if terms.last() == t {
            1nat
        } else {
            0
        })
    }
}

pub open spec fn repeated(n: nat, x: usize) -> Seq<usize> {
    Seq::new(n, |i: int| x)
}

/// The chunks that hold a term, one entry for each occurrence.
pub open spec fn postings(c: Seq<ChunkModel>, t: Seq<char>) -> Seq<usize>
    decreases c.len(),
{
    if c.len() == 0 {
        seq![]
    } else {
        postings(c.drop_last(), t) + repeated(
            occurrences(chunk_terms(c.last()), t),
            (c.len() - 1) as usize,
        )
    }
}

/// In how many chunks a term occurs.
pub open spec fn doc_freq(c: Seq<ChunkModel>, t: Seq<char>) -> nat
    decreases c.len(),
{
    if c.len() == 0 {
        0
    } else {
        doc_freq(c.drop_last(), t) + (if occurrences(chunk_terms(c.last()), t) > 0 {
            1nat
        } else {
            0
        })
    }
}

/// A chunk as the index keeps it: without tokens, and with their number.
pub open spec fn stored(c: ChunkModel) -> ChunkModel {
    ChunkModel { tokens: seq![], token_count: chunk_terms(c).len() as int, ..c }
}

/// The chunks as the index keeps them.
pub open spec fn all_stored(c: Seq<ChunkModel>) -> Seq<ChunkModel> {
    Seq::new(c.len(), |i: int| stored(c[i]))
}

/// The postings of a term go up and stay within the chunks; the chunks listed
/// are those that hold the term, and there are postings exactly where the term
/// occurs in a chunk.
pub proof fn law_postings(c: Seq<ChunkModel>, t: Seq<char>)
    requires
        c.len() <= usize::MAX,
    ensures
        forall|i: int|
            #![trigger postings(c, t)[i]]
            0 <= i < postings(c, t).len() ==> postings(c, t)[i] < c.len() && occurrences(
                chunk_terms(c[postings(c, t)[i] as int]),
                t,
            ) > 0,
        forall|i: int, j: int|
            #![trigger postings(c, t)[i], postings(c, t)[j]]
            0 <= i < j < postings(c, t).len() ==> postings(c, t)[i] <= postings(c, t)[j],
        forall|k: int|
            #![trigger c[k]]
            0 <= k < c.len() && occurrences(chunk_terms(c[k]), t) > 0 ==> postings(c, t).contains(
                k as usize,
            ),
        postings(c, t).len() > 0 <==> doc_freq(c, t) > 0,
        doc_freq(c, t) <= c.len(),
    decreases c.len(),
{
    if c.len() > 0 {
        let d = c.drop_last();
        law_postings(d, t);
        let n = occurrences(chunk_terms(c.last()), t);
        let own = repeated(n, (c.len() - 1) as usize);
        let p = postings(c, t);
        let q = postings(d, t);
        assert(p == q + own);
        assert forall|i: int|
            #![trigger p[i]]
            0 <= i < p.len() implies p[i] < c.len() && occurrences(
            chunk_terms(c[p[i] as int]),
            t,
        ) > 0 by {
            if i < q.len() {
                assert(p[i] == q[i]);
                assert(d[q[i] as int] == c[q[i] as int]);
            } else {
                assert(p[i] == own[i - q.len()]);
            }
        }
        assert forall|i: int, j: int|
            #![trigger p[i], p[j]]
            0 <= i < j < p.len() implies p[i] <= p[j] by {
            if j < q.len() {
                assert(p[i] == q[i] && p[j] == q[j]);
            } else {
                assert(p[j] == own[j - q.len()]);
            }
        }
        assert forall|k: int|
            #![trigger c[k]]
            0 <= k < c.len() && occurrences(chunk_terms(c[k]), t) > 0 implies p.contains(
            k as usize,
        ) by {
            if k < d.len() {
                assert(d[k] == c[k]);
                assert(q.contains(k as usize));
                let i = choose|i: int| 0 <= i < q.len() && q[i] == k as usize;
                assert(p[i] == k as usize);
            } else {
                assert(p[q.len() as int] == own[0]);
            }
        }
    }
}

// ---------------------------------------------------------------- sizes
pub open spec fn sum(s: Seq<nat>) -> nat
    decreases s.len(),
{
    if s.len() == 0 {
        0
    } else {
        sum(s.drop_last()) + s.last()
    }
}

pub proof fn lemma_sum_step(s: Seq<nat>, i: int)
    requires
        0 <= i < s.len(),
    ensures
        sum(s.take(i + 1)) == sum(s.take(i)) + s[i],
        sum(s.take(i + 1)) <= sum(s),
    decreases s.len(),
{
    assert(s.take(i + 1).drop_last() =~= s.take(i));
    if i + 1 < s.len() {
        lemma_sum_step(s.drop_last(), i);
        assert(s.drop_last().take(i + 1) =~= s.take(i + 1));
    } else {
        assert(s.take(i + 1) =~= s);
    }
}

/// The bytes of each text.
pub open spec fn text_sizes(s: Seq<Seq<char>>) -> Seq<nat> {
    Seq::new(s.len(), |i: int| text::byte_len(s[i]))
}

/// About how many bytes a chunk takes.
pub open spec fn chunk_size(c: ChunkModel) -> nat {
    text::byte_len(c.content) + text::byte_len(c.file_path) + text::byte_len(c.symbol_name) + sum(
        text_sizes(c.tokens),
    ) + 64
}

pub open spec fn chunk_sizes(c: Seq<ChunkModel>) -> Seq<nat> {
    Seq::new(c.len(), |i: int| chunk_size(c[i]))
}

pub open spec fn posting_sizes(t: StringTable<Vec<usize>>) -> Seq<nat> {
    Seq::new(
        t.order().len(),
        |i: int| text::byte_len(t.order()[i]) + t.list(t.order()[i]).len() * 16 + 32,
    )
}

pub open spec fn key_sizes(keys: Seq<Seq<char>>, extra: nat) -> Seq<nat> {
    Seq::new(keys.len(), |i: int| text::byte_len(keys[i]) + extra)
}

pub open spec fn token_counts(c: Seq<ChunkModel>) -> Seq<nat> {
    Seq::new(c.len(), |i: int| c[i].token_count as nat)
}

// ---------------------------------------------------------------- the index
impl BM25Index {
    /// Whether the tables of the index are sound.
    pub open spec fn tables_wf(&self) -> bool {
        self.inverted.wf() && self.doc_freqs.wf() && self.files.wf()
    }

    /// The chunks of the index.
    pub open spec fn models(&self) -> Seq<ChunkModel> {
        text::views(self.chunks@)
    }

    /// Whether the tables say of every term where it occurs in the chunks.
    pub open spec fn consistent(&self) -> bool {
        &&& self.tables_wf()
        &&& forall|t: Seq<char>| #[trigger]
            self.inverted.list(t) == postings(self.models(), t)
        &&& forall|t: Seq<char>| #[trigger]
            self.inverted@.contains_key(t) <==> doc_freq(self.models(), t) > 0
        &&& forall|t: Seq<char>| #[trigger]
            self.doc_freqs@.contains_key(t) <==> doc_freq(self.models(), t) > 0
        &&& forall|t: Seq<char>| #[trigger]
            self.doc_freqs@.contains_key(t) ==> self.doc_freqs@[t] == doc_freq(self.models(), t)
    }

    /// Whether every posting is the place of a chunk.
    pub open spec fn searchable(&self) -> bool {
        &&& self.tables_wf()
        &&& forall|t: Seq<char>, i: int|
            #![trigger self.inverted.list(t)[i]]
            0 <= i < self.inverted.list(t).len() ==> self.inverted.list(t)[i]
                < self.chunks@.len()
    }

    /// Whether nothing is indexed.
    pub open spec fn is_blank(&self) -> bool {
        &&& self.chunks@.len() == 0
        &&& self.inverted@ == Map::<Seq<char>, Vec<usize>>::empty()
        &&& self.total_len == 0
        &&& self.doc_count == 0
        &&& self.doc_freqs@ == Map::<Seq<char>, usize>::empty()
        &&& self.files@ == Map::<Seq<char>, IndexedFileState>::empty()
    }

    /// An index whose tables agree with its chunks can be searched.
    pub proof fn law_searchable(&self)
        requires
            self.consistent(),
            self.chunks@.len() <= usize::MAX,
        ensures
            self.searchable(),
    {
        assert forall|t: Seq<char>, i: int|
            #![trigger self.inverted.list(t)[i]]
            0 <= i < self.inverted.list(t).len() implies self.inverted.list(t)[i]
            < self.chunks@.len() by {
            law_postings(self.models(), t);
            assert(self.inverted.list(t)[i] == postings(self.models(), t)[i]);
        }
    }

    /// An empty index.
    pub fn new() -> (r: BM25Index)
        ensures
            r.is_blank(),
            r.consistent(),
    {
        BM25Index {
            chunks: Vec::new(),
            inverted: StringTable::new(),
            total_len: 0,
            doc_count: 0,
            doc_freqs: StringTable::new(),
            files: StringTable::new(),
        }
    }

    /// About how many bytes the index takes.
    pub open spec fn memory_usage(&self) -> nat {
        sum(chunk_sizes(self.models())) + sum(posting_sizes(self.inverted)) + sum(
            key_sizes(self.files.order(), 24),
        ) + sum(key_sizes(self.doc_freqs.order(), 16))
    }

    /// About how many bytes the index takes.
    pub fn memory_usage_bytes(&self) -> (r: usize)
        requires
            self.tables_wf(),
            self.memory_usage() <= usize::MAX,
        ensures
            r == self.memory_usage(),
    {
        let chunks_size = chunks_bytes(&self.chunks);
        let inverted_size = postings_bytes(&self.inverted);
        let files_size = keys_bytes(&self.files, 24);
        let freqs_size = keys_bytes(&self.doc_freqs, 16);
        chunks_size + inverted_size + files_size + freqs_size
    }

    /// Drops all that is indexed.
    pub fn unload(&mut self)
        ensures
            final(self).is_blank(),
            final(self).consistent(),
    {
        self.chunks = Vec::new();
        self.inverted = StringTable::new();
        self.doc_freqs = StringTable::new();
        self.files = StringTable::new();
        self.total_len = 0;
        self.doc_count = 0;
    }

    /// The index of the chunks, in their order.
    pub fn from_chunks_for_test(chunks: Vec<CodeChunk>) -> (r: BM25Index)
        ensures
            r.consistent(),
            r.models() == all_stored(text::views(chunks@)),
            r.files@ == Map::<Seq<char>, IndexedFileState>::empty(),
            r.doc_count == chunks@.len(),
            r.total_len == sum(token_counts(r.models())),
    {
        let mut index = BM25Index::new();
        let ghost given = text::views(chunks@);
        proof {
            assert(given.take(0) =~= Seq::<ChunkModel>::empty());
        }
        index.add_chunks(&chunks);
        proof {
            assert(index.models() =~= all_stored(given));
        }
        index.finalize();
        index
    }

    /// Indexes the chunks, in their order.
    pub fn add_chunks(&mut self, chunks: &Vec<CodeChunk>)
        requires
            old(self).consistent(),
        ensures
            final(self).consistent(),
            final(self).models() == old(self).models() + all_stored(text::views(chunks@)),
            final(self).files == old(self).files,
            final(self).doc_count == old(self).doc_count,
            final(self).total_len == old(self).total_len,
    {
        let ghost before = self.models();
        let ghost added = all_stored(text::views(chunks@));
        let ghost start = *self;
        let mut i: usize = 0;
        proof {
            assert(before + added.take(0) =~= before);
        }
        while i < chunks.len()
            invariant
                i <= chunks.len(),
                added == all_stored(text::views(chunks@)),
                self.consistent(),
                self.models() == before + added.take(i as int),
                self.files == start.files,
                self.doc_count == start.doc_count,
                self.total_len == start.total_len,
            decreases chunks.len() - i,
        {
            let chunk = chunks[i].clone();
            proof {
                assert(added[i as int] == stored(chunk@));
                assert(before + added.take(i + 1) =~= (before + added.take(i as int)).push(
                    stored(chunk@),
                ));
            }
            self.add_chunk(chunk);
            i += 1;
        }
        proof {
            assert(added.take(i as int) =~= added);
        }
    }

    /// Indexes a chunk.
    pub fn add_chunk(&mut self, chunk: CodeChunk)
        requires
            old(self).consistent(),
        ensures
            final(self).consistent(),
            final(self).models() == old(self).models().push(stored(chunk@)),
            final(self).files == old(self).files,
            final(self).doc_count == old(self).doc_count,
            final(self).total_len == old(self).total_len,
    {
        let enriched = chunks::enrich_for_bm25(&chunk);
        let found = tokens::tokenize(enriched.as_str());
        let ghost before = self.models();
        let ghost start = *self;
        let ghost terms = chunk_terms(chunk@);
        let kept = CodeChunk {
            file_path: chunk.file_path,
            symbol_name: chunk.symbol_name,
            kind: chunk.kind,
            start_line: chunk.start_line,
            end_line: chunk.end_line,
            content: chunk.content,
            tokens: Vec::new(),
            token_count: found.len(),
        };
        proof {
            assert(text::views(found@).len() == found@.len());
            assert(text::views(kept.tokens@) =~= Seq::<Seq<char>>::empty());
            assert(kept@ == stored(chunk@));
            text::lemma_views_push(self.chunks@, kept);
        }
        self.chunks.push(kept);
        let count: usize = self.chunks.len();
        let idx: usize = count - 1;
        let mut i: usize = 0;
        proof {
            assert forall|t: Seq<char>| #[trigger] self.inverted.list(t) == postings(before, t)
                + repeated(occurrences(terms.take(0), t), idx) by {
                assert(start.inverted.list(t) == postings(before, t));
                assert(postings(before, t) + repeated(0, idx) =~= postings(before, t));
            }
        }
        while i < found.len()
            invariant
                i <= found.len(),
                idx == before.len(),
                idx < usize::MAX,
                terms == chunk_terms(chunk@),
                terms.len() == found@.len(),
                text::views(found@) == tokens::tokens_of(
                    chunks::enriched(chunk.file_path@, chunk.content@),
                ),
                self.tables_wf(),
                self.chunks@.len() == before.len() + 1,
                self.models() == before.push(stored(chunk@)),
                self.files == start.files,
                self.doc_count == start.doc_count,
                self.total_len == start.total_len,
                forall|t: Seq<char>| #[trigger]
                    self.inverted.list(t) == postings(before, t) + repeated(
                        occurrences(terms.take(i as int), t),
                        idx,
                    ),
                forall|t: Seq<char>| #[trigger]
                    self.inverted@.contains_key(t) <==> doc_freq(before, t) > 0 || occurrences(
                        terms.take(i as int),
                        t,
                    ) > 0,
                forall|t: Seq<char>| #[trigger]
                    self.doc_freqs@.contains_key(t) <==> doc_freq(before, t) > 0 || occurrences(
                        terms.take(i as int),
                        t,
                    ) > 0,
                forall|t: Seq<char>| #[trigger]
                    self.doc_freqs@.contains_key(t) ==> self.doc_freqs@[t] == doc_freq(before, t)
                        + (if occurrences(terms.take(i as int), t) > 0 {
                        1nat
                    } else {
                        0
                    }),
            decreases found.len() - i,
        {
            let lower = found[i].as_str().to_lowercase();
            let ghost sofar = *self;
            let ghost term = lower@;
            proof {
                assert(terms[i as int] == term);
                assert(terms.take(i + 1).drop_last() =~= terms.take(i as int));
                assert(terms.take(i + 1).last() == term);
                law_postings(before, term);
            }
            let ghost had = occurrences(terms.take(i as int), term);
            let fresh = match self.inverted.get(lower.as_str()) {
                Some(p) => p.len() == 0 || p[p.len() - 1] != idx,
                None => true,
            };
            proof {
                let list = self.inverted.list(term);
                if had > 0 {
                    assert(list.last() == repeated(had, idx).last());
                } else {
                    assert(list =~= postings(before, term));
                    if list.len() > 0 {
                        assert(postings(before, term)[list.len() - 1] < before.len());
                    }
                }
                assert(fresh == (had == 0));
            }
            if fresh {
                let freq: usize = match self.doc_freqs.get(lower.as_str()) {
                    Some(n) => *n,
                    None => 0,
                };
                self.doc_freqs.insert(lower.clone(), freq + 1);
            }
            self.inverted.append(lower, idx);
            proof {
                assert forall|t: Seq<char>| #[trigger] self.inverted.list(t) == postings(before, t)
                    + repeated(occurrences(terms.take(i + 1), t), idx) by {
                    let old_list = sofar.inverted.list(t);
                    assert(old_list == postings(before, t) + repeated(
                        occurrences(terms.take(i as int), t),
                        idx,
                    ));
                    if t == term {
                        assert(postings(before, t) + repeated(had + 1, idx) =~= (postings(before, t)
                            + repeated(had, idx)).push(idx));
                    }
                }
                assert forall|t: Seq<char>| #[trigger]
                    self.inverted@.contains_key(t) <==> doc_freq(before, t) > 0 || occurrences(
                        terms.take(i + 1),
                        t,
                    ) > 0 by {
                    assert(self.inverted@.dom().contains(t) <==> sofar.inverted@.dom().insert(
                        term,
                    ).contains(t));
                    assert(sofar.inverted@.contains_key(t) <==> doc_freq(before, t) > 0
                        || occurrences(terms.take(i as int), t) > 0);
                }
                assert forall|t: Seq<char>| #[trigger]
                    self.doc_freqs@.contains_key(t) <==> doc_freq(before, t) > 0 || occurrences(
                        terms.take(i + 1),
                        t,
                    ) > 0 by {
                    assert(sofar.doc_freqs@.contains_key(t) <==> doc_freq(before, t) > 0
                        || occurrences(terms.take(i as int), t) > 0);
                }
                assert forall|t: Seq<char>| #[trigger]
                    self.doc_freqs@.contains_key(t) implies self.doc_freqs@[t] == doc_freq(
                    before,
                    t,
                ) + (if occurrences(terms.take(i + 1), t) > 0 {
                    1nat
                } else {
                    0
                }) by {
                    assert(sofar.doc_freqs@.contains_key(t) <==> doc_freq(before, t) > 0
                        || occurrences(terms.take(i as int), t) > 0);
                }
            }
            i += 1;
        }
        proof {
            assert(terms.take(i as int) =~= terms);
            let after = before.push(stored(chunk@));
            assert(chunk_terms(stored(chunk@)) == terms);
            assert(after.drop_last() =~= before);
            assert(after.last() == stored(chunk@));
            assert(self.consistent());
        }
    }

    /// Counts the chunks and their tokens.
    pub fn finalize(&mut self)
        ensures
            final(self).chunks == old(self).chunks,
            final(self).inverted == old(self).inverted,
            final(self).doc_freqs == old(self).doc_freqs,
            final(self).files == old(self).files,
            final(self).doc_count == old(self).chunks@.len(),
            final(self).total_len == (if old(self).chunks@.len() == 0 {
                old(self).total_len as nat
            } else {
                sum(token_counts(old(self).models()))
            }),
    {
        self.doc_count = self.chunks.len();
        if self.doc_count == 0 {
            return;
        }
        let total = total_tokens(&self.chunks);
        self.total_len = total;
    }
}

impl Default for BM25Index {
    fn default() -> (r: BM25Index)
        ensures
            r.is_blank(),
            r.consistent(),
    {
        BM25Index::new()
    }
}

fn total_tokens(list: &Vec<CodeChunk>) -> (r: u128)
    ensures
        r == sum(token_counts(text::views(list@))),
{
    let ghost counts = token_counts(text::views(list@));
    let mut total: u128 = 0;
    let mut i: usize = 0;
    while i < list.len()
        invariant
            i <= list.len(),
            counts == token_counts(text::views(list@)),
            total == sum(counts.take(i as int)),
            total <= i * 0x1_0000_0000_0000_0000,
        decreases list.len() - i,
    {
        proof {
            lemma_sum_step(counts, i as int);
            assert(counts[i as int] == list@[i as int].token_count);
            assert(i < 0x1_0000_0000_0000_0000);
            assert(list@[i as int].token_count < 0x1_0000_0000_0000_0000);
        }
        total += list[i].token_count as u128;
        i += 1;
    }
    proof {
        assert(counts.take(i as int) =~= counts);
    }
    total
}

fn texts_bytes(list: &Vec<String>) -> (r: usize)
    requires
        sum(text_sizes(text::views(list@))) <= usize::MAX,
    ensures
        r == sum(text_sizes(text::views(list@))),
{
    let ghost sizes = text_sizes(text::views(list@));
    let mut total: usize = 0;
    let mut i: usize = 0;
    while i < list.len()
        invariant
            i <= list.len(),
            sizes == text_sizes(text::views(list@)),
            sum(sizes) <= usize::MAX,
            total == sum(sizes.take(i as int)),
        decreases list.len() - i,
    {
        proof {
            lemma_sum_step(sizes, i as int);
            assert(sizes[i as int] == text::byte_len(list@[i as int]@));
        }
        total += text::byte_length(list[i].as_str());
        i += 1;
    }
    proof {
        assert(sizes.take(i as int) =~= sizes);
    }
    total
}

fn chunks_bytes(list: &Vec<CodeChunk>) -> (r: usize)
    requires
        sum(chunk_sizes(text::views(list@))) <= usize::MAX,
    ensures
        r == sum(chunk_sizes(text::views(list@))),
{
    let ghost sizes = chunk_sizes(text::views(list@));
    let mut total: usize = 0;
    let mut i: usize = 0;
    while i < list.len()
        invariant
            i <= list.len(),
            sizes == chunk_sizes(text::views(list@)),
            sum(sizes) <= usize::MAX,
            total == sum(sizes.take(i as int)),
        decreases list.len() - i,
    {
        let chunk = &list[i];
        proof {
            lemma_sum_step(sizes, i as int);
            assert(sizes[i as int] == chunk_size(chunk@));
        }
        let size: usize = text::byte_length(chunk.content.as_str()) + text::byte_length(
            chunk.file_path.as_str(),
        ) + text::byte_length(chunk.symbol_name.as_str()) + texts_bytes(&chunk.tokens) + 64;
        total += size;
        i += 1;
    }
    proof {
        assert(sizes.take(i as int) =~= sizes);
    }
    total
}

fn postings_bytes(table: &StringTable<Vec<usize>>) -> (r: usize)
    requires
        table.wf(),
        sum(posting_sizes(*table)) <= usize::MAX,
    ensures
        r == sum(posting_sizes(*table)),
{
    let ghost sizes = posting_sizes(*table);
    let mut total: usize = 0;
    let mut i: usize = 0;
    while i < table.len()
        invariant
            i <= table.order().len(),
            table.wf(),
            sizes == posting_sizes(*table),
            sum(sizes) <= usize::MAX,
            total == sum(sizes.take(i as int)),
        decreases table.order().len() - i,
    {
        proof {
            lemma_sum_step(sizes, i as int);
            table.lemma_order();
            assert(sizes[i as int] == text::byte_len(table.order()[i as int]) + table.list(
                table.order()[i as int],
            ).len() * 16 + 32);
            assert(table@.contains_key(table.order()[i as int]));
        }
        let size: usize = text::byte_length(table.key_at(i)) + table.value_at(i).len() * 16 + 32;
        total += size;
        i += 1;
    }
    proof {
        assert(sizes.take(i as int) =~= sizes);
    }
    total
}

fn keys_bytes<V>(table: &StringTable<V>, extra: usize) -> (r: usize)
    requires
        sum(key_sizes(table.order(), extra as nat)) <= usize::MAX,
    ensures
        r == sum(key_sizes(table.order(), extra as nat)),
{
    let ghost sizes = key_sizes(table.order(), extra as nat);
    let mut total: usize = 0;
    let mut i: usize = 0;
    while i < table.len()
        invariant
            i <= table.order().len(),
            sizes == key_sizes(table.order(), extra as nat),
            sum(sizes) <= usize::MAX,
            total == sum(sizes.take(i as int)),
        decreases table.order().len() - i,
    {
        proof {
            lemma_sum_step(sizes, i as int);
        }
        let size: usize = text::byte_length(table.key_at(i)) + extra;
        total += size;
        i += 1;
    }
    proof {
        assert(sizes.take(i as int) =~= sizes);
    }
    total
}

// ---------------------------------------------------------------- scoring
/// The number of chunks that the index counts for a term.
pub open spec fn freq_in(index: BM25Index, t: Seq<char>) -> usize {
    if index.doc_freqs@.contains_key(t) {
        index.doc_freqs@[t]
    } else {
        0
    }
}

/// What the occurrences of a term add to scores.
pub open spec fn term_scores(index: BM25Index, t: Seq<char>) -> Seq<ScoreTerm> {
    if freq_in(index, t) == 0 {
        seq![]
    } else {
        let p = index.inverted.list(t);
        Seq::new(
            p.len(),
            |i: int|
                ScoreTerm {
                    chunk_idx: p[i],
                    doc_freq: freq_in(index, t),
                    doc_len: index.chunks@[p[i] as int].token_count,
                },
        )
    }
}

/// What the occurrences of the terms add to scores, in order.
pub open spec fn all_scores(index: BM25Index, terms: Seq<Seq<char>>) -> Seq<ScoreTerm>
    decreases terms.len(),
{
    if terms.len() == 0 {
        seq![]
    } else {
        all_scores(index, terms.drop_last()) + term_scores(index, terms.last())
    }
}

/// What a query adds to scores, in order; nothing before the index is final.
pub open spec fn query_scores(index: BM25Index, query: Seq<char>) -> Seq<ScoreTerm> {
    if index.doc_count == 0 {
        seq![]
    } else {
        all_scores(index, terms_of(query))
    }
}

/// Whether a result stands before another: by its score, the greater first, and
/// then by its place.
pub open spec fn result_precedes(a: ResultModel, b: ResultModel) -> bool {
    ||| a.score > b.score
    ||| a.score == b.score && ordering::text_precedes(a.file_path, b.file_path)
    ||| a.score == b.score && a.file_path == b.file_path && ordering::text_precedes(
        a.symbol_name,
        b.symbol_name,
    )
    ||| a.score == b.score && a.file_path == b.file_path && a.symbol_name == b.symbol_name
        && a.start_line < b.start_line
    ||| a.score == b.score && a.file_path == b.file_path && a.symbol_name == b.symbol_name
        && a.start_line == b.start_line && a.end_line < b.end_line
}

/// The order of results.
pub open spec fn result_order() -> spec_fn(ResultModel, ResultModel) -> bool {
    |a: ResultModel, b: ResultModel| result_precedes(a, b)
}

proof fn lemma_result_laws(a: ResultModel, b: ResultModel, c: ResultModel)
    ensures
        !result_precedes(a, a),
        result_precedes(a, b) && result_precedes(b, c) ==> result_precedes(a, c),
        !result_precedes(a, b) && !result_precedes(b, c) ==> !result_precedes(a, c),
{
    ordering::lemma_text_order(a.file_path, b.file_path, c.file_path);
    ordering::lemma_text_order(a.file_path, b.file_path, a.file_path);
    ordering::lemma_text_order(b.file_path, c.file_path, b.file_path);
    ordering::lemma_text_order(a.file_path, c.file_path, a.file_path);
    ordering::lemma_text_order(a.symbol_name, b.symbol_name, c.symbol_name);
    ordering::lemma_text_order(a.symbol_name, b.symbol_name, a.symbol_name);
    ordering::lemma_text_order(b.symbol_name, c.symbol_name, b.symbol_name);
    ordering::lemma_text_order(a.symbol_name, c.symbol_name, a.symbol_name);
}

pub proof fn lemma_result_order()
    ensures
        ordering::is_order(result_order()),
{
    assert forall|a: ResultModel| !#[trigger] result_order()(a, a) by {
        lemma_result_laws(a, a, a);
    }
    assert forall|a: ResultModel, b: ResultModel, c: ResultModel|
        #![trigger result_order()(a, b), result_order()(b, c)]
        result_order()(a, b) && result_order()(b, c) implies result_order()(a, c) by {
        lemma_result_laws(a, b, c);
    }
    assert forall|a: ResultModel, b: ResultModel, c: ResultModel|
        #![trigger result_order()(a, b), result_order()(b, c)]
        !result_order()(a, b) && !result_order()(b, c) implies !result_order()(a, c) by {
        lemma_result_laws(a, b, c);
    }
}

impl Ordered for SearchResult {
    open spec fn order() -> spec_fn(ResultModel, ResultModel) -> bool {
        result_order()
    }

    proof fn order_laws() {
        lemma_result_order();
    }

    fn comes_before(&self, other: &SearchResult) -> (r: bool) {
        if self.score != other.score {
            return self.score > other.score;
        }
        proof {
            ordering::lemma_text_order(self.file_path@, other.file_path@, self.file_path@);
            ordering::lemma_text_order(self.symbol_name@, other.symbol_name@, self.symbol_name@);
        }
        if !text::same_text(self.file_path.as_str(), other.file_path.as_str()) {
            return ordering::text_before(self.file_path.as_str(), other.file_path.as_str());
        }
        if !text::same_text(self.symbol_name.as_str(), other.symbol_name.as_str()) {
            return ordering::text_before(self.symbol_name.as_str(), other.symbol_name.as_str());
        }
        if self.start_line != other.start_line {
            return self.start_line < other.start_line;
        }
        self.end_line < other.end_line
    }
}

// ---------------------------------------------------------------- searching
/// The chunks with a positive score among those that are hit, in the order in
/// which they are hit first.
pub open spec fn scored_chunks(hits: Seq<ScoreTerm>, scores: Seq<u64>) -> Seq<usize>
    decreases hits.len(),
{
    if hits.len() == 0 {
        seq![]
    } else {
        let before = scored_chunks(hits.drop_last(), scores);
        let c = hits.last().chunk_idx;
        if scores[c as int] > 0 && !before.contains(c) {
            before.push(c)
        } else {
            before
        }
    }
}

/// The first five lines of a text.
pub open spec fn snippet_of(content: Seq<char>) -> Seq<char> {
    let lines = text::lines(content);
    text::join(
        lines.take(
            if lines.len() < 5 {
                lines.len() as int
            } else {
                5
            },
        ),
        "\n"@,
    )
}

/// The result for a chunk.
pub open spec fn result_of(c: Seq<ChunkModel>, i: usize, score: u64) -> ResultModel {
    let chunk = c[i as int];
    ResultModel {
        chunk_idx: i as int,
        score,
        file_path: chunk.file_path,
        symbol_name: chunk.symbol_name,
        kind: chunk.kind,
        start_line: chunk.start_line,
        end_line: chunk.end_line,
        snippet: snippet_of(chunk.content),
    }
}

pub open spec fn results_of(c: Seq<ChunkModel>, found: Seq<usize>, scores: Seq<u64>) -> Seq<
    ResultModel,
> {
    Seq::new(found.len(), |i: int| result_of(c, found[i], scores[found[i] as int]))
}

/// At most `n` of the values.
pub open spec fn first_of<M>(s: Seq<M>, n: nat) -> Seq<M> {
    s.take(
        if s.len() < n {
            s.len() as int
        } else {
            n as int
        },
    )
}

/// The results of a search: the chunks that the query hits and that have a
/// positive score, in order, at most `top_k` of them.
pub open spec fn search_results(
    index: BM25Index,
    query: Seq<char>,
    top_k: nat,
    scores: Seq<u64>,
) -> Seq<ResultModel> {
    let found = scored_chunks(query_scores(index, query), scores);
    first_of(
        ordering::sorted(results_of(index.models(), found, scores), result_order()),
        top_k,
    )
}

/// A chunk is found at most once, and just where the query hits it and its score
/// is positive.
pub proof fn lemma_scored_chunks(hits: Seq<ScoreTerm>, scores: Seq<u64>)
    ensures
        forall|i: int, j: int|
            #![trigger scored_chunks(hits, scores)[i], scored_chunks(hits, scores)[j]]
            0 <= i < j < scored_chunks(hits, scores).len() ==> scored_chunks(hits, scores)[i]
                != scored_chunks(hits, scores)[j],
        forall|c: usize| #[trigger]
            scored_chunks(hits, scores).contains(c) <==> scores[c as int] > 0 && exists|k: int|
                0 <= k < hits.len() && (#[trigger] hits[k]).chunk_idx == c,
    decreases hits.len(),
{
    let found = scored_chunks(hits, scores);
    if hits.len() > 0 {
        let rest = hits.drop_last();
        lemma_scored_chunks(rest, scores);
        let before = scored_chunks(rest, scores);
        let last = hits.last().chunk_idx;
        assert forall|i: int, j: int|
            #![trigger found[i], found[j]]
            0 <= i < j < found.len() implies found[i] != found[j] by {
            if j < before.len() {
                assert(found[i] == before[i] && found[j] == before[j]);
            } else {
                assert(found[i] == before[i]);
                assert(before.contains(before[i]));
            }
        }
        assert forall|c: usize| #[trigger]
            found.contains(c) <==> scores[c as int] > 0 && exists|k: int|
                0 <= k < hits.len() && (#[trigger] hits[k]).chunk_idx == c by {
            if found.contains(c) {
                let i = choose|i: int| 0 <= i < found.len() && found[i] == c;
                if i < before.len() {
                    assert(before[i] == c);
                    assert(before.contains(c));
                    let k = choose|k: int| 0 <= k < rest.len() && (#[trigger] rest[k]).chunk_idx == c;
                    assert(hits[k].chunk_idx == c);
                } else {
                    assert(hits[hits.len() - 1].chunk_idx == c);
                }
            }
            if scores[c as int] > 0 && exists|k: int|
                0 <= k < hits.len() && (#[trigger] hits[k]).chunk_idx == c {
                let k = choose|k: int| 0 <= k < hits.len() && (#[trigger] hits[k]).chunk_idx == c;
                if k < rest.len() {
                    assert(rest[k].chunk_idx == c);
                    assert(before.contains(c));
                    let i = choose|i: int| 0 <= i < before.len() && before[i] == c;
                    assert(found[i] == c);
                } else if before.contains(c) {
                    let i = choose|i: int| 0 <= i < before.len() && before[i] == c;
                    assert(found[i] == c);
                } else {
                    assert(found[found.len() - 1] == c);
                }
            }
        }
    }
}

/// A search gives at most `top_k` results, each with a positive score, in their
/// order: those of equal score by path, name and lines.
pub proof fn law_search(index: BM25Index, query: Seq<char>, top_k: nat, scores: Seq<u64>)
    ensures
        search_results(index, query, top_k, scores).len() <= top_k,
        ordering::is_sorted(search_results(index, query, top_k, scores), result_order()),
        forall|i: int|
            #![trigger search_results(index, query, top_k, scores)[i]]
            0 <= i < search_results(index, query, top_k, scores).len() ==> search_results(
                index,
                query,
                top_k,
                scores,
            )[i].score > 0,
{
    let hits = query_scores(index, query);
    let found = scored_chunks(hits, scores);
    let models = results_of(index.models(), found, scores);
    let all = ordering::sorted(models, result_order());
    let r = search_results(index, query, top_k, scores);
    lemma_result_order();
    ordering::law_sorted(models, result_order());
    lemma_scored_chunks(hits, scores);
    assert forall|i: int, j: int|
        #![trigger r[i], r[j]]
        0 <= i < j < r.len() implies !result_order()(r[j], r[i]) by {
        assert(r[i] == all[i] && r[j] == all[j]);
    }
    assert forall|i: int| #![trigger r[i]] 0 <= i < r.len() implies r[i].score > 0 by {
        let m = all[i];
        models.to_multiset_ensures();
        all.to_multiset_ensures();
        assert(all.contains(m));
        assert(all.to_multiset().count(m) > 0);
        assert(models.contains(m));
        let k = choose|k: int| 0 <= k < models.len() && models[k] == m;
        assert(found.contains(found[k]));
    }
}

/// A search that cuts nothing off gives a result for every chunk that the query hits
/// and whose score is positive.
pub proof fn law_search_is_complete(
    index: BM25Index,
    query: Seq<char>,
    top_k: nat,
    scores: Seq<u64>,
    c: usize,
)
    requires
        scored_chunks(query_scores(index, query), scores).len() <= top_k,
        scores[c as int] > 0,
        exists|k: int|
            0 <= k < query_scores(index, query).len() && (#[trigger] query_scores(
                index,
                query,
            )[k]).chunk_idx == c,
    ensures
        search_results(index, query, top_k, scores).contains(
            result_of(index.models(), c, scores[c as int]),
        ),
{
    let hits = query_scores(index, query);
    let found = scored_chunks(hits, scores);
    let models = results_of(index.models(), found, scores);
    let all = ordering::sorted(models, result_order());
    let m = result_of(index.models(), c, scores[c as int]);
    lemma_result_order();
    ordering::law_sorted(models, result_order());
    lemma_scored_chunks(hits, scores);
    assert(found.contains(c));
    let k = choose|k: int| 0 <= k < found.len() && found[k] == c;
    assert(models[k] == m);
    models.to_multiset_ensures();
    all.to_multiset_ensures();
    assert(models.contains(m));
    assert(models.to_multiset().count(m) > 0);
    assert(all.contains(m));
    assert(search_results(index, query, top_k, scores) =~= all);
}

/// Where the tables agree with the chunks, a query hits just the chunks that hold
/// one of its terms.
pub proof fn law_query_hits(index: BM25Index, query: Seq<char>, c: usize)
    requires
        index.consistent(),
        index.doc_count > 0,
        index.chunks@.len() <= usize::MAX,
        c < index.chunks@.len(),
    ensures
        (exists|k: int|
            0 <= k < query_scores(index, query).len() && (#[trigger] query_scores(
                index,
                query,
            )[k]).chunk_idx == c) <==> (exists|k: int|
            0 <= k < terms_of(query).len() && occurrences(
                chunk_terms(index.models()[c as int]),
                #[trigger] terms_of(query)[k],
            ) > 0),
{
    lemma_hits(index, terms_of(query), c);
    let all = all_scores(index, terms_of(query));
    let own = chunk_terms(index.models()[c as int]);
    assert(query_scores(index, query) == all);
    if exists|k: int|
        0 <= k < query_scores(index, query).len() && (#[trigger] query_scores(
            index,
            query,
        )[k]).chunk_idx == c {
        let k = choose|k: int|
            0 <= k < query_scores(index, query).len() && (#[trigger] query_scores(
                index,
                query,
            )[k]).chunk_idx == c;
        assert(all[k].chunk_idx == c);
    }
    if exists|k: int|
        0 <= k < terms_of(query).len() && occurrences(own, #[trigger] terms_of(query)[k]) > 0 {
        let k = choose|k: int| 0 <= k < all.len() && (#[trigger] all[k]).chunk_idx == c;
        assert(query_scores(index, query)[k].chunk_idx == c);
    }
}

proof fn lemma_term_hits(index: BM25Index, t: Seq<char>, c: usize)
    requires
        index.consistent(),
        index.chunks@.len() <= usize::MAX,
        c < index.chunks@.len(),
    ensures
        (exists|k: int|
            0 <= k < term_scores(index, t).len() && (#[trigger] term_scores(index, t)[k]).chunk_idx
                == c) <==> occurrences(chunk_terms(index.models()[c as int]), t) > 0,
{
    let models = index.models();
    law_postings(models, t);
    let p = postings(models, t);
    assert(index.inverted.list(t) == p);
    assert(index.doc_freqs@.contains_key(t) <==> doc_freq(models, t) > 0);
    let s = term_scores(index, t);
    if occurrences(chunk_terms(models[c as int]), t) > 0 {
        assert(p.contains(c));
        let k = choose|k: int| 0 <= k < p.len() && p[k] == c;
        assert(s[k].chunk_idx == c);
    }
    if exists|k: int| 0 <= k < s.len() && (#[trigger] s[k]).chunk_idx == c {
        let k = choose|k: int| 0 <= k < s.len() && (#[trigger] s[k]).chunk_idx == c;
        assert(p[k] == c);
    }
}

proof fn lemma_hits(index: BM25Index, terms: Seq<Seq<char>>, c: usize)
    requires
        index.consistent(),
        index.chunks@.len() <= usize::MAX,
        c < index.chunks@.len(),
    ensures
        (exists|k: int|
            0 <= k < all_scores(index, terms).len() && (#[trigger] all_scores(
                index,
                terms,
            )[k]).chunk_idx == c) <==> (exists|k: int|
            0 <= k < terms.len() && occurrences(
                chunk_terms(index.models()[c as int]),
                #[trigger] terms[k],
            ) > 0),
    decreases terms.len(),
{
    if terms.len() > 0 {
        let rest = terms.drop_last();
        let own = chunk_terms(index.models()[c as int]);
        lemma_hits(index, rest, c);
        lemma_term_hits(index, terms.last(), c);
        let a = all_scores(index, rest);
        let b = term_scores(index, terms.last());
        let all = all_scores(index, terms);
        if exists|k: int| 0 <= k < all.len() && (#[trigger] all[k]).chunk_idx == c {
            let k = choose|k: int| 0 <= k < all.len() && (#[trigger] all[k]).chunk_idx == c;
            if k < a.len() {
                assert(a[k].chunk_idx == c);
                let m = choose|m: int| 0 <= m < rest.len() && occurrences(own, #[trigger] rest[m]) > 0;
                assert(occurrences(own, terms[m]) > 0);
            } else {
                assert(b[k - a.len()].chunk_idx == c);
                assert(occurrences(own, terms[terms.len() - 1]) > 0);
            }
        }
        if exists|k: int| 0 <= k < terms.len() && occurrences(own, #[trigger] terms[k]) > 0 {
            let k = choose|k: int| 0 <= k < terms.len() && occurrences(own, #[trigger] terms[k]) > 0;
            if k < rest.len() {
                assert(occurrences(own, rest[k]) > 0);
                let m = choose|m: int| 0 <= m < a.len() && (#[trigger] a[m]).chunk_idx == c;
                assert(all[m].chunk_idx == c);
            } else {
                let m = choose|m: int| 0 <= m < b.len() && (#[trigger] b[m]).chunk_idx == c;
                assert(all[a.len() + m].chunk_idx == c);
            }
        }
    }
}

/// A query without tokens finds nothing, and so does an index that counts no
/// chunk.
pub proof fn law_nothing_to_search(index: BM25Index, query: Seq<char>, top_k: nat, scores: Seq<u64>)
    requires
        index.doc_count == 0 || tokens::tokens_of(query).len() == 0,
    ensures
        search_results(index, query, top_k, scores).len() == 0,
{
}

fn result_for(list: &Vec<CodeChunk>, i: usize, score: u64) -> (r: SearchResult)
    requires
        i < list@.len(),
    ensures
        r@ == result_of(text::views(list@), i, score),
{
    let chunk = &list[i];
    let content = text::chars_of(chunk.content.as_str());
    let lines = text::line_list(content.as_slice());
    let shown: usize = if lines.len() < 5 {
        lines.len()
    } else {
        5
    };
    let head = vstd::slice::slice_subrange(lines.as_slice(), 0, shown);
    proof {
        assert(text::views(head@) =~= text::views(lines@).take(shown as int));
    }
    let snippet = text::text_of(text::joined(head, "\n").as_slice());
    SearchResult {
        chunk_idx: i,
        score,
        file_path: chunk.file_path.clone(),
        symbol_name: chunk.symbol_name.clone(),
        kind: chunk.kind,
        start_line: chunk.start_line,
        end_line: chunk.end_line,
        snippet,
    }
}

impl BM25Index {
    fn add_term_scores(&self, lower: &str, out: &mut Vec<ScoreTerm>)
        requires
            self.searchable(),
        ensures
            final(out)@ == old(out)@ + term_scores(*self, lower@),
    {
        let freq: usize = match self.doc_freqs.get(lower) {
            Some(n) => *n,
            None => 0,
        };
        let ghost before = out@;
        let ghost added = term_scores(*self, lower@);
        if freq == 0 {
            proof {
                assert(before + added =~= before);
            }
            return;
        }
        match self.inverted.get(lower) {
            Some(p) => {
                let mut i: usize = 0;
                proof {
                    assert(p@ == self.inverted.list(lower@));
                    assert(before + added.take(0) =~= before);
                }
                while i < p.len()
                    invariant
                        i <= p.len(),
                        self.searchable(),
                        p@ == self.inverted.list(lower@),
                        freq == freq_in(*self, lower@),
                        freq != 0,
                        added == term_scores(*self, lower@),
                        out@ == before + added.take(i as int),
                    decreases p.len() - i,
                {
                    let idx: usize = p[i];
                    proof {
                        assert(self.inverted.list(lower@)[i as int] < self.chunks@.len());
                    }
                    let term = ScoreTerm {
                        chunk_idx: idx,
                        doc_freq: freq,
                        doc_len: self.chunks[idx].token_count,
                    };
                    proof {
                        assert(added[i as int] == term);
                        assert(before + added.take(i + 1) =~= (before + added.take(i as int)).push(
                            term,
                        ));
                    }
                    out.push(term);
                    i += 1;
                }
                proof {
                    assert(added.take(i as int) =~= added);
                }
            },
            None => {
                proof {
                    assert(before + added =~= before);
                }
            },
        }
    }

    /// What a query adds to scores, in order.
    pub fn score_terms(&self, query: &str) -> (r: Vec<ScoreTerm>)
        requires
            self.searchable(),
        ensures
            r@ == query_scores(*self, query@),
            forall|i: int|
                #![trigger r@[i]]
                0 <= i < r@.len() ==> r@[i].chunk_idx < self.chunks@.len(),
    {
        let mut out: Vec<ScoreTerm> = Vec::new();
        if self.doc_count == 0 {
            return out;
        }
        let found = tokens::tokenize(query);
        let ghost terms = terms_of(query@);
        let mut i: usize = 0;
        proof {
            assert(out@ =~= all_scores(*self, terms.take(0)));
        }
        while i < found.len()
            invariant
                i <= found.len(),
                self.searchable(),
                text::views(found@) == tokens::tokens_of(query@),
                terms == terms_of(query@),
                terms.len() == found@.len(),
                out@ == all_scores(*self, terms.take(i as int)),
                forall|k: int|
                    #![trigger out@[k]]
                    0 <= k < out@.len() ==> out@[k].chunk_idx < self.chunks@.len(),
            decreases found.len() - i,
        {
            let lower = found[i].as_str().to_lowercase();
            let ghost before = out@;
            proof {
                assert(terms[i as int] == lower@);
                assert(terms.take(i + 1).drop_last() =~= terms.take(i as int));
            }
            self.add_term_scores(lower.as_str(), &mut out);
            proof {
                let added = term_scores(*self, lower@);
                assert forall|k: int|
                    #![trigger out@[k]]
                    0 <= k < out@.len() implies out@[k].chunk_idx < self.chunks@.len() by {
                    if k < before.len() {
                        assert(out@[k] == before[k]);
                    } else {
                        assert(out@[k] == added[k - before.len()]);
                        assert(self.inverted.list(lower@)[k - before.len()] < self.chunks@.len());
                    }
                }
            }
            i += 1;
        }
        proof {
            assert(terms.take(i as int) =~= terms);
        }
        out
    }

    /// The chunks that a query finds, at most `top_k` of them. `scores` holds the
    /// bits of each chunk's score, or zero where the score is not positive.
    pub fn search(&self, query: &str, top_k: usize, scores: &[u64]) -> (r: Vec<SearchResult>)
        requires
            self.searchable(),
            scores@.len() == self.chunks@.len(),
        ensures
            text::views(r@) == search_results(*self, query@, top_k as nat, scores@),
    {
        let hits = self.score_terms(query);
        let ghost models = self.models();
        let mut seen: Vec<bool> = Vec::new();
        while seen.len() < scores.len()
            invariant
                seen@.len() <= scores@.len(),
                forall|c: int| 0 <= c < seen@.len() ==> !#[trigger] seen@[c],
            decreases scores@.len() - seen@.len(),
        {
            seen.push(false);
        }
        let mut out: Vec<SearchResult> = Vec::new();
        let mut i: usize = 0;
        let ghost mut found: Seq<usize> = seq![];
        proof {
            lemma_result_order();
            assert(found =~= scored_chunks(hits@.take(0), scores@));
            assert(results_of(models, found, scores@) =~= Seq::<ResultModel>::empty());
            assert(text::views(out@) =~= first_of(
                ordering::sorted(results_of(models, found, scores@), result_order()),
                top_k as nat,
            ));
        }
        while i < hits.len()
            invariant
                i <= hits.len(),
                models == self.models(),
                scores@.len() == self.chunks@.len(),
                seen@.len() == scores@.len(),
                ordering::is_order(result_order()),
                forall|k: int|
                    #![trigger hits@[k]]
                    0 <= k < hits@.len() ==> hits@[k].chunk_idx < self.chunks@.len(),
                found == scored_chunks(hits@.take(i as int), scores@),
                forall|c: int|
                    0 <= c < seen@.len() ==> #[trigger] seen@[c] == found.contains(c as usize),
                text::views(out@) == first_of(
                    ordering::sorted(results_of(models, found, scores@), result_order()),
                    top_k as nat,
                ),
            decreases hits.len() - i,
        {
            let c: usize = hits[i].chunk_idx;
            proof {
                assert(hits@.take(i + 1).drop_last() =~= hits@.take(i as int));
                assert(hits@.take(i + 1).last() == hits@[i as int]);
            }
            if scores[c] > 0 && !seen[c] {
                let ghost before = found;
                let ghost all = ordering::sorted(
                    results_of(models, before, scores@),
                    result_order(),
                );
                let ghost kept = text::views(out@);
                seen.set(c, true);
                let result = result_for(&self.chunks, c, scores[c]);
                proof {
                    found = before.push(c);
                    assert forall|d: int| 0 <= d < seen@.len() implies #[trigger] seen@[d]
                        == found.contains(d as usize) by {
                        if before.contains(d as usize) {
                            let k = choose|k: int| 0 <= k < before.len() && before[k] == d as usize;
                            assert(found[k] == d as usize);
                        }
                        if d == c {
                            assert(found[before.len() as int] == c);
                        }
                    }
                    let prior = results_of(models, before, scores@);
                    let now = results_of(models, found, scores@);
                    assert(now.drop_last() =~= prior);
                    assert(now.last() == result@);
                    ordering::law_sorted(prior, result_order());
                    ordering::law_sorted(now, result_order());
                    ordering::lemma_first_inserted(all, result@, result_order(), kept.len() as int);
                    assert(kept =~= all.take(kept.len() as int));
                }
                insert_first(&mut out, result, top_k);
                proof {
                    let next = ordering::sorted(
                        results_of(models, found, scores@),
                        result_order(),
                    );
                    assert(next == ordering::inserted(all, result@, result_order()));
                    ordering::lemma_inserted(kept, result@, result_order());
                    if all.len() < top_k {
                        assert(kept =~= all);
                    } else {
                        assert(kept.len() == top_k);
                        assert(first_of(next, top_k as nat) == next.take(top_k as int));
                    }
                    assert(text::views(out@) == first_of(next, top_k as nat));
                }
            }
            i += 1;
        }
        proof {
            assert(hits@.take(i as int) =~= hits@);
        }
        out
    }
}

/// Inserts a result into a sorted list of at most `top_k`, and drops the last
/// where it is one too many.
fn insert_first(list: &mut Vec<SearchResult>, x: SearchResult, top_k: usize)
    requires
        ordering::is_sorted(text::views(old(list)@), result_order()),
        old(list)@.len() <= top_k,
    ensures
        text::views(final(list)@) == first_of(
            ordering::inserted(text::views(old(list)@), x@, result_order()),
            top_k as nat,
        ),
{
    let ghost before = text::views(list@);
    proof {
        lemma_result_order();
        ordering::lemma_inserted(before, x@, result_order());
    }
    ordering::insert_sorted(list, x);
    let ghost all = text::views(list@);
    if list.len() > top_k {
        let dropped = list.pop();
        proof {
            assert(text::views(list@) =~= all.take(top_k as int));
        }
    } else {
        proof {
            assert(first_of(all, top_k as nat) =~= all);
        }
    }
}

// ---------------------------------------------------------------- printing
/// The name of a kind.
pub open spec fn kind_name(kind: ChunkKind) -> Seq<char> {
    match kind {
        ChunkKind::Function => "Function"@,
        ChunkKind::Struct => "Struct"@,
        ChunkKind::Impl => "Impl"@,
        ChunkKind::Module => "Module"@,
        ChunkKind::Class => "Class"@,
        ChunkKind::Method => "Method"@,
        ChunkKind::Other => "Other"@,
    }
}

/// The lines that show the `i`th result with its score.
pub open spec fn result_lines(i: int, r: ResultModel, score: Seq<char>, compact: bool) -> Seq<char> {
    let number = text::decimal((i + 1) as nat);
    let start = text::decimal(r.start_line as nat);
    let end = text::decimal(r.end_line as nat);
    if compact {
        number + ". "@ + score + " "@ + r.file_path + ":"@ + start + "-"@ + end + " "@ + kind_name(
            r.kind,
        ) + " "@ + r.symbol_name + "\n"@
    } else {
        "\n--- Result "@ + number + " (score: "@ + score + ") ---\n"@ + r.file_path + " :: "@
            + r.symbol_name + " ["@ + kind_name(r.kind) + "] (L"@ + start + "-"@ + end + ")\n"@
            + r.snippet + "\n"@
    }
}

/// The results, each with its score.
pub open spec fn shown_results(
    results: Seq<ResultModel>,
    scores: Seq<Seq<char>>,
    compact: bool,
) -> Seq<char>
    decreases results.len(),
{
    if results.len() == 0 {
        seq![]
    } else {
        let i = results.len() - 1;
        shown_results(results.drop_last(), scores, compact) + result_lines(
            i,
            results[i],
            scores[i],
            compact,
        )
    }
}

/// The name of a kind.
pub fn kind_text(kind: ChunkKind) -> (r: &'static str)
    ensures
        r@ == kind_name(kind),
{
    match kind {
        ChunkKind::Function => "Function",
        ChunkKind::Struct => "Struct",
        ChunkKind::Impl => "Impl",
        ChunkKind::Module => "Module",
        ChunkKind::Class => "Class",
        ChunkKind::Method => "Method",
        ChunkKind::Other => "Other",
    }
}

fn result_text(i: usize, r: &SearchResult, score: &str, compact: bool) -> (out: String)
    requires
        i < usize::MAX,
    ensures
        out@ == result_lines(i as int, r@, score@, compact),
{
    let mut out = String::new();
    if compact {
        text::push_number(&mut out, i + 1);
        out.push_str(". ");
        out.push_str(score);
        out.push_str(" ");
        out.push_str(r.file_path.as_str());
        out.push_str(":");
        text::push_number(&mut out, r.start_line);
        out.push_str("-");
        text::push_number(&mut out, r.end_line);
        out.push_str(" ");
        out.push_str(kind_text(r.kind));
        out.push_str(" ");
        out.push_str(r.symbol_name.as_str());
        out.push_str("\n");
        proof {
            assert(out@ =~= result_lines(i as int, r@, score@, compact));
        }
    } else {
        out.push_str("\n--- Result ");
        text::push_number(&mut out, i + 1);
        out.push_str(" (score: ");
        out.push_str(score);
        out.push_str(") ---\n");
        out.push_str(r.file_path.as_str());
        out.push_str(" :: ");
        out.push_str(r.symbol_name.as_str());
        out.push_str(" [");
        out.push_str(kind_text(r.kind));
        out.push_str("] (L");
        text::push_number(&mut out, r.start_line);
        out.push_str("-");
        text::push_number(&mut out, r.end_line);
        out.push_str(")\n");
        out.push_str(r.snippet.as_str());
        out.push_str("\n");
        proof {
            assert(out@ =~= result_lines(i as int, r@, score@, compact));
        }
    }
    out
}

/// The results as text; `scores` holds each score as it is to be shown.
pub fn format_search_results(results: &[SearchResult], scores: &[String], compact: bool) -> (r:
    String)
    requires
        scores@.len() == results@.len(),
    ensures
        r@ == (if results@.len() == 0 {
            "No results found."@
        } else {
            shown_results(text::views(results@), text::views(scores@), compact)
        }),
{
    if results.len() == 0 {
        return "No results found.".to_string();
    }
    let ghost all = text::views(results@);
    let ghost shown = text::views(scores@);
    let mut out = String::new();
    let mut i: usize = 0;
    proof {
        assert(out@ =~= shown_results(all.take(0), shown, compact));
    }
    while i < results.len()
        invariant
            i <= results@.len(),
            scores@.len() == results@.len(),
            all == text::views(results@),
            shown == text::views(scores@),
            out@ == shown_results(all.take(i as int), shown, compact),
        decreases results@.len() - i,
    {
        let lines = result_text(i, &results[i], scores[i].as_str(), compact);
        proof {
            assert(all.take(i + 1).drop_last() =~= all.take(i as int));
        }
        out.push_str(lines.as_str());
        i += 1;
    }
    proof {
        assert(all.take(i as int) =~= all);
    }
    out
}

// ---------------------------------------------------------------- laws of the search
/// In the results of a search the scores never increase. Results of one score go by
/// path, those of one path by name, and those of one name by their first and then
/// their last line.
pub proof fn law_best_results_first(
    index: BM25Index,
    query: Seq<char>,
    top_k: nat,
    scores: Seq<u64>,
    i: int,
    j: int,
)
    requires
        0 <= i < j < search_results(index, query, top_k, scores).len(),
    ensures
        ({
            let a = search_results(index, query, top_k, scores)[i];
            let b = search_results(index, query, top_k, scores)[j];
            &&& a.score >= b.score
            &&& a.score == b.score ==> a.file_path == b.file_path || ordering::text_precedes(
                a.file_path,
                b.file_path,
            )
            &&& a.score == b.score && a.file_path == b.file_path ==> a.symbol_name == b.symbol_name
                || ordering::text_precedes(a.symbol_name, b.symbol_name)
            &&& a.score == b.score && a.file_path == b.file_path && a.symbol_name == b.symbol_name
                ==> a.start_line <= b.start_line
            &&& a.score == b.score && a.file_path == b.file_path && a.symbol_name == b.symbol_name
                && a.start_line == b.start_line ==> a.end_line <= b.end_line
        }),
{
    law_search(index, query, top_k, scores);
    let r = search_results(index, query, top_k, scores);
    assert(!result_order()(r[j], r[i]));
    ordering::lemma_text_order(r[i].file_path, r[j].file_path, r[i].file_path);
    ordering::lemma_text_order(r[i].symbol_name, r[j].symbol_name, r[i].symbol_name);
}

/// Whether a chunk holds one of the terms of a query.
pub open spec fn shares_term(query: Seq<char>, c: ChunkModel) -> bool {
    exists|t: Seq<char>| #[trigger] terms_of(query).contains(t) && chunk_terms(c).contains(t)
}

/// How often a term occurs is how often it stands among the terms.
pub proof fn law_occurrences(terms: Seq<Seq<char>>, t: Seq<char>)
    ensures
        occurrences(terms, t) == terms.to_multiset().count(t),
        occurrences(terms, t) > 0 <==> terms.contains(t),
    decreases terms.len(),
{
    terms.to_multiset_ensures();
    if terms.len() > 0 {
        let rest = terms.drop_last();
        law_occurrences(rest, t);
        rest.to_multiset_ensures();
        assert(terms =~= rest.push(terms.last()));
    }
}

/// A query hits just the chunks that hold one of its terms.
pub proof fn lemma_hit_is_shared_term(index: BM25Index, query: Seq<char>, c: usize)
    requires
        index.consistent(),
        index.doc_count > 0,
        index.chunks@.len() <= usize::MAX,
        c < index.chunks@.len(),
    ensures
        (exists|k: int|
            0 <= k < query_scores(index, query).len() && (#[trigger] query_scores(
                index,
                query,
            )[k]).chunk_idx == c) <==> shares_term(query, index.models()[c as int]),
{
    law_query_hits(index, query, c);
    let own = chunk_terms(index.models()[c as int]);
    let terms = terms_of(query);
    if exists|k: int| 0 <= k < terms.len() && occurrences(own, #[trigger] terms[k]) > 0 {
        let k = choose|k: int| 0 <= k < terms.len() && occurrences(own, #[trigger] terms[k]) > 0;
        law_occurrences(own, terms[k]);
        assert(terms.contains(terms[k]));
    }
    if shares_term(query, index.models()[c as int]) {
        let t = choose|t: Seq<char>| #[trigger] terms.contains(t) && own.contains(t);
        let k = choose|k: int| 0 <= k < terms.len() && terms[k] == t;
        law_occurrences(own, t);
        assert(occurrences(own, terms[k]) > 0);
    }
}

/// What a search gives: at most `top_k` results, each for a chunk of its own that
/// holds a term of the query and has a positive score, with the score, the place and
/// the first lines of the chunk.
pub proof fn law_results_are_hits(
    index: BM25Index,
    query: Seq<char>,
    top_k: nat,
    scores: Seq<u64>,
    i: int,
)
    requires
        index.consistent(),
        index.doc_count > 0,
        index.chunks@.len() <= usize::MAX,
        scores.len() == index.chunks@.len(),
        0 <= i < search_results(index, query, top_k, scores).len(),
    ensures
        search_results(index, query, top_k, scores).len() <= top_k,
        ({
            let r = search_results(index, query, top_k, scores)[i];
            let c = index.models()[r.chunk_idx];
            let lines = text::lines(c.content);
            &&& 0 <= r.chunk_idx < index.chunks@.len()
            &&& shares_term(query, c)
            &&& scores[r.chunk_idx] > 0
            &&& r.score == scores[r.chunk_idx]
            &&& r.file_path == c.file_path
            &&& r.symbol_name == c.symbol_name
            &&& r.kind == c.kind
            &&& r.start_line == c.start_line
            &&& r.end_line == c.end_line
            &&& lines.len() <= 5 ==> r.snippet == text::join(lines, "\n"@)
            &&& lines.len() > 5 ==> r.snippet == text::join(
                seq![lines[0], lines[1], lines[2], lines[3], lines[4]],
                "\n"@,
            )
        }),
        forall|j: int|
            #![trigger search_results(index, query, top_k, scores)[j]]
            0 <= j < search_results(index, query, top_k, scores).len() && j != i
                ==> search_results(index, query, top_k, scores)[j].chunk_idx != search_results(
                index,
                query,
                top_k,
                scores,
            )[i].chunk_idx,
{
    let hits = query_scores(index, query);
    let found = scored_chunks(hits, scores);
    let models = results_of(index.models(), found, scores);
    let all = ordering::sorted(models, result_order());
    let r = search_results(index, query, top_k, scores);
    lemma_result_order();
    ordering::law_sorted(models, result_order());
    lemma_scored_chunks(hits, scores);
    models.to_multiset_ensures();
    all.to_multiset_ensures();
    let m = all[i];
    assert(all.contains(m));
    assert(all.to_multiset().count(m) > 0);
    assert(models.contains(m));
    let k = choose|k: int| 0 <= k < models.len() && models[k] == m;
    assert(found.contains(found[k]));
    let h = choose|h: int| 0 <= h < hits.len() && (#[trigger] hits[h]).chunk_idx == found[k];
    lemma_hits_within(index, query, h);
    lemma_hit_is_shared_term(index, query, found[k]);
    let lines = text::lines(index.models()[m.chunk_idx].content);
    if lines.len() > 5 {
        assert(lines.take(5) =~= seq![lines[0], lines[1], lines[2], lines[3], lines[4]]);
    } else {
        assert(lines.take(lines.len() as int) =~= lines);
    }
    lemma_results_distinct(models, found);
    assert forall|j: int| #![trigger r[j]] 0 <= j < r.len() && j != i implies r[j].chunk_idx
        != r[i].chunk_idx by {
        if r[j].chunk_idx == r[i].chunk_idx {
            lemma_same_in_both(models, all, i, j);
        }
    }
}

/// A hit is a chunk of the index.
proof fn lemma_hits_within(index: BM25Index, query: Seq<char>, h: int)
    requires
        index.consistent(),
        index.chunks@.len() <= usize::MAX,
        0 <= h < query_scores(index, query).len(),
    ensures
        query_scores(index, query)[h].chunk_idx < index.chunks@.len(),
{
    index.law_searchable();
    lemma_scores_within(index, terms_of(query), h);
}

proof fn lemma_scores_within(index: BM25Index, terms: Seq<Seq<char>>, h: int)
    requires
        index.searchable(),
        0 <= h < all_scores(index, terms).len(),
    ensures
        all_scores(index, terms)[h].chunk_idx < index.chunks@.len(),
    decreases terms.len(),
{
    if terms.len() > 0 {
        let a = all_scores(index, terms.drop_last());
        let b = term_scores(index, terms.last());
        if h < a.len() {
            lemma_scores_within(index, terms.drop_last(), h);
        } else {
            assert(all_scores(index, terms)[h] == b[h - a.len()]);
            assert(index.inverted.list(terms.last())[h - a.len()] < index.chunks@.len());
        }
    }
}

/// Whether no two results are for one chunk.
spec fn distinct_chunks(s: Seq<ResultModel>) -> bool {
    forall|i: int, j: int|
        #![trigger s[i], s[j]]
        0 <= i < j < s.len() ==> s[i].chunk_idx != s[j].chunk_idx
}

proof fn lemma_results_distinct(models: Seq<ResultModel>, found: Seq<usize>)
    requires
        models.len() == found.len(),
        forall|i: int| #![trigger models[i]] 0 <= i < models.len() ==> models[i].chunk_idx == found[i],
        forall|i: int, j: int|
            #![trigger found[i], found[j]]
            0 <= i < j < found.len() ==> found[i] != found[j],
    ensures
        distinct_chunks(models),
{
    assert forall|i: int, j: int|
        #![trigger models[i], models[j]]
        0 <= i < j < models.len() implies models[i].chunk_idx != models[j].chunk_idx by {
        assert(found[i] != found[j]);
    }
}

/// Two places of one chunk in a rearrangement of results for distinct chunks are one.
proof fn lemma_same_in_both(models: Seq<ResultModel>, all: Seq<ResultModel>, i: int, j: int)
    requires
        models.to_multiset() == all.to_multiset(),
        distinct_chunks(models),
        0 <= i < all.len(),
        0 <= j < all.len(),
        all[i].chunk_idx == all[j].chunk_idx,
    ensures
        i == j,
{
    models.to_multiset_ensures();
    all.to_multiset_ensures();
    let a = all[i];
    let b = all[j];
    assert(all.contains(a) && all.contains(b));
    assert(models.to_multiset().count(a) > 0 && models.to_multiset().count(b) > 0);
    assert(models.contains(a) && models.contains(b));
    let k = choose|k: int| 0 <= k < models.len() && models[k] == a;
    let m = choose|m: int| 0 <= m < models.len() && models[m] == b;
    if k < m {
        assert(models[k].chunk_idx != models[m].chunk_idx);
    } else if m < k {
        assert(models[m].chunk_idx != models[k].chunk_idx);
    }
    assert(a == b);
    assert(models.no_duplicates()) by {
        assert forall|x: int, y: int|
            0 <= x < models.len() && 0 <= y < models.len() && x != y implies models[x]
            != models[y] by {
            if x < y {
                assert(models[x].chunk_idx != models[y].chunk_idx);
            } else {
                assert(models[y].chunk_idx != models[x].chunk_idx);
            }
        }
    }
    models.lemma_multiset_has_no_duplicates();
    assert(all.to_multiset().count(a) == 1);
    if i != j {
        let (x, y) = if i < j {
            (i, j)
        } else {
            (j, i)
        };
        let front = all.take(y);
        let back = all.skip(y);
        assert(all =~= front + back);
        vstd::seq_lib::lemma_multiset_commutative(front, back);
        front.to_multiset_ensures();
        back.to_multiset_ensures();
        assert(front[x] == a);
        assert(front.contains(a));
        assert(back[0] == a);
        assert(back.contains(a));
        assert(front.to_multiset().count(a) > 0);
        assert(back.to_multiset().count(a) > 0);
    }
}

/// No better chunk is left out: where a chunk that holds a term of the query and has
/// a positive score is not among the results, there are `top_k` of them, and each has
/// a score at least as great.
pub proof fn law_no_better_chunk_left_out(
    index: BM25Index,
    query: Seq<char>,
    top_k: nat,
    scores: Seq<u64>,
    c: int,
)
    requires
        index.consistent(),
        index.doc_count > 0,
        index.chunks@.len() <= usize::MAX,
        scores.len() == index.chunks@.len(),
        0 <= c < index.chunks@.len(),
        shares_term(query, index.models()[c]),
        scores[c] > 0,
        forall|i: int|
            #![trigger search_results(index, query, top_k, scores)[i]]
            0 <= i < search_results(index, query, top_k, scores).len() ==> search_results(
                index,
                query,
                top_k,
                scores,
            )[i].chunk_idx != c,
    ensures
        search_results(index, query, top_k, scores).len() == top_k,
        forall|i: int|
            #![trigger search_results(index, query, top_k, scores)[i]]
            0 <= i < search_results(index, query, top_k, scores).len() ==> search_results(
                index,
                query,
                top_k,
                scores,
            )[i].score >= scores[c],
{
    let hits = query_scores(index, query);
    let found = scored_chunks(hits, scores);
    let models = results_of(index.models(), found, scores);
    let all = ordering::sorted(models, result_order());
    let r = search_results(index, query, top_k, scores);
    lemma_result_order();
    ordering::law_sorted(models, result_order());
    lemma_scored_chunks(hits, scores);
    lemma_hit_is_shared_term(index, query, c as usize);
    assert(found.contains(c as usize));
    let k = choose|k: int| 0 <= k < found.len() && found[k] == c as usize;
    let m = models[k];
    models.to_multiset_ensures();
    all.to_multiset_ensures();
    assert(models.contains(m));
    assert(models.to_multiset().count(m) > 0);
    assert(all.contains(m));
    let p = choose|p: int| 0 <= p < all.len() && all[p] == m;
    if p < r.len() {
        assert(r[p] == m);
        assert(r[p].chunk_idx == c);
    }
    assert forall|i: int| #![trigger r[i]] 0 <= i < r.len() implies r[i].score >= scores[c] by {
        assert(r[i] == all[i]);
        assert(!result_order()(all[p], all[i]));
    }
}

// ---------------------------------------------------------------- laws of the tables
proof fn lemma_repeated_count(n: nat, x: usize, y: usize)
    ensures
        repeated(n, x).to_multiset().count(y) == (if x == y {
            n
        } else {
            0
        }),
    decreases n,
{
    let s = repeated(n, x);
    s.to_multiset_ensures();
    if n > 0 {
        let t = repeated((n - 1) as nat, x);
        lemma_repeated_count((n - 1) as nat, x, y);
        t.to_multiset_ensures();
        assert(s =~= t.push(x));
    } else {
        assert(!s.contains(y));
    }
}

/// A chunk stands in the postings of a term as often as the term stands among the
/// terms of the chunk.
pub proof fn law_posting_counts(c: Seq<ChunkModel>, t: Seq<char>, k: int)
    requires
        c.len() <= usize::MAX,
        0 <= k < c.len(),
    ensures
        postings(c, t).to_multiset().count(k as usize) == chunk_terms(c[k]).to_multiset().count(t),
    decreases c.len(),
{
    let d = c.drop_last();
    let n = occurrences(chunk_terms(c.last()), t);
    let last = (c.len() - 1) as usize;
    let own = repeated(n, last);
    law_occurrences(chunk_terms(c[k]), t);
    lemma_repeated_count(n, last, k as usize);
    vstd::seq_lib::lemma_multiset_commutative(postings(d, t), own);
    if k < d.len() {
        law_posting_counts(d, t, k);
        assert(d[k] == c[k]);
    } else {
        law_postings(d, t);
        let p = postings(d, t);
        p.to_multiset_ensures();
        assert(!p.contains(last)) by {
            if p.contains(last) {
                let i = choose|i: int| 0 <= i < p.len() && p[i] == last;
                assert(p[i] < d.len());
            }
        }
    }
}

/// The chunks that count for a term are those that hold it.
pub proof fn law_doc_freq(c: Seq<ChunkModel>, t: Seq<char>)
    ensures
        doc_freq(c, t) == c.filter(|x: ChunkModel| chunk_terms(x).contains(t)).len(),
    decreases c.len(),
{
    reveal(Seq::filter);
    if c.len() > 0 {
        law_doc_freq(c.drop_last(), t);
        law_occurrences(chunk_terms(c.last()), t);
    }
}

/// What the index keeps of a chunk is all but its tokens, and their number, which is
/// that of the terms of its content and its path.
pub proof fn law_stored(c: ChunkModel)
    ensures
        stored(c).file_path == c.file_path,
        stored(c).symbol_name == c.symbol_name,
        stored(c).kind == c.kind,
        stored(c).start_line == c.start_line,
        stored(c).end_line == c.end_line,
        stored(c).content == c.content,
        stored(c).token_count == tokens::tokens_of(
            chunks::enriched(c.file_path, c.content),
        ).len(),
        chunk_terms(c).len() == stored(c).token_count,
        forall|i: int|
            #![trigger chunk_terms(c)[i]]
            0 <= i < chunk_terms(c).len() ==> chunk_terms(c)[i] == text::lowercase(
                tokens::tokens_of(chunks::enriched(c.file_path, c.content))[i],
            ),
{
}

/// What a term of a query adds to scores: one entry for each time that it stands among
/// the terms of a chunk, with the number of chunks that hold it and the length of the
/// chunk.
pub proof fn law_term_scores(index: BM25Index, t: Seq<char>, c: int)
    requires
        index.consistent(),
        index.chunks@.len() <= usize::MAX,
        0 <= c < index.chunks@.len(),
    ensures
        term_scores(index, t).filter(|s: ScoreTerm| s.chunk_idx == c).len() == chunk_terms(
            index.models()[c],
        ).to_multiset().count(t),
        forall|i: int|
            #![trigger term_scores(index, t)[i]]
            0 <= i < term_scores(index, t).len() ==> {
                let s = term_scores(index, t)[i];
                &&& s.doc_freq == index.models().filter(
                    |x: ChunkModel| chunk_terms(x).contains(t),
                ).len()
                &&& s.chunk_idx < index.chunks@.len()
                &&& s.doc_len == index.models()[s.chunk_idx as int].token_count
            },
{
    let models = index.models();
    let p = postings(models, t);
    law_postings(models, t);
    law_posting_counts(models, t, c);
    law_doc_freq(models, t);
    assert(index.inverted.list(t) == p);
    assert(index.doc_freqs@.contains_key(t) <==> doc_freq(models, t) > 0);
    let s = term_scores(index, t);
    assert(s.len() == p.len());
    assert forall|i: int| #![trigger s[i]] 0 <= i < s.len() implies {
        &&& s[i].chunk_idx == p[i]
        &&& s[i].chunk_idx < index.chunks@.len()
        &&& s[i].doc_len == models[s[i].chunk_idx as int].token_count
    } by {
        assert(p[i] < models.len());
    }
    lemma_filtered_count(s, p, c as usize);
}

proof fn lemma_filtered_count(s: Seq<ScoreTerm>, p: Seq<usize>, c: usize)
    requires
        s.len() == p.len(),
        forall|i: int| #![trigger s[i]] 0 <= i < s.len() ==> s[i].chunk_idx == p[i],
    ensures
        s.filter(|x: ScoreTerm| x.chunk_idx == c as int).len() == p.to_multiset().count(c),
    decreases s.len(),
{
    reveal(Seq::filter);
    p.to_multiset_ensures();
    if s.len() > 0 {
        let q = p.drop_last();
        assert forall|i: int| #![trigger s.drop_last()[i]] 0 <= i < s.drop_last().len() implies
            s.drop_last()[i].chunk_idx == q[i] by {
            assert(s.drop_last()[i] == s[i]);
        }
        lemma_filtered_count(s.drop_last(), q, c);
        q.to_multiset_ensures();
        assert(p =~= q.push(p.last()));
        assert(s[s.len() - 1].chunk_idx == p[p.len() - 1]);
    } else {
        assert(!p.contains(c));
    }
}

/// What a query adds to scores is what each of its terms adds, one after the other.
pub proof fn law_query_scores(index: BM25Index, query: Seq<char>, terms: Seq<Seq<char>>, t: Seq<char>)
    ensures
        index.doc_count > 0 ==> query_scores(index, query) == all_scores(index, terms_of(query)),
        index.doc_count == 0 ==> query_scores(index, query).len() == 0,
        all_scores(index, Seq::<Seq<char>>::empty()).len() == 0,
        all_scores(index, terms.push(t)) == all_scores(index, terms) + term_scores(index, t),
        terms_of(query).len() == tokens::tokens_of(query).len(),
        forall|i: int|
            #![trigger terms_of(query)[i]]
            0 <= i < terms_of(query).len() ==> terms_of(query)[i] == text::lowercase(
                tokens::tokens_of(query)[i],
            ),
{
    assert(terms.push(t).drop_last() =~= terms);
}

/// A result is shown with its number, score, place, kind and name; the long form shows
/// its snippet too. One more result is shown behind the others.
pub proof fn law_shown_results(
    results: Seq<ResultModel>,
    r: ResultModel,
    scores: Seq<Seq<char>>,
    compact: bool,
)
    requires
        scores.len() == results.len() + 1,
    ensures
        ({
            let number = text::decimal(results.len() + 1);
            let kind = match r.kind {
                ChunkKind::Function => "Function"@,
                ChunkKind::Struct => "Struct"@,
                ChunkKind::Impl => "Impl"@,
                ChunkKind::Module => "Module"@,
                ChunkKind::Class => "Class"@,
                ChunkKind::Method => "Method"@,
                ChunkKind::Other => "Other"@,
            };
            let place = text::decimal(r.start_line as nat) + "-"@ + text::decimal(r.end_line as nat);
            shown_results(results.push(r), scores, compact) == shown_results(
                results,
                scores,
                compact,
            ) + (if compact {
                number + ". "@ + scores.last() + " "@ + r.file_path + ":"@ + place + " "@ + kind
                    + " "@ + r.symbol_name + "\n"@
            } else {
                "\n--- Result "@ + number + " (score: "@ + scores.last() + ") ---\n"@ + r.file_path
                    + " :: "@ + r.symbol_name + " ["@ + kind + "] (L"@ + place + ")\n"@ + r.snippet
                    + "\n"@
            })
        }),
        shown_results(Seq::<ResultModel>::empty(), scores, compact).len() == 0,
{
    let all = results.push(r);
    assert(all.drop_last() =~= results);
    let i = results.len() as int;
    let place = text::decimal(r.start_line as nat) + "-"@ + text::decimal(r.end_line as nat);
    let number = text::decimal(results.len() + 1);
    if compact {
        assert(result_lines(i, r, scores[i], compact) =~= number + ". "@ + scores.last() + " "@
            + r.file_path + ":"@ + place + " "@ + kind_name(r.kind) + " "@ + r.symbol_name
            + "\n"@);
    } else {
        assert(result_lines(i, r, scores[i], compact) =~= "\n--- Result "@ + number + " (score: "@
            + scores.last() + ") ---\n"@ + r.file_path + " :: "@ + r.symbol_name + " ["@
            + kind_name(r.kind) + "] (L"@ + place + ")\n"@ + r.snippet + "\n"@);
    }
}

/// A sum grows by the number that is added to the list, and the tokens of chunks are
/// summed one chunk after the other.
pub proof fn law_sums(s: Seq<nat>, n: nat, c: Seq<ChunkModel>, x: ChunkModel)
    requires
        x.token_count >= 0,
    ensures
        sum(Seq::<nat>::empty()) == 0,
        sum(s.push(n)) == sum(s) + n,
        sum(token_counts(c.push(x))) == sum(token_counts(c)) + x.token_count,
        sum(token_counts(Seq::<ChunkModel>::empty())) == 0,
{
    assert(s.push(n).drop_last() =~= s);
    assert(token_counts(c.push(x)).drop_last() =~= token_counts(c));
}

/// About how many bytes an index takes: those of the texts of its chunks and keys, 64
/// more for each chunk, 16 for each posting and 32 for each term, 24 for each file and
/// 16 for each term that is counted.
pub proof fn law_memory_usage(
    c: Seq<ChunkModel>,
    x: ChunkModel,
    keys: Seq<Seq<char>>,
    k: Seq<char>,
    extra: nat,
)
    ensures
        sum(chunk_sizes(c.push(x))) == sum(chunk_sizes(c)) + text::byte_len(x.content)
            + text::byte_len(x.file_path) + text::byte_len(x.symbol_name) + sum(
            text_sizes(x.tokens),
        ) + 64,
        sum(text_sizes(keys.push(k))) == sum(text_sizes(keys)) + text::byte_len(k),
        sum(key_sizes(keys.push(k), extra)) == sum(key_sizes(keys, extra)) + text::byte_len(k)
            + extra,
        forall|t: StringTable<Vec<usize>>, i: int|
            #![trigger posting_sizes(t)[i]]
            0 <= i < t.order().len() ==> posting_sizes(t)[i] == text::byte_len(t.order()[i])
                + t.list(t.order()[i]).len() * 16 + 32,
        forall|t: StringTable<Vec<usize>>| #[trigger] posting_sizes(t).len() == t.order().len(),
        forall|index: BM25Index| #[trigger]
            index.memory_usage() == sum(chunk_sizes(index.models())) + sum(
                posting_sizes(index.inverted),
            ) + sum(key_sizes(index.files.order(), 24)) + sum(
                key_sizes(index.doc_freqs.order(), 16),
            ),
{
    assert(chunk_sizes(c.push(x)).drop_last() =~= chunk_sizes(c));
    assert(text_sizes(keys.push(k)).drop_last() =~= text_sizes(keys));
    assert(key_sizes(keys.push(k), extra).drop_last() =~= key_sizes(keys, extra));
}

/// The first of a list: all of it where it is no longer than asked for, else as many as
/// asked for, from the front.
pub proof fn law_first_of<M>(s: Seq<M>, n: nat, i: int)
    ensures
        s.len() <= n ==> first_of(s, n) == s,
        s.len() > n ==> first_of(s, n).len() == n,
        0 <= i < first_of(s, n).len() ==> first_of(s, n)[i] == s[i],
{
    assert(s.take(s.len() as int) =~= s);
}

/// A blank index has no chunks, no terms and no files, and counts nothing; a search of it
/// finds nothing.
pub proof fn law_blank_index(
    index: BM25Index,
    t: Seq<char>,
    query: Seq<char>,
    top_k: nat,
    scores: Seq<u64>,
)
    requires
        index.is_blank(),
    ensures
        index.chunks@.len() == 0,
        index.inverted.list(t).len() == 0,
        freq_in(index, t) == 0,
        !index.files@.contains_key(t),
        index.doc_count == 0,
        index.total_len == 0,
        search_results(index, query, top_k, scores).len() == 0,
{
    law_nothing_to_search(index, query, top_k, scores);
}

/// The tables of an index whose chunks are those of a list agree with them: a chunk is
/// found under a term exactly where the term is one of its own.
pub proof fn law_consistent_tables(index: BM25Index, t: Seq<char>, c: int)
    requires
        index.consistent(),
        index.chunks@.len() <= usize::MAX,
        0 <= c < index.chunks@.len(),
    ensures
        index.inverted.list(t).contains(c as usize) <==> chunk_terms(index.models()[c]).contains(t),
        index.inverted.list(t).to_multiset().count(c as usize) == chunk_terms(
            index.models()[c],
        ).to_multiset().count(t),
        freq_in(index, t) == index.models().filter(
            |x: ChunkModel| chunk_terms(x).contains(t),
        ).len(),
{
    let models = index.models();
    assert(index.inverted.list(t) == postings(models, t));
    assert(index.doc_freqs@.contains_key(t) <==> doc_freq(models, t) > 0);
    law_posting_counts(models, t, c);
    law_doc_freq(models, t);
    postings(models, t).to_multiset_ensures();
    chunk_terms(models[c]).to_multiset_ensures();
}

} // verus!
