//! Which files are indexed, how an index is built from them, and when it is
//! stale.
use vstd::prelude::*;

use crate::bm25_index;
use crate::bm25_index::{BM25Index, IndexedFileState};
use crate::chunks;
use crate::chunks::{ChunkModel, CodeChunk, ContentCut};
use crate::ordering;
use crate::ordering::Ordered;
use crate::paths;
use crate::string_table::StringTable;
use crate::text;

verus! {

/// How many files are indexed at most.
pub const MAX_BM25_FILES: usize = 5000;

/// How large an indexed file is at most.
pub const MAX_FILE_SIZE_BYTES: u64 = 2097152;

/// After how many files the memory is looked at again.
pub const PRESSURE_INTERVAL: usize = 500;

// ---------------------------------------------------------------- code files
/// The extensions of code files.
pub open spec fn code_extensions() -> Seq<Seq<char>> {
    seq![
        "rs"@,
        "ts"@,
        "tsx"@,
        "js"@,
        "jsx"@,
        "py"@,
        "go"@,
        "java"@,
        "c"@,
        "cc"@,
        "cpp"@,
        "h"@,
        "hpp"@,
        "rb"@,
        "cs"@,
        "kt"@,
        "swift"@,
        "php"@,
        "scala"@,
        "sql"@,
        "ex"@,
        "exs"@,
        "zig"@,
        "lua"@,
        "dart"@,
        "vue"@,
        "svelte"@,
    ]
}

/// Whether a path has the extension of a code file, in any case.
pub open spec fn is_code(path: Seq<char>) -> bool {
    code_extensions().contains(text::lowercase(chunks::or_empty(paths::extension(path))))
}

fn code_extension_list() -> (r: Vec<&'static str>)
    ensures
        text::views(r@) == code_extensions(),
{
    let list: Vec<&'static str> = vec![
        "rs",
        "ts",
        "tsx",
        "js",
        "jsx",
        "py",
        "go",
        "java",
        "c",
        "cc",
        "cpp",
        "h",
        "hpp",
        "rb",
        "cs",
        "kt",
        "swift",
        "php",
        "scala",
        "sql",
        "ex",
        "exs",
        "zig",
        "lua",
        "dart",
        "vue",
        "svelte",
    ];
    proof {
        assert(text::views(list@) =~= code_extensions());
    }
    list
}

/// Whether a path has the extension of a code file.
pub fn is_code_file(path: &str) -> (r: bool)
    ensures
        r == is_code(path@),
{
    let chars = text::chars_of(path);
    let extension = match paths::extension_of(chars.as_slice()) {
        Some(e) => text::text_of(e),
        None => String::new(),
    };
    let lower = extension.as_str().to_lowercase();
    text::listed(code_extension_list().as_slice(), lower.as_str())
}

// ---------------------------------------------------------------- ignored files
#[verifier::external_type_specification]
#[verifier::external_body]
pub struct ExGlobPattern(glob::Pattern);

/// The text that a pattern was made of.
pub uninterp spec fn pattern_source(p: glob::Pattern) -> Seq<char>;

/// Whether a text is a glob pattern.
pub uninterp spec fn glob_valid(pattern: Seq<char>) -> bool;

/// Whether a path matches a glob pattern.
pub uninterp spec fn glob_match(pattern: Seq<char>, path: Seq<char>) -> bool;

/// `glob::Pattern::new`: whether the text is a pattern is a function of the
/// text, and the pattern is that of the text.
#[verifier::external_body]
fn new_pattern(source: &str) -> (r: Option<glob::Pattern>)
    ensures
        match r {
            Some(p) => glob_valid(source@) && pattern_source(p) == source@,
            None => !glob_valid(source@),
        },
{
    glob::Pattern::new(source).ok()
}

/// `glob::Pattern::matches`: a function of the text of the pattern and the path,
/// with the separators of the platform.
#[verifier::external_body]
fn pattern_matches(p: &glob::Pattern, path: &str) -> (r: bool)
    ensures
        r == glob_match(pattern_source(*p), path@),
{
    p.matches(path)
}

/// The patterns of files that are never indexed.
pub open spec fn default_ignores() -> Seq<Seq<char>> {
    seq![
        "vendor/**"@,
        "dist/**"@,
        "build/**"@,
        "public/vendor/**"@,
        "public/js/**"@,
        "public/css/**"@,
        "public/build/**"@,
        ".next/**"@,
        ".nuxt/**"@,
        "__pycache__/**"@,
        "*.min.js"@,
        "*.min.css"@,
        "*.bundle.js"@,
        "*.chunk.js"@,
    ]
}

/// Whether a path matches one of the patterns; texts that are none do not count.
pub open spec fn is_ignored(path: Seq<char>, patterns: Seq<Seq<char>>) -> bool {
    exists|i: int|
        0 <= i < patterns.len() && glob_valid(#[trigger] patterns[i]) && glob_match(
            patterns[i],
            path,
        )
}

/// The texts among `patterns` that are patterns.
pub open spec fn valid_patterns(patterns: Seq<Seq<char>>) -> Seq<Seq<char>>
    decreases patterns.len(),
{
    if patterns.len() == 0 {
        seq![]
    } else {
        let before = valid_patterns(patterns.drop_last());
        if glob_valid(patterns.last()) {
            before.push(patterns.last())
        } else {
            before
        }
    }
}

proof fn lemma_valid_patterns(patterns: Seq<Seq<char>>)
    ensures
        forall|p: Seq<char>| #[trigger]
            valid_patterns(patterns).contains(p) <==> patterns.contains(p) && glob_valid(p),
    decreases patterns.len(),
{
    if patterns.len() > 0 {
        let rest = patterns.drop_last();
        lemma_valid_patterns(rest);
        let before = valid_patterns(rest);
        let all = valid_patterns(patterns);
        let last = patterns.last();
        assert forall|p: Seq<char>| #[trigger]
            all.contains(p) <==> patterns.contains(p) && glob_valid(p) by {
            if all.contains(p) {
                let i = choose|i: int| 0 <= i < all.len() && all[i] == p;
                if i < before.len() {
                    assert(before[i] == p);
                    assert(before.contains(p));
                    let k = choose|k: int| 0 <= k < rest.len() && rest[k] == p;
                    assert(patterns[k] == p);
                } else {
                    assert(patterns[patterns.len() - 1] == p);
                }
            }
            if patterns.contains(p) && glob_valid(p) {
                let k = choose|k: int| 0 <= k < patterns.len() && patterns[k] == p;
                if k < rest.len() {
                    assert(rest[k] == p);
                    assert(rest.contains(p));
                    assert(before.contains(p));
                    let i = choose|i: int| 0 <= i < before.len() && before[i] == p;
                    assert(all[i] == p);
                } else {
                    assert(all[all.len() - 1] == p);
                }
            }
        }
    }
}

pub open spec fn sources(p: Seq<glob::Pattern>) -> Seq<Seq<char>> {
    Seq::new(p.len(), |i: int| pattern_source(p[i]))
}

fn add_pattern(out: &mut Vec<glob::Pattern>, source: &str)
    ensures
        sources(final(out)@) == (if glob_valid(source@) {
            sources(old(out)@).push(source@)
        } else {
            sources(old(out)@)
        }),
{
    match new_pattern(source) {
        Some(p) => {
            let ghost before = out@;
            out.push(p);
            proof {
                assert(sources(out@) =~= sources(before).push(source@));
            }
        },
        None => {},
    }
}

fn ignore_patterns(extra: &[String]) -> (r: Vec<glob::Pattern>)
    ensures
        sources(r@) == valid_patterns(default_ignores() + text::views(extra@)),
{
    let defaults: Vec<&'static str> = vec![
        "vendor/**",
        "dist/**",
        "build/**",
        "public/vendor/**",
        "public/js/**",
        "public/css/**",
        "public/build/**",
        ".next/**",
        ".nuxt/**",
        "__pycache__/**",
        "*.min.js",
        "*.min.css",
        "*.bundle.js",
        "*.chunk.js",
    ];
    let ghost all = default_ignores() + text::views(extra@);
    let ghost first = default_ignores();
    let mut out: Vec<glob::Pattern> = Vec::new();
    let mut i: usize = 0;
    proof {
        assert(text::views(defaults@) =~= first);
        assert(sources(out@) =~= valid_patterns(all.take(0)));
    }
    while i < defaults.len()
        invariant
            i <= defaults@.len(),
            first == default_ignores(),
            text::views(defaults@) == first,
            all == first + text::views(extra@),
            sources(out@) == valid_patterns(all.take(i as int)),
        decreases defaults@.len() - i,
    {
        proof {
            assert(all.take(i + 1).drop_last() =~= all.take(i as int));
            assert(text::views(defaults@)[i as int] == defaults@[i as int]@);
            assert(all.take(i + 1).last() == defaults@[i as int]@);
        }
        add_pattern(&mut out, defaults[i]);
        i += 1;
    }
    let mut j: usize = 0;
    while j < extra.len()
        invariant
            j <= extra@.len(),
            first == default_ignores(),
            all == first + text::views(extra@),
            sources(out@) == valid_patterns(all.take(first.len() + j)),
        decreases extra@.len() - j,
    {
        proof {
            let n = first.len() + j;
            assert(all.take(n + 1).drop_last() =~= all.take(n));
            assert(all.take(n + 1).last() == extra@[j as int]@);
        }
        add_pattern(&mut out, extra[j].as_str());
        j += 1;
    }
    proof {
        assert(all.take(first.len() + j) =~= all);
    }
    out
}

fn any_matches(list: &Vec<glob::Pattern>, path: &str) -> (r: bool)
    ensures
        r == exists|i: int|
            0 <= i < list@.len() && glob_match(#[trigger] sources(list@)[i], path@),
{
    let ghost all = sources(list@);
    let mut i: usize = 0;
    while i < list.len()
        invariant
            i <= list@.len(),
            all == sources(list@),
            forall|j: int| 0 <= j < i ==> !glob_match(#[trigger] all[j], path@),
        decreases list@.len() - i,
    {
        proof {
            assert(all[i as int] == pattern_source(list@[i as int]));
        }
        if pattern_matches(&list[i], path) {
            return true;
        }
        i += 1;
    }
    false
}

// ---------------------------------------------------------------- listing
/// What a walk over a directory came to: a path below it, and whether that is a
/// file.
pub struct WalkEntry {
    pub rel: String,
    pub is_file: bool,
}

/// Whether a file is indexed.
pub open spec fn is_indexed(rel: Seq<char>, patterns: Seq<Seq<char>>) -> bool {
    is_code(rel) && rel.len() > 0 && !is_ignored(rel, patterns)
}

/// The files among the entries that are indexed.
pub open spec fn indexed_files(entries: Seq<WalkEntry>, patterns: Seq<Seq<char>>) -> Seq<Seq<char>>
    decreases entries.len(),
{
    if entries.len() == 0 {
        seq![]
    } else {
        let before = indexed_files(entries.drop_last(), patterns);
        let e = entries.last();
        if e.is_file && is_indexed(e.rel@, patterns) {
            before.push(e.rel@)
        } else {
            before
        }
    }
}

/// The indexed files of a walk: the first of them up to the limit, in order and
/// each once.
pub open spec fn code_files(entries: Seq<WalkEntry>, extra: Seq<Seq<char>>) -> Seq<Seq<char>> {
    ordering::deduplicated(
        ordering::sorted(
            bm25_index::first_of(
                indexed_files(entries, default_ignores() + extra),
                MAX_BM25_FILES as nat,
            ),
            ordering::text_order(),
        ),
    )
}

proof fn lemma_indexed_files(entries: Seq<WalkEntry>, patterns: Seq<Seq<char>>)
    ensures
        forall|i: int|
            0 <= i < indexed_files(entries, patterns).len() ==> is_indexed(
                #[trigger] indexed_files(entries, patterns)[i],
                patterns,
            ),
    decreases entries.len(),
{
    if entries.len() > 0 {
        let before = indexed_files(entries.drop_last(), patterns);
        lemma_indexed_files(entries.drop_last(), patterns);
        let all = indexed_files(entries, patterns);
        assert forall|i: int| 0 <= i < all.len() implies is_indexed(#[trigger] all[i], patterns) by {
            if i < before.len() {
                assert(all[i] == before[i]);
            }
        }
    }
}

/// The listed files go strictly up, are no more than the limit, and each is a
/// code file that no pattern ignores.
pub proof fn law_code_files(entries: Seq<WalkEntry>, extra: Seq<Seq<char>>)
    ensures
        ordering::is_ascending(code_files(entries, extra)),
        code_files(entries, extra).len() <= MAX_BM25_FILES,
        forall|i: int|
            0 <= i < code_files(entries, extra).len() ==> is_indexed(
                #[trigger] code_files(entries, extra)[i],
                default_ignores() + extra,
            ),
{
    let patterns = default_ignores() + extra;
    let all = indexed_files(entries, patterns);
    let some = bm25_index::first_of(all, MAX_BM25_FILES as nat);
    let s = ordering::sorted(some, ordering::text_order());
    let r = code_files(entries, extra);
    lemma_indexed_files(entries, patterns);
    ordering::lemma_text_order_is_order();
    ordering::law_sorted(some, ordering::text_order());
    ordering::lemma_deduplicated(s);
    assert forall|i: int| 0 <= i < r.len() implies is_indexed(#[trigger] r[i], patterns) by {
        assert(r.contains(r[i]));
        assert(s.contains(r[i]));
        some.to_multiset_ensures();
        s.to_multiset_ensures();
        assert(s.to_multiset().count(r[i]) > 0);
        assert(some.contains(r[i]));
        let k = choose|k: int| 0 <= k < some.len() && some[k] == r[i];
        assert(all[k] == r[i]);
    }
}

/// The indexed files of a walk.
pub fn list_code_files(entries: &[WalkEntry], extra_ignores: &[String]) -> (r: Vec<String>)
    ensures
        text::views(r@) == code_files(entries@, text::views(extra_ignores@)),
{
    let patterns = ignore_patterns(extra_ignores);
    let ghost texts = default_ignores() + text::views(extra_ignores@);
    let ghost compiled = sources(patterns@);
    let ghost all = indexed_files(entries@, texts);
    let ghost cap = MAX_BM25_FILES as nat;
    let mut files: Vec<String> = Vec::new();
    let mut i: usize = 0;
    proof {
        lemma_valid_patterns(texts);
        assert(entries@.take(0) =~= Seq::<WalkEntry>::empty());
        assert(text::views(files@) =~= bm25_index::first_of(
            indexed_files(entries@.take(0), texts),
            cap,
        ));
    }
    while i < entries.len()
        invariant
            i <= entries@.len(),
            cap == MAX_BM25_FILES,
            compiled == sources(patterns@),
            compiled == valid_patterns(texts),
            forall|p: Seq<char>| #[trigger]
                valid_patterns(texts).contains(p) <==> texts.contains(p) && glob_valid(p),
            text::views(files@) == bm25_index::first_of(
                indexed_files(entries@.take(i as int), texts),
                cap,
            ),
        decreases entries@.len() - i,
    {
        let entry = &entries[i];
        let ghost before = indexed_files(entries@.take(i as int), texts);
        proof {
            assert(entries@.take(i + 1).drop_last() =~= entries@.take(i as int));
            assert(entries@.take(i + 1).last() == *entry);
        }
        if entry.is_file && files.len() < MAX_BM25_FILES && is_code_file(entry.rel.as_str())
            && !entry.rel.as_str().is_empty() {
            let ignored = any_matches(&patterns, entry.rel.as_str());
            proof {
                let path = entry.rel@;
                if ignored {
                    let k = choose|k: int|
                        0 <= k < patterns@.len() && glob_match(#[trigger] compiled[k], path);
                    assert(compiled.contains(compiled[k]));
                    let m = choose|m: int| 0 <= m < texts.len() && texts[m] == compiled[k];
                    assert(glob_valid(texts[m]) && glob_match(texts[m], path));
                    assert(is_ignored(path, texts));
                } else if is_ignored(path, texts) {
                    let m = choose|m: int|
                        0 <= m < texts.len() && glob_valid(#[trigger] texts[m]) && glob_match(
                            texts[m],
                            path,
                        );
                    assert(texts.contains(texts[m]));
                    assert(compiled.contains(texts[m]));
                    let k = choose|k: int| 0 <= k < compiled.len() && compiled[k] == texts[m];
                    assert(glob_match(sources(patterns@)[k], path));
                }
                assert(ignored == is_ignored(path, texts));
            }
            if !ignored {
                let rel = entry.rel.clone();
                proof {
                    text::lemma_views_push(files@, rel);
                    assert(text::views(files@).len() < cap);
                    assert(bm25_index::first_of(before, cap) =~= before);
                    assert(bm25_index::first_of(before.push(rel@), cap) =~= before.push(rel@));
                }
                files.push(rel);
            }
        }
        proof {
            let after = indexed_files(entries@.take(i + 1), texts);
            assert(text::views(files@).len() == files@.len());
            if after.len() > cap {
                assert(bm25_index::first_of(after, cap) =~= bm25_index::first_of(before, cap));
            }
        }
        i += 1;
    }
    proof {
        assert(entries@.take(i as int) =~= entries@);
    }
    let sorted = ordering::sort(files);
    ordering::dedup(sorted)
}

// ---------------------------------------------------------------- file states
/// The state of a file with this size and this time of modification, in
/// milliseconds since 1970; nothing where one of them is not known.
pub open spec fn state_of(size_bytes: Option<u64>, mtime_ms: Option<u128>) -> Option<
    IndexedFileState,
> {
    match (size_bytes, mtime_ms) {
        (Some(size), Some(time)) => Some(
            IndexedFileState { mtime_ms: time as u64, size_bytes: size },
        ),
        _ => None,
    }
}

impl IndexedFileState {
    /// The state of a file, from what its metadata gives.
    pub fn from_path(size_bytes: Option<u64>, mtime_ms: Option<u128>) -> (r: Option<
        IndexedFileState,
    >)
        ensures
            r == state_of(size_bytes, mtime_ms),
    {
        match size_bytes {
            Some(size) => match mtime_ms {
                Some(time) => Some(
                    IndexedFileState { mtime_ms: #[verifier::truncate] (time as u64), size_bytes: size },
                ),
                None => None,
            },
            None => None,
        }
    }
}

// ---------------------------------------------------------------- scanned files
/// What a scan met at a file: whether memory was short or an abort was asked for
/// when the file was reached, the state of the file, its text where it was read,
/// and the pieces of the text.
pub struct ScannedFile {
    pub rel: String,
    pub under_pressure: bool,
    pub abort_requested: bool,
    pub state: Option<IndexedFileState>,
    pub content: Option<String>,
    pub cuts: Vec<ContentCut>,
}

/// Whether the pieces of the files' texts lie within the texts.
pub open spec fn scans_valid(files: Seq<ScannedFile>) -> bool {
    forall|i: int|
        #![trigger files[i]]
        0 <= i < files.len() ==> (files[i].content is Some ==> chunks::cuts_within(
            files[i].content->0@,
            files[i].cuts@,
        ))
}

/// The chunks of a file that was read, in order.
pub open spec fn fresh_chunks(f: ScannedFile) -> Option<Seq<ChunkModel>> {
    match (f.state, f.content) {
        (Some(state), Some(content)) => if state.size_bytes > MAX_FILE_SIZE_BYTES {
            None
        } else {
            Some(
                ordering::sorted(
                    chunks::chunks_of(f.rel@, content@, f.cuts@),
                    chunks::chunk_order(),
                ),
            )
        },
        _ => None,
    }
}

/// The places of the chunks of a file.
pub open spec fn places(c: Seq<ChunkModel>, path: Seq<char>) -> Seq<usize>
    decreases c.len(),
{
    if c.len() == 0 {
        seq![]
    } else {
        let before = places(c.drop_last(), path);
        if c.last().file_path == path {
            before.push((c.len() - 1) as usize)
        } else {
            before
        }
    }
}

/// The chunks of a file.
pub open spec fn chunks_in(c: Seq<ChunkModel>, path: Seq<char>) -> Seq<ChunkModel> {
    Seq::new(places(c, path).len(), |i: int| c[places(c, path)[i] as int])
}

/// The chunks that an earlier index holds of a file in the same state, in order;
/// nothing where the first of them has no text.
pub open spec fn reused_chunks(
    prev: BM25Index,
    rel: Seq<char>,
    state: IndexedFileState,
) -> Option<Seq<ChunkModel>> {
    let c = ordering::sorted(chunks_in(prev.models(), rel), chunks::chunk_order());
    if prev.files@.contains_key(rel) && prev.files@[rel] == state && c.len() > 0
        && c[0].content.len() > 0 {
        Some(c)
    } else {
        None
    }
}

/// The chunks of a file: those of an earlier index where they can be reused, else
/// those of its text.
pub open spec fn file_chunks(f: ScannedFile, prev: Option<BM25Index>) -> Option<Seq<ChunkModel>> {
    match (f.state, prev) {
        (Some(state), Some(p)) => match reused_chunks(p, f.rel@, state) {
            Some(c) => Some(c),
            None => fresh_chunks(f),
        },
        _ => fresh_chunks(f),
    }
}

/// The chunks of the files, as the index keeps them.
pub open spec fn gathered(files: Seq<ScannedFile>, prev: Option<BM25Index>) -> Seq<ChunkModel>
    decreases files.len(),
{
    if files.len() == 0 {
        seq![]
    } else {
        let before = gathered(files.drop_last(), prev);
        match file_chunks(files.last(), prev) {
            Some(c) => before + bm25_index::all_stored(c),
            None => before,
        }
    }
}

/// The states of the files that are indexed.
pub open spec fn gathered_states(files: Seq<ScannedFile>, prev: Option<BM25Index>) -> Map<
    Seq<char>,
    IndexedFileState,
>
    decreases files.len(),
{
    if files.len() == 0 {
        Map::empty()
    } else {
        let before = gathered_states(files.drop_last(), prev);
        let f = files.last();
        match (file_chunks(f, prev), f.state) {
            (Some(_), Some(state)) => before.insert(f.rel@, state),
            _ => before,
        }
    }
}

/// Whether a scan stops at the `i`th file: memory is looked at now and then, and
/// an abort is heeded at once where it is heeded at all.
pub open spec fn stops(f: ScannedFile, i: int, heeds_abort: bool) -> bool {
    (i % PRESSURE_INTERVAL as int == 0 && f.under_pressure) || (heeds_abort && f.abort_requested)
}

/// Whether a scan stops at the `i`th file.
pub fn stops_scan(i: usize, file: &ScannedFile, heeds_abort: bool) -> (r: bool)
    ensures
        r == stops(*file, i as int, heeds_abort),
{
    (i % PRESSURE_INTERVAL == 0 && file.under_pressure) || (heeds_abort && file.abort_requested)
}

/// At which file a scan stops, from the `i`th on.
pub open spec fn stop_at(files: Seq<ScannedFile>, i: int, heeds_abort: bool) -> int
    decreases files.len() - i,
{
    if i >= files.len() || stops(files[i], i, heeds_abort) {
        i
    } else {
        stop_at(files, i + 1, heeds_abort)
    }
}

/// The files that a scan gets to.
pub open spec fn reached(files: Seq<ScannedFile>, heeds_abort: bool) -> Seq<ScannedFile> {
    files.take(stop_at(files, 0, heeds_abort))
}

/// Whether an index is that of the files.
pub open spec fn is_index_of(
    index: BM25Index,
    files: Seq<ScannedFile>,
    prev: Option<BM25Index>,
) -> bool {
    &&& index.consistent()
    &&& index.models() == gathered(files, prev)
    &&& index.files@ == gathered_states(files, prev)
    &&& index.doc_count == index.chunks@.len()
    &&& index.total_len == bm25_index::sum(bm25_index::token_counts(index.models()))
}

/// An unchanged file whose chunks can be reused is not looked into: what was read
/// of it makes no difference.
pub proof fn law_unchanged_file_is_reused(f: ScannedFile, g: ScannedFile, prev: BM25Index)
    requires
        f.rel@ == g.rel@,
        f.state == g.state,
        f.state is Some,
        reused_chunks(prev, f.rel@, f.state->0) is Some,
    ensures
        file_chunks(f, Some(prev)) == reused_chunks(prev, f.rel@, f.state->0),
        file_chunks(f, Some(prev)) == file_chunks(g, Some(prev)),
{
}

/// The places of a file's chunks are those where its path stands.
pub proof fn lemma_places(c: Seq<ChunkModel>, path: Seq<char>)
    requires
        c.len() <= usize::MAX,
    ensures
        forall|i: int|
            #![trigger places(c, path)[i]]
            0 <= i < places(c, path).len() ==> places(c, path)[i] < c.len()
                && c[places(c, path)[i] as int].file_path == path,
    decreases c.len(),
{
    if c.len() > 0 {
        let d = c.drop_last();
        lemma_places(d, path);
        let before = places(d, path);
        let all = places(c, path);
        assert forall|i: int|
            #![trigger all[i]]
            0 <= i < all.len() implies all[i] < c.len() && c[all[i] as int].file_path == path by {
            if i < before.len() {
                assert(all[i] == before[i]);
                assert(d[before[i] as int] == c[before[i] as int]);
            }
        }
    }
}

/// Whether a table lists the chunks of each file.
pub open spec fn groups_files(groups: StringTable<Vec<usize>>, c: Seq<ChunkModel>) -> bool {
    groups.wf() && forall|path: Seq<char>| #[trigger] groups.list(path) == places(c, path)
}

impl BM25Index {
    /// The places of the chunks of each file.
    pub fn chunks_by_file(&self) -> (r: StringTable<Vec<usize>>)
        ensures
            groups_files(r, self.models()),
    {
        let mut groups: StringTable<Vec<usize>> = StringTable::new();
        let ghost all = self.models();
        let mut i: usize = 0;
        proof {
            assert forall|path: Seq<char>| #[trigger] groups.list(path) == places(
                all.take(0),
                path,
            ) by {
                assert(groups.list(path) =~= Seq::<usize>::empty());
            }
        }
        while i < self.chunks.len()
            invariant
                i <= self.chunks@.len(),
                all == self.models(),
                groups_files(groups, all.take(i as int)),
            decreases self.chunks@.len() - i,
        {
            let path = self.chunks[i].file_path.clone();
            let ghost before = groups;
            proof {
                assert(all.take(i + 1).drop_last() =~= all.take(i as int));
                assert(all.take(i + 1).last() == self.chunks@[i as int]@);
            }
            groups.append(path, i);
            proof {
                assert forall|p: Seq<char>| #[trigger] groups.list(p) == places(
                    all.take(i + 1),
                    p,
                ) by {
                    assert(before.list(p) == places(all.take(i as int), p));
                }
            }
            i += 1;
        }
        proof {
            assert(all.take(i as int) =~= all);
        }
        groups
    }

    /// The chunks of a file that can be reused.
    pub fn reusable(
        &self,
        groups: &StringTable<Vec<usize>>,
        rel: &str,
        state: IndexedFileState,
    ) -> (r: Option<Vec<CodeChunk>>)
        requires
            self.tables_wf(),
            groups_files(*groups, self.models()),
        ensures
            match r {
                Some(c) => reused_chunks(*self, rel@, state) == Some(text::views(c@)),
                None => reused_chunks(*self, rel@, state) is None,
            },
    {
        let unchanged = match self.files.get(rel) {
            Some(known) => *known == state,
            None => false,
        };
        if !unchanged {
            return None;
        }
        let mut list: Vec<CodeChunk> = Vec::new();
        let ghost expected = chunks_in(self.models(), rel@);
        let count: usize = self.chunks.len();
        match groups.get(rel) {
            Some(at) => {
                let mut i: usize = 0;
                proof {
                    assert(at@ == groups.list(rel@));
                    assert(text::views(list@) =~= expected.take(0));
                    lemma_places(self.models(), rel@);
                }
                while i < at.len()
                    invariant
                        i <= at@.len(),
                        at@ == places(self.models(), rel@),
                        forall|k: int|
                            #![trigger at@[k]]
                            0 <= k < at@.len() ==> at@[k] < self.chunks@.len(),
                        expected == chunks_in(self.models(), rel@),
                        text::views(list@) == expected.take(i as int),
                    decreases at@.len() - i,
                {
                    let chunk = self.chunks[at[i]].clone();
                    proof {
                        text::lemma_views_push(list@, chunk);
                        assert(expected[i as int] == chunk@);
                        assert(expected.take(i + 1) =~= expected.take(i as int).push(chunk@));
                    }
                    list.push(chunk);
                    i += 1;
                }
                proof {
                    assert(expected.take(i as int) =~= expected);
                }
            },
            None => {
                proof {
                    assert(groups.list(rel@) == places(self.models(), rel@));
                    assert(text::views(list@) =~= expected);
                }
            },
        }
        let sorted = ordering::sort(list);
        proof {
            assert(text::views(sorted@).len() == sorted@.len());
        }
        if sorted.len() > 0 && !sorted[0].content.as_str().is_empty() {
            Some(sorted)
        } else {
            None
        }
    }
}

fn chunks_to_add(
    file: &ScannedFile,
    prev: Option<&BM25Index>,
    groups: &StringTable<Vec<usize>>,
) -> (r: Option<Vec<CodeChunk>>)
    requires
        file.content is Some ==> chunks::cuts_within(file.content->0@, file.cuts@),
        prev is Some ==> prev->0.tables_wf() && groups_files(*groups, prev->0.models()),
    ensures
        match r {
            Some(c) => file_chunks(*file, owned_index(prev)) == Some(text::views(c@)),
            None => file_chunks(*file, owned_index(prev)) is None,
        },
{
    let state = match file.state {
        Some(s) => s,
        None => {
            return None;
        },
    };
    match prev {
        Some(p) => match p.reusable(groups, file.rel.as_str(), state) {
            Some(c) => {
                return Some(c);
            },
            None => {},
        },
        None => {},
    }
    if state.size_bytes > MAX_FILE_SIZE_BYTES {
        return None;
    }
    match &file.content {
        Some(content) => {
            let found = chunks::extract_chunks(
                file.rel.as_str(),
                content.as_str(),
                file.cuts.as_slice(),
            );
            Some(ordering::sort(found))
        },
        None => None,
    }
}

/// An earlier index as a value.
pub open spec fn owned_index(prev: Option<&BM25Index>) -> Option<BM25Index> {
    match prev {
        Some(p) => Some(*p),
        None => None,
    }
}

fn scan(
    files: &[ScannedFile],
    prev: Option<&BM25Index>,
    groups: &StringTable<Vec<usize>>,
    heeds_abort: bool,
) -> (r: BM25Index)
    requires
        scans_valid(files@),
        prev is Some ==> prev->0.tables_wf() && groups_files(*groups, prev->0.models()),
    ensures
        is_index_of(r, reached(files@, heeds_abort), owned_index(prev)),
{
    let ghost before = owned_index(prev);
    let mut index = BM25Index::new();
    let mut i: usize = 0;
    proof {
        assert(index.models() =~= gathered(files@.take(0), before));
    }
    while i < files.len() && !stops_scan(i, &files[i], heeds_abort)
        invariant
            i <= files@.len(),
            scans_valid(files@),
            prev is Some ==> prev->0.tables_wf() && groups_files(*groups, prev->0.models()),
            before == owned_index(prev),
            stop_at(files@, 0, heeds_abort) == stop_at(files@, i as int, heeds_abort),
            index.consistent(),
            index.models() == gathered(files@.take(i as int), before),
            index.files@ == gathered_states(files@.take(i as int), before),
            index.total_len == 0,
        decreases files@.len() - i,
    {
        let file = &files[i];
        proof {
            assert(files@.take(i + 1).drop_last() =~= files@.take(i as int));
            assert(files@.take(i + 1).last() == *file);
        }
        match chunks_to_add(file, prev, groups) {
            Some(c) => {
                index.add_chunks(&c);
                match file.state {
                    Some(state) => {
                        index.files.insert(file.rel.clone(), state);
                    },
                    None => {},
                }
            },
            None => {},
        }
        i += 1;
    }
    proof {
        assert(stop_at(files@, i as int, heeds_abort) == i);
    }
    index.finalize();
    proof {
        if index.chunks@.len() == 0 {
            assert(index.models() =~= Seq::<ChunkModel>::empty());
        }
    }
    index
}

impl BM25Index {
    /// The index of the files of a directory, unless the directory is not safe to
    /// scan.
    pub fn build_from_directory(root_is_safe: bool, files: &[ScannedFile]) -> (r: BM25Index)
        requires
            scans_valid(files@),
        ensures
            if root_is_safe {
                is_index_of(r, reached(files@, true), None)
            } else {
                r.is_blank() && r.consistent()
            },
    {
        if !root_is_safe {
            return BM25Index::new();
        }
        let none: StringTable<Vec<usize>> = StringTable::new();
        scan(files, None, &none, true)
    }

    /// The index of the files of a directory, with the chunks of an earlier index
    /// for the files that are unchanged.
    pub fn rebuild_incremental(files: &[ScannedFile], prev: &BM25Index) -> (r: BM25Index)
        requires
            scans_valid(files@),
            prev.tables_wf(),
        ensures
            is_index_of(r, reached(files@, false), Some(*prev)),
    {
        let groups = prev.chunks_by_file();
        scan(files, Some(prev), &groups, false)
    }
}

// ---------------------------------------------------------------- rebuilding
/// Whether no two files have the same path.
pub open spec fn distinct_files(files: Seq<ScannedFile>) -> bool {
    forall|i: int, j: int|
        #![trigger files[i], files[j]]
        0 <= i < j < files.len() ==> files[i].rel@ != files[j].rel@
}

proof fn lemma_symbol_paths(path: Seq<char>, lines: Seq<Seq<char>>, i: int)
    ensures
        forall|k: int|
            #![trigger chunks::symbol_chunks(path, lines, i)[k]]
            0 <= k < chunks::symbol_chunks(path, lines, i).len() ==> chunks::symbol_chunks(
                path,
                lines,
                i,
            )[k].file_path == path,
    decreases lines.len() - i,
{
    let all = chunks::symbol_chunks(path, lines, i);
    if 0 <= i < lines.len() {
        match chunks::symbol_of(text::trim(lines[i])) {
            Some(symbol) => {
                let end = chunks::block_end(lines, i);
                if !(end < i || end >= lines.len()) {
                    lemma_symbol_paths(path, lines, end + 1);
                    let rest = chunks::symbol_chunks(path, lines, end + 1);
                    assert(all == seq![chunks::block_chunk(path, lines, symbol, i, end)] + rest);
                    assert forall|k: int|
                        #![trigger all[k]]
                        0 <= k < all.len() implies all[k].file_path == path by {
                        if k > 0 {
                            assert(all[k] == rest[k - 1]);
                        }
                    }
                }
            },
            None => {
                lemma_symbol_paths(path, lines, i + 1);
            },
        }
    }
}

/// The chunks of a file bear its path, and are in order.
proof fn lemma_fresh_chunks(f: ScannedFile)
    requires
        fresh_chunks(f) is Some,
    ensures
        ordering::is_sorted(fresh_chunks(f)->0, chunks::chunk_order()),
        forall|k: int|
            #![trigger (fresh_chunks(f)->0)[k]]
            0 <= k < (fresh_chunks(f)->0).len() ==> (fresh_chunks(f)->0)[k].file_path == f.rel@,
{
    let content = f.content->0@;
    let found = chunks::chunks_of(f.rel@, content, f.cuts@);
    let s = fresh_chunks(f)->0;
    CodeChunk::order_laws();
    ordering::law_sorted(found, chunks::chunk_order());
    lemma_symbol_paths(f.rel@, text::lines(content), 0);
    assert forall|k: int| #![trigger s[k]] 0 <= k < s.len() implies s[k].file_path == f.rel@ by {
        found.to_multiset_ensures();
        s.to_multiset_ensures();
        assert(s.contains(s[k]));
        assert(s.to_multiset().count(s[k]) > 0);
        assert(found.contains(s[k]));
    }
}

/// Storing chunks keeps their order, and storing them again changes nothing.
proof fn lemma_all_stored(c: Seq<ChunkModel>)
    requires
        ordering::is_sorted(c, chunks::chunk_order()),
    ensures
        ordering::sorted(bm25_index::all_stored(c), chunks::chunk_order())
            == bm25_index::all_stored(c),
        bm25_index::all_stored(bm25_index::all_stored(c)) == bm25_index::all_stored(c),
{
    let s = bm25_index::all_stored(c);
    CodeChunk::order_laws();
    assert forall|i: int, j: int|
        #![trigger s[i], s[j]]
        0 <= i < j < s.len() implies !chunks::chunk_order()(s[j], s[i]) by {
        assert(!chunks::chunk_order()(c[j], c[i]));
    }
    ordering::law_sorting_is_stable(s, chunks::chunk_order());
    assert forall|i: int| 0 <= i < s.len() implies bm25_index::stored(s[i]) == #[trigger] s[i] by {
        assert(bm25_index::chunk_terms(s[i]) == bm25_index::chunk_terms(c[i]));
    }
    assert(bm25_index::all_stored(s) =~= s);
}

proof fn lemma_chunks_in_push(c: Seq<ChunkModel>, x: ChunkModel, path: Seq<char>)
    requires
        c.len() < usize::MAX,
    ensures
        chunks_in(c.push(x), path) == (if x.file_path == path {
            chunks_in(c, path).push(x)
        } else {
            chunks_in(c, path)
        }),
{
    let d = c.push(x);
    assert(d.drop_last() =~= c);
    lemma_places(c, path);
    let before = places(c, path);
    assert forall|i: int| #![trigger before[i]] 0 <= i < before.len() implies d[before[i] as int]
        == c[before[i] as int] by {}
    if x.file_path == path {
        assert(chunks_in(d, path) =~= chunks_in(c, path).push(x));
    } else {
        assert(chunks_in(d, path) =~= chunks_in(c, path));
    }
}

/// More chunks of one file add themselves to the chunks of that file, and nothing
/// to those of another.
proof fn lemma_chunks_in_sum(c: Seq<ChunkModel>, more: Seq<ChunkModel>, path: Seq<char>, own: bool)
    requires
        c.len() + more.len() <= usize::MAX,
        forall|k: int|
            #![trigger more[k]]
            0 <= k < more.len() ==> (more[k].file_path == path) == own,
    ensures
        chunks_in(c + more, path) == (if own {
            chunks_in(c, path) + more
        } else {
            chunks_in(c, path)
        }),
    decreases more.len(),
{
    if more.len() == 0 {
        assert(c + more =~= c);
        assert(chunks_in(c, path) + more =~= chunks_in(c, path));
    } else {
        let rest = more.drop_last();
        let x = more.last();
        assert(more[more.len() - 1] == x);
        assert forall|k: int| #![trigger rest[k]] 0 <= k < rest.len() implies (rest[k].file_path
            == path) == own by {
            assert(rest[k] == more[k]);
        }
        lemma_chunks_in_sum(c, rest, path, own);
        assert(c + more =~= (c + rest).push(x));
        lemma_chunks_in_push(c + rest, x, path);
        if own {
            assert((chunks_in(c, path) + rest).push(x) =~= chunks_in(c, path) + more);
        }
    }
}

/// What a build gathers of each of its files, and that it gathers nothing of any
/// other path.
proof fn lemma_gathered(files: Seq<ScannedFile>, path: Seq<char>)
    requires
        distinct_files(files),
        gathered(files, None).len() <= usize::MAX,
    ensures
        (forall|j: int| #![trigger files[j]] 0 <= j < files.len() ==> files[j].rel@ != path)
            ==> chunks_in(gathered(files, None), path).len() == 0 && !gathered_states(
            files,
            None,
        ).contains_key(path),
        forall|j: int|
            #![trigger files[j]]
            0 <= j < files.len() && files[j].rel@ == path ==> match fresh_chunks(files[j]) {
                Some(c) => chunks_in(gathered(files, None), path) == bm25_index::all_stored(c)
                    && gathered_states(files, None).contains_key(path) && gathered_states(
                    files,
                    None,
                )[path] == files[j].state->0,
                None => chunks_in(gathered(files, None), path).len() == 0 && !gathered_states(
                    files,
                    None,
                ).contains_key(path),
            },
    decreases files.len(),
{
    if files.len() > 0 {
        let rest = files.drop_last();
        let f = files.last();
        let before = gathered(rest, None);
        assert(files[files.len() - 1] == f);
        assert forall|j: int| #![trigger rest[j]] 0 <= j < rest.len() implies rest[j] == files[j]
            && rest[j].rel@ != f.rel@ by {
            assert(files[j].rel@ != files[files.len() - 1].rel@);
        }
        assert(distinct_files(rest)) by {
            assert forall|i: int, j: int|
                #![trigger rest[i], rest[j]]
                0 <= i < j < rest.len() implies rest[i].rel@ != rest[j].rel@ by {
                assert(rest[i] == files[i] && rest[j] == files[j]);
            }
        }
        lemma_gathered(rest, path);
        match fresh_chunks(f) {
            Some(c) => {
                lemma_fresh_chunks(f);
                let more = bm25_index::all_stored(c);
                assert forall|k: int| #![trigger more[k]] 0 <= k < more.len() implies (
                more[k].file_path == path) == (f.rel@ == path) by {
                    assert(c[k].file_path == f.rel@);
                }
                lemma_chunks_in_sum(before, more, path, f.rel@ == path);
                if f.rel@ == path {
                    assert(chunks_in(before, path) + more =~= more);
                }
            },
            None => {},
        }
        assert forall|j: int|
            #![trigger files[j]]
            0 <= j < files.len() && files[j].rel@ == path implies match fresh_chunks(files[j]) {
            Some(c) => chunks_in(gathered(files, None), path) == bm25_index::all_stored(c)
                && gathered_states(files, None).contains_key(path) && gathered_states(
                files,
                None,
            )[path] == files[j].state->0,
            None => chunks_in(gathered(files, None), path).len() == 0 && !gathered_states(
                files,
                None,
            ).contains_key(path),
        } by {
            if j < rest.len() {
                assert(rest[j] == files[j]);
            }
        }
    } else {
        assert(chunks_in(gathered(files, None), path).len() == 0);
    }
}

/// Over files that are as they were when an index was built, a rebuild from that
/// index gives the same chunks and file states as the build did.
pub proof fn law_rebuild_of_unchanged_files(files: Seq<ScannedFile>, prev: BM25Index)
    requires
        distinct_files(files),
        is_index_of(prev, files, None),
        prev.chunks@.len() <= usize::MAX,
    ensures
        gathered(files, Some(prev)) == gathered(files, None),
        gathered_states(files, Some(prev)) == gathered_states(files, None),
{
    assert forall|j: int| #![trigger files[j]] 0 <= j < files.len() implies same_contribution(
        files[j],
        prev,
    ) by {
        let f = files[j];
        lemma_gathered(files, f.rel@);
        match fresh_chunks(f) {
            Some(c) => {
                lemma_fresh_chunks(f);
                lemma_all_stored(c);
            },
            None => {},
        }
    }
    lemma_same_contributions(files, prev);
}

/// Whether a file adds the same with an earlier index as without.
spec fn same_contribution(f: ScannedFile, prev: BM25Index) -> bool {
    match (file_chunks(f, Some(prev)), file_chunks(f, None)) {
        (Some(a), Some(b)) => bm25_index::all_stored(a) == bm25_index::all_stored(b),
        (None, None) => true,
        _ => false,
    }
}

proof fn lemma_same_contributions(files: Seq<ScannedFile>, prev: BM25Index)
    requires
        forall|j: int|
            #![trigger files[j]]
            0 <= j < files.len() ==> same_contribution(files[j], prev),
    ensures
        gathered(files, Some(prev)) == gathered(files, None),
        gathered_states(files, Some(prev)) == gathered_states(files, None),
    decreases files.len(),
{
    if files.len() > 0 {
        let rest = files.drop_last();
        assert forall|j: int| #![trigger rest[j]] 0 <= j < rest.len() implies same_contribution(
            rest[j],
            prev,
        ) by {
            assert(rest[j] == files[j]);
        }
        lemma_same_contributions(rest, prev);
        assert(same_contribution(files[files.len() - 1], prev));
    }
}

// ---------------------------------------------------------------- staleness
pub open spec fn slashes() -> spec_fn(char) -> bool {
    |c: char| c == '/' || c == '\\'
}

/// A path without the slashes at its start.
pub open spec fn relative(path: Seq<char>) -> Seq<char> {
    path.skip(text::run_len(path, slashes()) as int)
}

/// Whether the file of a chunk is missing. `disk` holds the paths that exist,
/// each with its state where it has one.
pub open spec fn chunk_file_missing(
    index: BM25Index,
    disk: Map<Seq<char>, Option<IndexedFileState>>,
) -> bool {
    exists|i: int|
        0 <= i < index.models().len() && relative((#[trigger] index.models()[i]).file_path).len()
            > 0 && !disk.contains_key(relative(index.models()[i].file_path))
}

/// Whether a tracked file is gone or has another state.
pub open spec fn tracked_file_changed(
    index: BM25Index,
    disk: Map<Seq<char>, Option<IndexedFileState>>,
) -> bool {
    exists|k: Seq<char>| #[trigger]
        index.files@.contains_key(k) && !(disk.contains_key(k) && disk[k] == Some(index.files@[k]))
}

/// Whether a file is listed that is not tracked.
pub open spec fn file_is_new(index: BM25Index, found: Seq<Seq<char>>) -> bool {
    exists|i: int| 0 <= i < found.len() && !index.files@.contains_key(#[trigger] found[i])
}

/// Whether an index is stale. An empty one is not; one that tracks no files is
/// where the file of a chunk is missing; any other is where a tracked file is
/// gone or has changed, or a file is new.
pub open spec fn is_stale(
    index: BM25Index,
    disk: Map<Seq<char>, Option<IndexedFileState>>,
    found: Seq<Seq<char>>,
) -> bool {
    if index.chunks@.len() == 0 {
        false
    } else if index.files@ == Map::<Seq<char>, IndexedFileState>::empty() {
        chunk_file_missing(index, disk)
    } else {
        tracked_file_changed(index, disk) || file_is_new(index, found)
    }
}

/// An index that tracks files and holds chunks is stale as soon as one of the
/// files is missing.
pub proof fn law_missing_file_is_stale(
    index: BM25Index,
    disk: Map<Seq<char>, Option<IndexedFileState>>,
    found: Seq<Seq<char>>,
    path: Seq<char>,
)
    requires
        index.chunks@.len() > 0,
        index.files@.contains_key(path),
        !disk.contains_key(path),
    ensures
        is_stale(index, disk, found),
{
    assert(index.files@ != Map::<Seq<char>, IndexedFileState>::empty());
}

/// An index is not stale where each tracked file is as it was and no file is
/// new.
pub proof fn law_unchanged_is_not_stale(
    index: BM25Index,
    disk: Map<Seq<char>, Option<IndexedFileState>>,
    found: Seq<Seq<char>>,
)
    requires
        index.files@ != Map::<Seq<char>, IndexedFileState>::empty(),
        forall|k: Seq<char>| #[trigger]
            index.files@.contains_key(k) ==> disk.contains_key(k) && disk[k] == Some(
                index.files@[k],
            ),
        forall|i: int| 0 <= i < found.len() ==> index.files@.contains_key(#[trigger] found[i]),
    ensures
        !is_stale(index, disk, found),
{
}

fn relative_path(path: &str) -> (r: String)
    ensures
        r@ == relative(path@),
{
    let chars = text::chars_of(path);
    let total: usize = chars.len();
    let mut n: usize = 0;
    while n < total && (chars[n] == '/' || chars[n] == '\\')
        invariant
            n <= total,
            total == chars@.len(),
            forall|j: int| 0 <= j < n ==> slashes()(#[trigger] chars@[j]),
        decreases total - n,
    {
        n += 1;
    }
    proof {
        text::lemma_run_len_is(chars@, slashes(), n as int);
    }
    let rest = vstd::slice::slice_subrange(chars.as_slice(), n, total);
    proof {
        assert(rest@ =~= chars@.skip(n as int));
    }
    text::text_of(rest)
}

fn lacks_chunk_file(
    index: &BM25Index,
    disk: &StringTable<Option<IndexedFileState>>,
) -> (r: bool)
    ensures
        r == chunk_file_missing(*index, disk@),
{
    let ghost all = index.models();
    let mut i: usize = 0;
    while i < index.chunks.len()
        invariant
            i <= index.chunks@.len(),
            all == index.models(),
            forall|j: int|
                0 <= j < i ==> relative((#[trigger] all[j]).file_path).len() == 0
                    || disk@.contains_key(relative(all[j].file_path)),
        decreases index.chunks@.len() - i,
    {
        let rel = relative_path(index.chunks[i].file_path.as_str());
        proof {
            assert(all[i as int].file_path == index.chunks@[i as int].file_path@);
        }
        if !rel.as_str().is_empty() && !disk.contains_key(rel.as_str()) {
            return true;
        }
        i += 1;
    }
    false
}

fn has_changed_file(
    index: &BM25Index,
    disk: &StringTable<Option<IndexedFileState>>,
) -> (r: bool)
    requires
        index.files.wf(),
        disk.wf(),
    ensures
        r == tracked_file_changed(*index, disk@),
{
    let mut i: usize = 0;
    proof {
        index.files.lemma_order();
    }
    while i < index.files.len()
        invariant
            i <= index.files.order().len(),
            index.files.wf(),
            disk.wf(),
            forall|j: int|
                0 <= j < index.files.order().len() ==> index.files@.contains_key(
                    #[trigger] index.files.order()[j],
                ),
            forall|j: int|
                #![trigger index.files.order()[j]]
                0 <= j < i ==> disk@.contains_key(index.files.order()[j])
                    && disk@[index.files.order()[j]] == Some(
                    index.files@[index.files.order()[j]],
                ),
        decreases index.files.order().len() - i,
    {
        let key = index.files.key_at(i);
        let known = *index.files.value_at(i);
        proof {
            assert(index.files@.contains_key(index.files.order()[i as int]));
        }
        let same = match disk.get(key) {
            Some(now) => match now {
                Some(state) => *state == known,
                None => false,
            },
            None => false,
        };
        if !same {
            return true;
        }
        i += 1;
    }
    proof {
        assert forall|k: Seq<char>| #[trigger] index.files@.contains_key(k) implies disk@.contains_key(
            k,
        ) && disk@[k] == Some(index.files@[k]) by {
            assert(index.files.order().contains(k));
        }
    }
    false
}

fn has_new_file(index: &BM25Index, found: &[String]) -> (r: bool)
    ensures
        r == file_is_new(*index, text::views(found@)),
{
    let ghost all = text::views(found@);
    let mut i: usize = 0;
    while i < found.len()
        invariant
            i <= found@.len(),
            all == text::views(found@),
            forall|j: int| 0 <= j < i ==> index.files@.contains_key(#[trigger] all[j]),
        decreases found@.len() - i,
    {
        proof {
            assert(all[i as int] == found@[i as int]@);
        }
        if !index.files.contains_key(found[i].as_str()) {
            return true;
        }
        i += 1;
    }
    false
}

/// Whether an index is stale, where `disk` holds the paths of
/// [`paths_to_check`] that exist, and `found` lists the code files.
pub fn bm25_index_looks_stale(
    index: &BM25Index,
    disk: &StringTable<Option<IndexedFileState>>,
    found: &[String],
) -> (r: bool)
    requires
        index.tables_wf(),
        disk.wf(),
    ensures
        r == is_stale(*index, disk@, text::views(found@)),
{
    if index.chunks.len() == 0 {
        return false;
    }
    if index.files.is_empty() {
        return lacks_chunk_file(index, disk);
    }
    has_changed_file(index, disk) || has_new_file(index, found)
}

/// The paths that decide whether an index is stale.
pub open spec fn checked_paths(index: BM25Index) -> Seq<Seq<char>> {
    if index.files.order().len() == 0 {
        Seq::new(index.models().len(), |i: int| relative(index.models()[i].file_path))
    } else {
        index.files.order()
    }
}

/// The paths that decide whether an index is stale.
pub fn paths_to_check(index: &BM25Index) -> (r: Vec<String>)
    requires
        index.tables_wf(),
    ensures
        text::views(r@) == checked_paths(*index),
{
    let ghost all = checked_paths(*index);
    let mut out: Vec<String> = Vec::new();
    let mut i: usize = 0;
    if index.files.len() == 0 {
        while i < index.chunks.len()
            invariant
                i <= index.chunks@.len(),
                index.files.order().len() == 0,
                all == checked_paths(*index),
                text::views(out@) == all.take(i as int),
            decreases index.chunks@.len() - i,
        {
            let rel = relative_path(index.chunks[i].file_path.as_str());
            proof {
                text::lemma_views_push(out@, rel);
                assert(all.take(i + 1) =~= all.take(i as int).push(rel@));
            }
            out.push(rel);
            i += 1;
        }
    } else {
        while i < index.files.len()
            invariant
                i <= index.files.order().len(),
                index.files.order().len() > 0,
                all == checked_paths(*index),
                text::views(out@) == all.take(i as int),
            decreases index.files.order().len() - i,
        {
            let key = index.files.key_at(i).to_string();
            proof {
                text::lemma_views_push(out@, key);
                assert(all.take(i + 1) =~= all.take(i as int).push(key@));
            }
            out.push(key);
            i += 1;
        }
    }
    proof {
        assert(all.take(i as int) =~= all);
    }
    out
}

// ---------------------------------------------------------------- laws of listing
/// The files with these extensions, in any case, and no others, are code files.
pub proof fn law_code_extensions(path: Seq<char>, e: Seq<char>)
    requires
        paths::extension(path) == Some(e),
    ensures
        is_code(path) <==> {
            let l = text::lowercase(e);
            ||| l == "rs"@
            ||| l == "ts"@
            ||| l == "tsx"@
            ||| l == "js"@
            ||| l == "jsx"@
            ||| l == "py"@
            ||| l == "go"@
            ||| l == "java"@
            ||| l == "c"@
            ||| l == "cc"@
            ||| l == "cpp"@
            ||| l == "h"@
            ||| l == "hpp"@
            ||| l == "rb"@
            ||| l == "cs"@
            ||| l == "kt"@
            ||| l == "swift"@
            ||| l == "php"@
            ||| l == "scala"@
            ||| l == "sql"@
            ||| l == "ex"@
            ||| l == "exs"@
            ||| l == "zig"@
            ||| l == "lua"@
            ||| l == "dart"@
            ||| l == "vue"@
            ||| l == "svelte"@
        },
{
    let all = code_extensions();
    assert(all[0] == "rs"@);
    assert(all[1] == "ts"@);
    assert(all[2] == "tsx"@);
    assert(all[3] == "js"@);
    assert(all[4] == "jsx"@);
    assert(all[5] == "py"@);
    assert(all[6] == "go"@);
    assert(all[7] == "java"@);
    assert(all[8] == "c"@);
    assert(all[9] == "cc"@);
    assert(all[10] == "cpp"@);
    assert(all[11] == "h"@);
    assert(all[12] == "hpp"@);
    assert(all[13] == "rb"@);
    assert(all[14] == "cs"@);
    assert(all[15] == "kt"@);
    assert(all[16] == "swift"@);
    assert(all[17] == "php"@);
    assert(all[18] == "scala"@);
    assert(all[19] == "sql"@);
    assert(all[20] == "ex"@);
    assert(all[21] == "exs"@);
    assert(all[22] == "zig"@);
    assert(all[23] == "lua"@);
    assert(all[24] == "dart"@);
    assert(all[25] == "vue"@);
    assert(all[26] == "svelte"@);
    assert(all.len() == 27);
}

/// A path is left out where it matches one of the patterns that come with the library or
/// one that is added, and only there; a text that is no pattern leaves nothing out.
pub proof fn law_ignored(path: Seq<char>, extra: Seq<Seq<char>>)
    ensures
        is_ignored(path, default_ignores() + extra) <==> {
            let hits = |p: Seq<char>| glob_valid(p) && glob_match(p, path);
            ||| hits("vendor/**"@)
            ||| hits("dist/**"@)
            ||| hits("build/**"@)
            ||| hits("public/vendor/**"@)
            ||| hits("public/js/**"@)
            ||| hits("public/css/**"@)
            ||| hits("public/build/**"@)
            ||| hits(".next/**"@)
            ||| hits(".nuxt/**"@)
            ||| hits("__pycache__/**"@)
            ||| hits("*.min.js"@)
            ||| hits("*.min.css"@)
            ||| hits("*.bundle.js"@)
            ||| hits("*.chunk.js"@)
            ||| exists|i: int| 0 <= i < extra.len() && hits(#[trigger] extra[i])
        },
{
    let first = default_ignores();
    let all = first + extra;
    let hits = |p: Seq<char>| glob_valid(p) && glob_match(p, path);
    assert(all[0] == "vendor/**"@);
    assert(all[1] == "dist/**"@);
    assert(all[2] == "build/**"@);
    assert(all[3] == "public/vendor/**"@);
    assert(all[4] == "public/js/**"@);
    assert(all[5] == "public/css/**"@);
    assert(all[6] == "public/build/**"@);
    assert(all[7] == ".next/**"@);
    assert(all[8] == ".nuxt/**"@);
    assert(all[9] == "__pycache__/**"@);
    assert(all[10] == "*.min.js"@);
    assert(all[11] == "*.min.css"@);
    assert(all[12] == "*.bundle.js"@);
    assert(all[13] == "*.chunk.js"@);
    assert(first.len() == 14);
    if is_ignored(path, all) {
        let i = choose|i: int|
            0 <= i < all.len() && glob_valid(#[trigger] all[i]) && glob_match(all[i], path);
        if i >= first.len() {
            assert(extra[i - first.len()] == all[i]);
            assert(hits(extra[i - first.len()]));
        }
    }
    if exists|i: int| 0 <= i < extra.len() && hits(#[trigger] extra[i]) {
        let i = choose|i: int| 0 <= i < extra.len() && hits(#[trigger] extra[i]);
        assert(all[first.len() + i] == extra[i]);
    }
}

/// Whether an entry of a walk is a file to index: a code file below the directory that no
/// pattern leaves out.
pub open spec fn is_listed(e: WalkEntry, extra: Seq<Seq<char>>) -> bool {
    e.is_file && is_code(e.rel@) && e.rel@.len() > 0 && !is_ignored(e.rel@, default_ignores() + extra)
}

proof fn lemma_indexed_is_listed(entries: Seq<WalkEntry>, extra: Seq<Seq<char>>)
    ensures
        ({
            let f = entries.filter(|e: WalkEntry| is_listed(e, extra));
            let all = indexed_files(entries, default_ignores() + extra);
            &&& all.len() == f.len()
            &&& forall|i: int| #![trigger all[i]] 0 <= i < all.len() ==> all[i] == f[i].rel@
        }),
    decreases entries.len(),
{
    reveal(Seq::filter);
    if entries.len() > 0 {
        let rest = entries.drop_last();
        lemma_indexed_is_listed(rest, extra);
        let f = entries.filter(|e: WalkEntry| is_listed(e, extra));
        let g = rest.filter(|e: WalkEntry| is_listed(e, extra));
        let all = indexed_files(entries, default_ignores() + extra);
        let before = indexed_files(rest, default_ignores() + extra);
        assert forall|i: int| #![trigger all[i]] 0 <= i < all.len() implies all[i] == f[i].rel@ by {
            if i < before.len() {
                assert(all[i] == before[i]);
                assert(f[i] == g[i]);
            }
        }
    }
}

/// A walk lists the paths of the first five thousand entries that are files to index, and
/// no others.
pub proof fn law_listed_files(entries: Seq<WalkEntry>, extra: Seq<Seq<char>>, p: Seq<char>)
    ensures
        ({
            let f = entries.filter(|e: WalkEntry| is_listed(e, extra));
            code_files(entries, extra).contains(p) <==> exists|i: int|
                0 <= i < f.len() && i < 5000 && (#[trigger] f[i]).rel@ == p
        }),
        forall|i: int, j: int|
            #![trigger code_files(entries, extra)[i], code_files(entries, extra)[j]]
            0 <= i < j < code_files(entries, extra).len() ==> ordering::text_precedes(
                code_files(entries, extra)[i],
                code_files(entries, extra)[j],
            ),
{
    let f = entries.filter(|e: WalkEntry| is_listed(e, extra));
    let all = indexed_files(entries, default_ignores() + extra);
    let some = bm25_index::first_of(all, MAX_BM25_FILES as nat);
    let s = ordering::sorted(some, ordering::text_order());
    let r = code_files(entries, extra);
    lemma_indexed_is_listed(entries, extra);
    ordering::lemma_text_order_is_order();
    ordering::law_sorted(some, ordering::text_order());
    ordering::lemma_deduplicated(s);
    some.to_multiset_ensures();
    s.to_multiset_ensures();
    assert(r.contains(p) <==> s.contains(p));
    assert(s.contains(p) <==> s.to_multiset().count(p) > 0);
    assert(some.contains(p) <==> some.to_multiset().count(p) > 0);
    if some.contains(p) {
        let i = choose|i: int| 0 <= i < some.len() && some[i] == p;
        assert(all[i] == p);
        assert(f[i].rel@ == p);
    }
    if exists|i: int| 0 <= i < f.len() && i < 5000 && (#[trigger] f[i]).rel@ == p {
        let i = choose|i: int| 0 <= i < f.len() && i < 5000 && (#[trigger] f[i]).rel@ == p;
        assert(all[i] == p);
        assert(some[i] == p);
    }
}

// ---------------------------------------------------------------- laws of scanning
/// The state of a file is its size and its time of modification, and is known where both
/// are.
pub proof fn law_file_state(size_bytes: Option<u64>, mtime_ms: Option<u128>)
    ensures
        state_of(size_bytes, mtime_ms) is Some <==> size_bytes is Some && mtime_ms is Some,
        state_of(size_bytes, mtime_ms) is Some ==> state_of(size_bytes, mtime_ms)->0.size_bytes
            == size_bytes->0,
        state_of(size_bytes, mtime_ms) is Some && mtime_ms->0 <= u64::MAX ==> state_of(
            size_bytes,
            mtime_ms,
        )->0.mtime_ms == mtime_ms->0,
{
}

/// A file that was read has chunks where its state is known and it takes at most two
/// mebibytes, and only there. They are those of its text, by their first line, their
/// last line and their name.
pub proof fn law_fresh_chunks(f: ScannedFile, i: int, j: int)
    ensures
        fresh_chunks(f) is Some <==> f.content is Some && f.state is Some && f.state->0.size_bytes
            <= 2097152,
        fresh_chunks(f) is Some ==> fresh_chunks(f)->0.to_multiset() == chunks::chunks_of(
            f.rel@,
            f.content->0@,
            f.cuts@,
        ).to_multiset(),
        fresh_chunks(f) is Some && 0 <= i < j < fresh_chunks(f)->0.len() ==> ({
            let a = fresh_chunks(f)->0[i];
            let b = fresh_chunks(f)->0[j];
            &&& a.start_line <= b.start_line
            &&& a.start_line == b.start_line ==> a.end_line <= b.end_line
            &&& a.start_line == b.start_line && a.end_line == b.end_line ==> a.symbol_name
                == b.symbol_name || ordering::text_precedes(a.symbol_name, b.symbol_name)
        }),
{
    if fresh_chunks(f) is Some {
        let c = chunks::chunks_of(f.rel@, f.content->0@, f.cuts@);
        let s = fresh_chunks(f)->0;
        CodeChunk::order_laws();
        ordering::law_sorted(c, chunks::chunk_order());
        if 0 <= i < j < s.len() {
            assert(!chunks::chunk_order()(s[j], s[i]));
            ordering::lemma_text_order(s[i].symbol_name, s[j].symbol_name, s[i].symbol_name);
        }
    }
}

/// The chunks of a file are those of the index with its path, in their order.
pub proof fn law_chunks_in(c: Seq<ChunkModel>, path: Seq<char>)
    requires
        c.len() <= usize::MAX,
    ensures
        chunks_in(c, path) == c.filter(|x: ChunkModel| x.file_path == path),
    decreases c.len(),
{
    reveal(Seq::filter);
    if c.len() > 0 {
        let d = c.drop_last();
        law_chunks_in(d, path);
        lemma_places(d, path);
        let a = chunks_in(c, path);
        let b = chunks_in(d, path);
        let p = places(d, path);
        assert forall|i: int| 0 <= i < b.len() implies a[i] == b[i] by {
            assert(p[i] < d.len());
            assert(places(c, path)[i] == p[i]);
        }
        if c.last().file_path == path {
            assert(a =~= b.push(c.last()));
        } else {
            assert(a =~= b);
        }
    } else {
        assert(chunks_in(c, path) =~= c.filter(|x: ChunkModel| x.file_path == path));
    }
}

/// An earlier index gives the chunks of a file just where it tracks the file in the same
/// state and its first chunk of the file has a text; they are all that it has of the file,
/// by their first line, their last line and their name.
pub proof fn law_reused_chunks(
    prev: BM25Index,
    rel: Seq<char>,
    state: IndexedFileState,
    i: int,
    j: int,
)
    requires
        prev.chunks@.len() <= usize::MAX,
    ensures
        ({
            let own = prev.models().filter(|x: ChunkModel| x.file_path == rel);
            let r = reused_chunks(prev, rel, state);
            &&& r is Some ==> prev.files@.contains_key(rel) && prev.files@[rel] == state
            &&& r is Some ==> r->0.to_multiset() == own.to_multiset() && r->0.len() > 0
                && r->0[0].content.len() > 0
            &&& prev.files@.contains_key(rel) && prev.files@[rel] == state && own.len() > 0 && (
            forall|i: int|
                #![trigger own[i]]
                0 <= i < own.len() ==> own[i].content.len() > 0) ==> r is Some
            &&& (forall|i: int|
                #![trigger own[i]]
                0 <= i < own.len() ==> own[i].content.len() == 0) ==> r is None
            &&& r is Some && 0 <= i < j < r->0.len() ==> {
                let a = r->0[i];
                let b = r->0[j];
                &&& a.start_line <= b.start_line
                &&& a.start_line == b.start_line ==> a.end_line <= b.end_line
                &&& a.start_line == b.start_line && a.end_line == b.end_line ==> a.symbol_name
                    == b.symbol_name || ordering::text_precedes(a.symbol_name, b.symbol_name)
            }
        }),
{
    let own = prev.models().filter(|x: ChunkModel| x.file_path == rel);
    law_chunks_in(prev.models(), rel);
    CodeChunk::order_laws();
    ordering::law_sorted(own, chunks::chunk_order());
    let c = ordering::sorted(own, chunks::chunk_order());
    if c.len() > 0 {
        own.to_multiset_ensures();
        c.to_multiset_ensures();
        assert(c.contains(c[0]));
        assert(c.to_multiset().count(c[0]) > 0);
        assert(own.contains(c[0]));
        let k = choose|k: int| 0 <= k < own.len() && own[k] == c[0];
        assert(own[k] == c[0]);
    }
    if 0 <= i < j < c.len() {
        assert(!chunks::chunk_order()(c[j], c[i]));
        ordering::lemma_text_order(c[i].symbol_name, c[j].symbol_name, c[i].symbol_name);
    }
}

/// A scan adds the chunks of each file in turn, and tracks the file with its state where
/// it has chunks to add: those of an earlier index where they can be reused, and else
/// those of the text that was read.
pub proof fn law_gathered(files: Seq<ScannedFile>, f: ScannedFile, prev: Option<BM25Index>)
    ensures
        gathered(Seq::<ScannedFile>::empty(), prev).len() == 0,
        gathered_states(Seq::<ScannedFile>::empty(), prev) == Map::<
            Seq<char>,
            IndexedFileState,
        >::empty(),
        file_chunks(f, prev) is None ==> gathered(files.push(f), prev) == gathered(files, prev)
            && gathered_states(files.push(f), prev) == gathered_states(files, prev),
        file_chunks(f, prev) is Some ==> gathered(files.push(f), prev) == gathered(files, prev)
            + bm25_index::all_stored(file_chunks(f, prev)->0),
        file_chunks(f, prev) is Some ==> f.state is Some && gathered_states(files.push(f), prev)
            == gathered_states(files, prev).insert(f.rel@, f.state->0),
        prev is None || f.state is None || reused_chunks(prev->0, f.rel@, f.state->0) is None
            ==> file_chunks(f, prev) == fresh_chunks(f),
        prev is Some && f.state is Some && reused_chunks(prev->0, f.rel@, f.state->0) is Some
            ==> file_chunks(f, prev) == reused_chunks(prev->0, f.rel@, f.state->0),
{
    assert(files.push(f).drop_last() =~= files);
}

/// A scan gets to the files ahead of the first at which it stops: one of every five
/// hundred where memory is short, or any at which an abort is asked for, where that is
/// heeded.
pub proof fn law_reached(files: Seq<ScannedFile>, heeds_abort: bool, i: int)
    ensures
        ({
            let n = reached(files, heeds_abort).len() as int;
            let halts = |k: int|
                (k % 500 == 0 && files[k].under_pressure) || (heeds_abort
                    && files[k].abort_requested);
            &&& n <= files.len()
            &&& reached(files, heeds_abort) == files.take(n)
            &&& 0 <= i < n ==> !halts(i)
            &&& n < files.len() ==> halts(n)
        }),
{
    lemma_stop_at(files, 0, heeds_abort);
    let n = stop_at(files, 0, heeds_abort);
    assert(reached(files, heeds_abort).len() == n);
    if 0 <= i < n {
        assert(!stops(files[i], i, heeds_abort));
    }
}

proof fn lemma_stop_at(files: Seq<ScannedFile>, i: int, heeds_abort: bool)
    requires
        0 <= i <= files.len(),
    ensures
        i <= stop_at(files, i, heeds_abort) <= files.len(),
        forall|k: int|
            i <= k < stop_at(files, i, heeds_abort) ==> !#[trigger] stops(
                files[k],
                k,
                heeds_abort,
            ),
        stop_at(files, i, heeds_abort) < files.len() ==> stops(
            files[stop_at(files, i, heeds_abort)],
            stop_at(files, i, heeds_abort),
            heeds_abort,
        ),
    decreases files.len() - i,
{
    if i < files.len() && !stops(files[i], i, heeds_abort) {
        lemma_stop_at(files, i + 1, heeds_abort);
    }
}

// ---------------------------------------------------------------- laws of staleness
/// When an index is stale. One without chunks never is. One that tracks no file is where a
/// chunk has a path, and no file stands there; slashes ahead of the path do not count. Any
/// other is where a tracked file is gone or has another size or time, or where a file is
/// listed that is not tracked.
pub proof fn law_stale(
    index: BM25Index,
    disk: Map<Seq<char>, Option<IndexedFileState>>,
    found: Seq<Seq<char>>,
)
    ensures
        index.chunks@.len() == 0 ==> !is_stale(index, disk, found),
        index.chunks@.len() > 0 && index.files@.dom() =~= Set::<Seq<char>>::empty() ==> (is_stale(
            index,
            disk,
            found,
        ) <==> exists|i: int|
            0 <= i < index.chunks@.len() && {
                let p = relative((#[trigger] index.models()[i]).file_path);
                p.len() > 0 && !disk.contains_key(p)
            }),
        index.chunks@.len() > 0 && !(index.files@.dom() =~= Set::<Seq<char>>::empty()) ==> (
        is_stale(index, disk, found) <==> {
            ||| exists|k: Seq<char>| #[trigger]
                index.files@.contains_key(k) && (!disk.contains_key(k) || disk[k] is None
                    || disk[k]->0.size_bytes != index.files@[k].size_bytes || disk[k]->0.mtime_ms
                    != index.files@[k].mtime_ms)
            ||| exists|i: int| 0 <= i < found.len() && !index.files@.contains_key(#[trigger] found[i])
        }),
{
    if index.files@.dom() =~= Set::<Seq<char>>::empty() {
        assert(index.files@ =~= Map::<Seq<char>, IndexedFileState>::empty());
    } else {
        assert(index.files@ != Map::<Seq<char>, IndexedFileState>::empty());
    }
    assert(index.models().len() == index.chunks@.len());
    if tracked_file_changed(index, disk) {
        let k = choose|k: Seq<char>| #[trigger]
            index.files@.contains_key(k) && !(disk.contains_key(k) && disk[k] == Some(
                index.files@[k],
            ));
        assert(index.files@.contains_key(k));
    }
}

/// A path without its leading slashes.
pub proof fn law_relative(slashes_ahead: Seq<char>, rest: Seq<char>)
    requires
        forall|i: int|
            0 <= i < slashes_ahead.len() ==> (#[trigger] slashes_ahead[i] == '/'
                || slashes_ahead[i] == '\\'),
        rest.len() > 0 ==> rest[0] != '/' && rest[0] != '\\',
    ensures
        relative(slashes_ahead + rest) == rest,
{
    let s = slashes_ahead + rest;
    let n = slashes_ahead.len() as int;
    assert forall|i: int| 0 <= i < n implies slashes()(#[trigger] s[i]) by {
        assert(s[i] == slashes_ahead[i]);
    }
    if n < s.len() {
        assert(s[n] == rest[0]);
    }
    text::lemma_run_len_is(s, slashes(), n);
    assert(s.skip(n) =~= rest);
}

/// The paths that decide whether an index is stale are all looked at: those of the tracked
/// files, and without such those of the chunks.
pub proof fn law_checked_paths(index: BM25Index, p: Seq<char>)
    requires
        index.tables_wf(),
    ensures
        index.files@.contains_key(p) ==> checked_paths(index).contains(p),
        index.files.order().len() == 0 ==> checked_paths(index).len() == index.chunks@.len(),
        index.files.order().len() == 0 ==> forall|i: int|
            #![trigger checked_paths(index)[i]]
            0 <= i < index.chunks@.len() ==> checked_paths(index)[i] == relative(
                index.chunks@[i].file_path@,
            ),
{
    index.files.lemma_order();
}

/// What it is to be the index of scanned files: the chunks and the states are those
/// gathered, all chunks are counted and so are their tokens, and every table says of a term
/// where it occurs.
pub proof fn law_index_of_files(
    index: BM25Index,
    files: Seq<ScannedFile>,
    prev: Option<BM25Index>,
    t: Seq<char>,
)
    requires
        is_index_of(index, files, prev),
        index.chunks@.len() <= usize::MAX,
    ensures
        index.models() == gathered(files, prev),
        index.files@ == gathered_states(files, prev),
        index.doc_count == index.chunks@.len(),
        index.total_len == bm25_index::sum(bm25_index::token_counts(index.models())),
        index.inverted.list(t) == bm25_index::postings(index.models(), t),
        bm25_index::freq_in(index, t) == index.models().filter(
            |x: ChunkModel| bm25_index::chunk_terms(x).contains(t),
        ).len(),
        index.searchable(),
{
    index.law_searchable();
    bm25_index::law_doc_freq(index.models(), t);
    assert(index.inverted.list(t) == bm25_index::postings(index.models(), t));
    assert(index.doc_freqs@.contains_key(t) <==> bm25_index::doc_freq(index.models(), t) > 0);
}

} // verus!
