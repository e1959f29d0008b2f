//! Cutting source text into chunks: one for each function, type or class, or
//! pieces of the text where it has none.
use vstd::prelude::*;
use vstd::utf8::encode_utf8;

use crate::ordering;
use crate::ordering::Ordered;
use crate::paths;
use crate::text;
use crate::tokens;

verus! {

// ---------------------------------------------------------------- chunks
/// What a chunk is.
#[derive(Debug, Clone, Copy, PartialEq, Eq, Structural)]
pub enum ChunkKind {
    Function,
    Struct,
    Impl,
    Module,
    Class,
    Method,
    Other,
}

/// A piece of a source file; lines count from one.
#[derive(Debug)]
pub struct CodeChunk {
    pub file_path: String,
    pub symbol_name: String,
    pub kind: ChunkKind,
    pub start_line: usize,
    pub end_line: usize,
    pub content: String,
    pub tokens: Vec<String>,
    pub token_count: usize,
}

/// The meaning of a [`CodeChunk`].
#[verifier::ext_equal]
pub struct ChunkModel {
    pub file_path: Seq<char>,
    pub symbol_name: Seq<char>,
    pub kind: ChunkKind,
    pub start_line: int,
    pub end_line: int,
    pub content: Seq<char>,
    pub tokens: Seq<Seq<char>>,
    pub token_count: int,
}

impl View for CodeChunk {
    type V = ChunkModel;

    open spec fn view(&self) -> ChunkModel {
        ChunkModel {
            file_path: self.file_path@,
            symbol_name: self.symbol_name@,
            kind: self.kind,
            start_line: self.start_line as int,
            end_line: self.end_line as int,
            content: self.content@,
            tokens: text::views(self.tokens@),
            token_count: self.token_count as int,
        }
    }
}

fn copied_texts(list: &Vec<String>) -> (r: Vec<String>)
    ensures
        text::views(r@) == text::views(list@),
{
    let mut out: Vec<String> = Vec::new();
    let mut i: usize = 0;
    while i < list.len()
        invariant
            i <= list.len(),
            text::views(out@) == text::views(list@).take(i as int),
        decreases list.len() - i,
    {
        let s = list[i].clone();
        proof {
            text::lemma_views_push(out@, s);
            assert(text::views(list@).take(i + 1) =~= text::views(list@).take(i as int).push(s@));
        }
        out.push(s);
        i += 1;
    }
    proof {
        assert(text::views(list@).take(i as int) =~= text::views(list@));
    }
    out
}

impl Clone for CodeChunk {
    fn clone(&self) -> (r: CodeChunk)
        ensures
            r@ == self@,
    {
        CodeChunk {
            file_path: self.file_path.clone(),
            symbol_name: self.symbol_name.clone(),
            kind: self.kind,
            start_line: self.start_line,
            end_line: self.end_line,
            content: self.content.clone(),
            tokens: copied_texts(&self.tokens),
            token_count: self.token_count,
        }
    }
}

/// Whether a chunk stands before another: by its first line, its last line and
/// its name.
pub open spec fn chunk_precedes(a: ChunkModel, b: ChunkModel) -> bool {
    ||| a.start_line < b.start_line
    ||| a.start_line == b.start_line && a.end_line < b.end_line
    ||| a.start_line == b.start_line && a.end_line == b.end_line && ordering::text_precedes(
        a.symbol_name,
        b.symbol_name,
    )
}

/// The order of chunks.
pub open spec fn chunk_order() -> spec_fn(ChunkModel, ChunkModel) -> bool {
    |a: ChunkModel, b: ChunkModel| chunk_precedes(a, b)
}

impl Ordered for CodeChunk {
    open spec fn order() -> spec_fn(ChunkModel, ChunkModel) -> bool {
        chunk_order()
    }

    proof fn order_laws() {
        assert forall|a: ChunkModel| !#[trigger] chunk_order()(a, a) by {
            ordering::lemma_text_order(a.symbol_name, a.symbol_name, a.symbol_name);
        }
        assert forall|a: ChunkModel, b: ChunkModel, c: ChunkModel|
            #![trigger chunk_order()(a, b), chunk_order()(b, c)]
            chunk_order()(a, b) && chunk_order()(b, c) implies chunk_order()(a, c) by {
            ordering::lemma_text_order(a.symbol_name, b.symbol_name, c.symbol_name);
        }
        assert forall|a: ChunkModel, b: ChunkModel, c: ChunkModel|
            #![trigger chunk_order()(a, b), chunk_order()(b, c)]
            !chunk_order()(a, b) && !chunk_order()(b, c) implies !chunk_order()(a, c) by {
            ordering::lemma_text_order(a.symbol_name, b.symbol_name, c.symbol_name);
        }
    }

    fn comes_before(&self, other: &CodeChunk) -> (r: bool) {
        if self.start_line != other.start_line {
            self.start_line < other.start_line
        } else if self.end_line != other.end_line {
            self.end_line < other.end_line
        } else {
            ordering::text_before(self.symbol_name.as_str(), other.symbol_name.as_str())
        }
    }
}

// ---------------------------------------------------------------- symbols
/// What starts a definition, and what is defined there.
pub open spec fn definitions() -> Seq<(Seq<char>, ChunkKind)> {
    seq![
        ("pub async fn "@, ChunkKind::Function),
        ("async fn "@, ChunkKind::Function),
        ("pub fn "@, ChunkKind::Function),
        ("fn "@, ChunkKind::Function),
        ("pub struct "@, ChunkKind::Struct),
        ("struct "@, ChunkKind::Struct),
        ("pub enum "@, ChunkKind::Struct),
        ("enum "@, ChunkKind::Struct),
        ("impl "@, ChunkKind::Impl),
        ("pub trait "@, ChunkKind::Struct),
        ("trait "@, ChunkKind::Struct),
        ("export function "@, ChunkKind::Function),
        ("export async function "@, ChunkKind::Function),
        ("export default function "@, ChunkKind::Function),
        ("function "@, ChunkKind::Function),
        ("async function "@, ChunkKind::Function),
        ("export class "@, ChunkKind::Class),
        ("class "@, ChunkKind::Class),
        ("export interface "@, ChunkKind::Struct),
        ("interface "@, ChunkKind::Struct),
        ("def "@, ChunkKind::Function),
        ("async def "@, ChunkKind::Function),
        ("class "@, ChunkKind::Class),
        ("func "@, ChunkKind::Function),
    ]
}

/// The name that starts `s`.
pub open spec fn leading_name(s: Seq<char>) -> Seq<char> {
    s.take(text::run_len(s, tokens::token_chars()) as int)
}

/// Whether a line starts with `prefix` and a name.
pub open spec fn defines(line: Seq<char>, prefix: Seq<char>) -> bool {
    text::starts_with(line, prefix) && leading_name(line.skip(prefix.len() as int)).len() > 0
}

/// The name and kind that the first fitting definition from the `i`th on gives.
pub open spec fn definition_from(line: Seq<char>, i: int) -> Option<(Seq<char>, ChunkKind)>
    decreases definitions().len() - i,
{
    if i < 0 || i >= definitions().len() {
        None
    } else {
        let (prefix, kind) = definitions()[i];
        if defines(line, prefix) {
            Some((leading_name(line.skip(prefix.len() as int)), kind))
        } else {
            definition_from(line, i + 1)
        }
    }
}

/// The name and kind of what a line defines.
pub open spec fn symbol_of(line: Seq<char>) -> Option<(Seq<char>, ChunkKind)> {
    definition_from(text::trim(line), 0)
}

pub open spec fn symbol_view(s: Option<(String, ChunkKind)>) -> Option<(Seq<char>, ChunkKind)> {
    match s {
        Some((name, kind)) => Some((name@, kind)),
        None => None,
    }
}

pub open spec fn table_view(t: Seq<(&'static str, ChunkKind)>) -> Seq<(Seq<char>, ChunkKind)> {
    Seq::new(t.len(), |i: int| (t[i].0@, t[i].1))
}

fn definition_table() -> (r: Vec<(&'static str, ChunkKind)>)
    ensures
        table_view(r@) == definitions(),
{
    let table: Vec<(&'static str, ChunkKind)> = vec![
        ("pub async fn ", ChunkKind::Function),
        ("async fn ", ChunkKind::Function),
        ("pub fn ", ChunkKind::Function),
        ("fn ", ChunkKind::Function),
        ("pub struct ", ChunkKind::Struct),
        ("struct ", ChunkKind::Struct),
        ("pub enum ", ChunkKind::Struct),
        ("enum ", ChunkKind::Struct),
        ("impl ", ChunkKind::Impl),
        ("pub trait ", ChunkKind::Struct),
        ("trait ", ChunkKind::Struct),
        ("export function ", ChunkKind::Function),
        ("export async function ", ChunkKind::Function),
        ("export default function ", ChunkKind::Function),
        ("function ", ChunkKind::Function),
        ("async function ", ChunkKind::Function),
        ("export class ", ChunkKind::Class),
        ("class ", ChunkKind::Class),
        ("export interface ", ChunkKind::Struct),
        ("interface ", ChunkKind::Struct),
        ("def ", ChunkKind::Function),
        ("async def ", ChunkKind::Function),
        ("class ", ChunkKind::Class),
        ("func ", ChunkKind::Function),
    ];
    proof {
        assert(table_view(table@) =~= definitions());
    }
    table
}

fn symbol_in(line: &[char]) -> (r: Option<(String, ChunkKind)>)
    ensures
        symbol_view(r) == symbol_of(line@),
{
    let trimmed = text::trimmed(line);
    let total: usize = trimmed.len();
    let table = definition_table();
    let mut i: usize = 0;
    while i < table.len()
        invariant
            i <= table.len(),
            total == trimmed@.len(),
            trimmed@ == text::trim(line@),
            table_view(table@) == definitions(),
            definition_from(trimmed@, 0) == definition_from(trimmed@, i as int),
        decreases table.len() - i,
    {
        let prefix = text::chars_of(table[i].0);
        proof {
            assert(table_view(table@)[i as int] == definitions()[i as int]);
        }
        if text::begins(trimmed, table[i].0) {
            let rest = vstd::slice::slice_subrange(trimmed, prefix.len(), total);
            proof {
                assert(rest@ =~= trimmed@.skip(prefix@.len() as int));
            }
            let n = tokens::token_run(rest);
            if n > 0 {
                let name = text::text_of(vstd::slice::slice_subrange(rest, 0, n));
                proof {
                    assert(name@ =~= leading_name(rest@));
                    assert(defines(trimmed@, prefix@));
                    assert(definition_from(trimmed@, i as int) == Some(
                        (name@, table@[i as int].1),
                    ));
                }
                return Some((name, table[i].1));
            }
        }
        i += 1;
    }
    None
}

/// The name and kind of what a line defines.
pub fn detect_symbol(line: &str) -> (r: Option<(String, ChunkKind)>)
    ensures
        symbol_view(r) == symbol_of(line@),
{
    let chars = text::chars_of(line);
    symbol_in(chars.as_slice())
}

// ---------------------------------------------------------------- blocks
/// How many brackets are open after a line, or nothing where the line closes
/// the last of them.
pub open spec fn depth_after(line: Seq<char>, depth: int) -> Option<int>
    decreases line.len(),
{
    if line.len() == 0 {
        Some(depth)
    } else if line[0] == '{' || line[0] == '(' {
        depth_after(line.skip(1), depth + 1)
    } else if (line[0] == '}' || line[0] == ')') && depth > 0 {
        if depth == 1 {
            None
        } else {
            depth_after(line.skip(1), depth - 1)
        }
    } else {
        depth_after(line.skip(1), depth)
    }
}

/// The last line of the block that starts at `start`, where the lines before
/// `i` leave `depth` brackets open: the line that closes the brackets; without
/// a bracket in four lines, the third; without an end, the fiftieth behind
/// `start` or the last.
pub open spec fn block_end_from(lines: Seq<Seq<char>>, start: int, i: int, depth: int) -> int
    decreases lines.len() - i,
{
    if i < 0 || i >= lines.len() {
        let last = if lines.len() == 0 {
            0
        } else {
            lines.len() - 1
        };
        if start + 50 < last {
            start + 50
        } else {
            last
        }
    } else {
        match depth_after(lines[i], depth) {
            None => i,
            Some(d) => if d == 0 && i > start + 2 {
                i - 1
            } else {
                block_end_from(lines, start, i + 1, d)
            },
        }
    }
}

/// The last line of the block that starts at a line.
pub open spec fn block_end(lines: Seq<Seq<char>>, start: int) -> int {
    block_end_from(lines, start, start, 0)
}

proof fn lemma_block_end_from(lines: Seq<Seq<char>>, start: int, i: int, depth: int)
    requires
        0 <= start < lines.len(),
        start <= i,
    ensures
        start <= block_end_from(lines, start, i, depth) < lines.len(),
    decreases lines.len() - i,
{
    if i < lines.len() {
        match depth_after(lines[i], depth) {
            None => {},
            Some(d) => {
                if !(d == 0 && i > start + 2) {
                    lemma_block_end_from(lines, start, i + 1, d);
                }
            },
        }
    }
}

/// A block ends at its first line or later, and within the text.
pub proof fn law_block_end(lines: Seq<Seq<char>>, start: int)
    requires
        0 <= start < lines.len(),
    ensures
        start <= block_end(lines, start) < lines.len(),
{
    lemma_block_end_from(lines, start, start, 0);
}

fn line_depth(line: &[char], depth: u128) -> (r: Option<u128>)
    requires
        depth + line@.len() <= u128::MAX,
    ensures
        match r {
            Some(d) => depth_after(line@, depth as int) == Some(d as int) && d <= depth + line@.len(),
            None => depth_after(line@, depth as int) is None,
        },
{
    let total: usize = line.len();
    let mut d: u128 = depth;
    let mut j: usize = 0;
    proof {
        assert(line@.skip(0) =~= line@);
    }
    while j < total
        invariant
            j <= total,
            total == line@.len(),
            d <= depth + j,
            depth + total <= u128::MAX,
            depth_after(line@, depth as int) == depth_after(line@.skip(j as int), d as int),
        decreases total - j,
    {
        let c = line[j];
        proof {
            assert(line@.skip(j as int).skip(1) =~= line@.skip(j + 1));
        }
        if c == '{' || c == '(' {
            d += 1;
        } else if (c == '}' || c == ')') && d > 0 {
            d -= 1;
            if d == 0 {
                return None;
            }
        }
        j += 1;
    }
    proof {
        assert(line@.skip(j as int) =~= Seq::<char>::empty());
    }
    Some(d)
}

fn block_end_in(lines: &[&[char]], start: usize) -> (r: usize)
    ensures
        r == block_end(text::views(lines@), start as int),
{
    let ghost all = text::views(lines@);
    let total: usize = lines.len();
    let mut depth: u128 = 0;
    let mut i: usize = start;
    while i < total
        invariant
            total == lines@.len(),
            all == text::views(lines@),
            start <= i,
            i <= total || i == start,
            depth <= i * 0x1_0000_0000_0000_0000,
            block_end(all, start as int) == block_end_from(
                all,
                start as int,
                i as int,
                depth as int,
            ),
        decreases total - i,
    {
        let line = lines[i];
        let length: usize = line.len();
        proof {
            assert(all[i as int] == line@);
            assert(length < 0x1_0000_0000_0000_0000);
            assert(i < 0x1_0000_0000_0000_0000);
        }
        match line_depth(line, depth) {
            None => {
                return i;
            },
            Some(d) => {
                if d == 0 && i - start > 2 {
                    return i - 1;
                }
                depth = d;
            },
        }
        i += 1;
    }
    let last: usize = if total == 0 {
        0
    } else {
        total - 1
    };
    if last > 50 && start < last - 50 {
        start + 50
    } else {
        last
    }
}

/// The last line of the block that starts at a line.
pub fn find_block_end(lines: &[&str], start: usize) -> (r: usize)
    ensures
        r == block_end(text::views(lines@), start as int),
{
    let lists = text::char_lists(lines);
    let slices = text::slices_of(lists.as_slice());
    block_end_in(slices.as_slice(), start)
}

// ---------------------------------------------------------------- pieces of text
/// How often a byte occurs.
pub open spec fn byte_count(s: Seq<u8>, b: u8) -> nat
    decreases s.len(),
{
    if s.len() == 0 {
        0
    } else {
        byte_count(s.drop_last(), b) + (if s.last() == b {
            1nat
        } else {
            0
        })
    }
}

/// `bytecount::count`: how often the byte occurs in the slice.
pub assume_specification[ bytecount::count ](haystack: &[u8], needle: u8) -> (r: usize)
    ensures
        r == byte_count(haystack@, needle),
;

/// The text that `String::from_utf8_lossy` reads in bytes.
pub uninterp spec fn utf8_lossy(bytes: Seq<u8>) -> Seq<char>;

/// `String::from_utf8_lossy`: a function of the bytes; where they are the UTF-8
/// form of a text, that text. What stands for bytes that are not is left unsaid.
#[verifier::external_body]
fn decoded_lossy(bytes: &[u8]) -> (r: String)
    ensures
        r@ == utf8_lossy(bytes@),
        forall|s: Seq<char>| #[trigger] encode_utf8(s) == bytes@ ==> r@ == s,
{
    String::from_utf8_lossy(bytes).into_owned()
}

proof fn lemma_byte_count_split(s: Seq<u8>, b: u8, k: int)
    requires
        0 <= k <= s.len(),
    ensures
        byte_count(s, b) == byte_count(s.take(k), b) + byte_count(s.skip(k), b),
        byte_count(s, b) <= s.len(),
    decreases s.len(),
{
    if s.len() > 0 {
        let t = s.drop_last();
        if k < s.len() {
            lemma_byte_count_split(t, b, k);
            assert(t.take(k) =~= s.take(k));
            assert(s.skip(k).drop_last() =~= t.skip(k));
        } else {
            lemma_byte_count_split(t, b, t.len() as int);
            assert(s.take(k) =~= s);
            assert(s.skip(k) =~= Seq::<u8>::empty());
            assert(byte_count(t, b) <= t.len());
        }
    } else {
        assert(s.take(k) =~= s);
        assert(s.skip(k) =~= s);
    }
}

/// A piece of a text, in bytes.
#[derive(Debug, Clone, Copy)]
pub struct ContentCut {
    pub offset: usize,
    pub length: usize,
}

/// Whether the pieces start within the text and their ends can be counted.
pub open spec fn cuts_within(content: Seq<char>, cuts: Seq<ContentCut>) -> bool {
    &&& cuts.len() > 0 ==> text::byte_len(content) < usize::MAX
    &&& forall|i: int|
        #![trigger cuts[i]]
        0 <= i < cuts.len() ==> cuts[i].offset <= text::byte_len(content) && cuts[i].offset
            + cuts[i].length <= usize::MAX
}

/// The bytes of a piece.
pub open spec fn cut_bytes(bytes: Seq<u8>, cut: ContentCut) -> Seq<u8> {
    let end = cut.offset + cut.length;
    bytes.subrange(
        cut.offset as int,
        if end < bytes.len() {
            end
        } else {
            bytes.len() as int
        },
    )
}

/// The chunk that the `i`th piece of a text becomes.
pub open spec fn cut_chunk(
    path: Seq<char>,
    content: Seq<char>,
    cut: ContentCut,
    i: int,
) -> ChunkModel {
    let bytes = encode_utf8(content);
    let piece = cut_bytes(bytes, cut);
    let start_line = 1 + byte_count(bytes.take(cut.offset as int), 10u8);
    ChunkModel {
        file_path: path,
        symbol_name: path + "#chunk-"@ + text::decimal(i as nat),
        kind: ChunkKind::Module,
        start_line: start_line as int,
        end_line: (start_line + byte_count(piece, 10u8)) as int,
        content: utf8_lossy(piece),
        tokens: seq![],
        token_count: tokens::tokens_of(utf8_lossy(piece)).len() as int,
    }
}

// ---------------------------------------------------------------- extraction
/// The chunk of the lines from `start` to `end`.
pub open spec fn block_chunk(
    path: Seq<char>,
    lines: Seq<Seq<char>>,
    symbol: (Seq<char>, ChunkKind),
    start: int,
    end: int,
) -> ChunkModel {
    let block = text::join(lines.subrange(start, end + 1), "\n"@);
    ChunkModel {
        file_path: path,
        symbol_name: symbol.0,
        kind: symbol.1,
        start_line: start + 1,
        end_line: end + 1,
        content: block,
        tokens: seq![],
        token_count: tokens::tokens_of(block).len() as int,
    }
}

/// The chunks of the definitions from the `i`th line on.
pub open spec fn symbol_chunks(path: Seq<char>, lines: Seq<Seq<char>>, i: int) -> Seq<ChunkModel>
    decreases lines.len() - i,
{
    if i < 0 || i >= lines.len() {
        seq![]
    } else {
        match symbol_of(text::trim(lines[i])) {
            Some(symbol) => {
                let end = block_end(lines, i);
                if end < i || end >= lines.len() {
                    seq![]
                } else {
                    seq![block_chunk(path, lines, symbol, i, end)] + symbol_chunks(
                        path,
                        lines,
                        end + 1,
                    )
                }
            },
            None => symbol_chunks(path, lines, i + 1),
        }
    }
}

pub open spec fn at_most(a: int, b: int) -> int {
    if a < b {
        a
    } else {
        b
    }
}

/// The chunks of a text without definitions: its first fifty pieces, or its
/// first fifty lines where it has no pieces or more than two hundred.
pub open spec fn piece_chunks(
    path: Seq<char>,
    content: Seq<char>,
    cuts: Seq<ContentCut>,
) -> Seq<ChunkModel> {
    if 0 < cuts.len() <= 200 {
        Seq::new(
            at_most(50, cuts.len() as int) as nat,
            |i: int| cut_chunk(path, content, cuts[i], i),
        )
    } else {
        let lines = text::lines(content);
        seq![
            ChunkModel {
                file_path: path,
                symbol_name: path,
                kind: ChunkKind::Module,
                start_line: 1,
                end_line: lines.len() as int,
                content: text::join(lines.take(at_most(50, lines.len() as int)), "\n"@),
                tokens: seq![],
                token_count: tokens::tokens_of(content).len() as int,
            },
        ]
    }
}

/// The chunks of a file; `cuts` are the pieces of its text.
pub open spec fn chunks_of(
    path: Seq<char>,
    content: Seq<char>,
    cuts: Seq<ContentCut>,
) -> Seq<ChunkModel> {
    let found = symbol_chunks(path, text::lines(content), 0);
    if content.len() > 0 && found.len() == 0 {
        piece_chunks(path, content, cuts)
    } else {
        found
    }
}

/// The chunks of definitions lie within the text, in order and apart from each
/// other.
pub proof fn law_symbol_chunks(path: Seq<char>, lines: Seq<Seq<char>>, i: int)
    requires
        0 <= i,
    ensures
        forall|k: int|
            #![trigger symbol_chunks(path, lines, i)[k]]
            0 <= k < symbol_chunks(path, lines, i).len() ==> {
                let c = symbol_chunks(path, lines, i)[k];
                i < c.start_line <= c.end_line <= lines.len()
            },
        forall|k: int, m: int|
            #![trigger symbol_chunks(path, lines, i)[k], symbol_chunks(path, lines, i)[m]]
            0 <= k < m < symbol_chunks(path, lines, i).len() ==> symbol_chunks(
                path,
                lines,
                i,
            )[k].end_line < symbol_chunks(path, lines, i)[m].start_line,
    decreases lines.len() - i,
{
    if i < lines.len() {
        match symbol_of(text::trim(lines[i])) {
            Some(symbol) => {
                law_block_end(lines, i);
                let end = block_end(lines, i);
                law_symbol_chunks(path, lines, end + 1);
                let rest = symbol_chunks(path, lines, end + 1);
                let all = symbol_chunks(path, lines, i);
                assert(all == seq![block_chunk(path, lines, symbol, i, end)] + rest);
                assert forall|k: int|
                    #![trigger all[k]]
                    1 <= k < all.len() implies all[k] == rest[k - 1] by {}
                assert forall|k: int, m: int|
                    #![trigger all[k], all[m]]
                    0 <= k < m < all.len() implies all[k].end_line < all[m].start_line by {
                    assert(all[m] == rest[m - 1]);
                    if k > 0 {
                        assert(all[k] == rest[k - 1]);
                    }
                }
            },
            None => {
                law_symbol_chunks(path, lines, i + 1);
            },
        }
    }
}

/// Every text has a chunk, but for the empty one.
pub proof fn law_text_has_chunks(path: Seq<char>, content: Seq<char>, cuts: Seq<ContentCut>)
    ensures
        chunks_of(path, content, cuts).len() == 0 <==> content.len() == 0,
{
    if content.len() == 0 {
        assert(text::lines(content).len() == 0);
    }
}

fn cut_chunks(file_path: &str, content: &str, cuts: &[ContentCut]) -> (r: Vec<CodeChunk>)
    requires
        cuts_within(content@, cuts@),
        0 < cuts@.len() <= 200,
    ensures
        text::views(r@) == piece_chunks(file_path@, content@, cuts@),
{
    let bytes = content.as_bytes();
    let total: usize = bytes.len();
    let count: usize = if cuts.len() < 50 {
        cuts.len()
    } else {
        50
    };
    let ghost expected = piece_chunks(file_path@, content@, cuts@);
    let mut out: Vec<CodeChunk> = Vec::new();
    let mut i: usize = 0;
    while i < count
        invariant
            i <= count,
            count == at_most(50, cuts@.len() as int),
            0 < cuts@.len() <= 200,
            bytes@ == encode_utf8(content@),
            total == bytes@.len(),
            cuts_within(content@, cuts@),
            expected == piece_chunks(file_path@, content@, cuts@),
            text::views(out@) == expected.take(i as int),
        decreases count - i,
    {
        let cut = cuts[i];
        let end: usize = if cut.offset + cut.length < total {
            cut.offset + cut.length
        } else {
            total
        };
        let before = vstd::slice::slice_subrange(bytes, 0, cut.offset);
        let piece = vstd::slice::slice_subrange(bytes, cut.offset, end);
        proof {
            assert(before@ =~= bytes@.take(cut.offset as int));
            assert(piece@ == cut_bytes(bytes@, cut));
            let upto = bytes@.take(end as int);
            lemma_byte_count_split(upto, 10u8, cut.offset as int);
            assert(upto.take(cut.offset as int) =~= before@);
            assert(upto.skip(cut.offset as int) =~= piece@);
        }
        let text = decoded_lossy(piece);
        let token_count = tokens::tokenize(text.as_str()).len();
        let start_line: usize = 1 + bytecount::count(before, 10u8);
        let end_line: usize = start_line + bytecount::count(piece, 10u8);
        let mut symbol_name = file_path.to_string();
        symbol_name.push_str("#chunk-");
        text::push_number(&mut symbol_name, i);
        let chunk = CodeChunk {
            file_path: file_path.to_string(),
            symbol_name,
            kind: ChunkKind::Module,
            start_line,
            end_line,
            content: text,
            tokens: Vec::new(),
            token_count,
        };
        proof {
            assert(text::views(chunk.tokens@) =~= Seq::<Seq<char>>::empty());
            assert(chunk@ == cut_chunk(file_path@, content@, cut, i as int));
            text::lemma_views_push(out@, chunk);
            assert(expected.take(i + 1) =~= expected.take(i as int).push(chunk@));
        }
        out.push(chunk);
        i += 1;
    }
    proof {
        assert(expected.take(i as int) =~= expected);
    }
    out
}

fn block_of(
    file_path: &str,
    lines: &[&[char]],
    name: String,
    kind: ChunkKind,
    start: usize,
    end: usize,
) -> (r: CodeChunk)
    requires
        start <= end < lines@.len(),
    ensures
        r@ == block_chunk(
            file_path@,
            text::views(lines@),
            (name@, kind),
            start as int,
            end as int,
        ),
{
    let total: usize = lines.len();
    let part = vstd::slice::slice_subrange(lines, start, end + 1);
    proof {
        assert(text::views(part@) =~= text::views(lines@).subrange(start as int, end + 1));
    }
    let block = text::text_of(text::joined(part, "\n").as_slice());
    let token_count = tokens::tokenize(block.as_str()).len();
    let r = CodeChunk {
        file_path: file_path.to_string(),
        symbol_name: name,
        kind,
        start_line: start + 1,
        end_line: end + 1,
        content: block,
        tokens: Vec::new(),
        token_count,
    };
    proof {
        assert(text::views(r.tokens@) =~= Seq::<Seq<char>>::empty());
    }
    r
}

fn definition_chunks(file_path: &str, lines: &[&[char]]) -> (r: Vec<CodeChunk>)
    ensures
        text::views(r@) == symbol_chunks(file_path@, text::views(lines@), 0),
{
    let ghost all = text::views(lines@);
    let total: usize = lines.len();
    let mut out: Vec<CodeChunk> = Vec::new();
    let mut i: usize = 0;
    proof {
        assert(text::views(out@) + symbol_chunks(file_path@, all, 0) =~= symbol_chunks(
            file_path@,
            all,
            0,
        ));
    }
    while i < total
        invariant
            i <= total,
            total == lines@.len(),
            all == text::views(lines@),
            text::views(out@) + symbol_chunks(file_path@, all, i as int) == symbol_chunks(
                file_path@,
                all,
                0,
            ),
        decreases total - i,
    {
        let trimmed = text::trimmed(lines[i]);
        proof {
            assert(all[i as int] == lines@[i as int]@);
        }
        match symbol_in(trimmed) {
            Some((name, kind)) => {
                let end = block_end_in(lines, i);
                proof {
                    law_block_end(all, i as int);
                }
                let ghost sofar = text::views(out@);
                let ghost symbol = (name@, kind);
                let chunk = block_of(file_path, lines, name, kind, i, end);
                proof {
                    text::lemma_views_push(out@, chunk);
                    let rest = symbol_chunks(file_path@, all, end + 1);
                    assert(chunk@ == block_chunk(file_path@, all, symbol, i as int, end as int));
                    assert(sofar + (seq![chunk@] + rest) =~= sofar.push(chunk@) + rest);
                }
                out.push(chunk);
                i = end + 1;
            },
            None => {
                i += 1;
            },
        }
    }
    proof {
        assert(text::views(out@) + symbol_chunks(file_path@, all, i as int) =~= text::views(out@));
    }
    out
}

/// The chunks of a file; `cuts` are the pieces of its text.
pub fn extract_chunks(file_path: &str, content: &str, cuts: &[ContentCut]) -> (r: Vec<CodeChunk>)
    requires
        cuts_within(content@, cuts@),
    ensures
        text::views(r@) == chunks_of(file_path@, content@, cuts@),
{
    let chars = text::chars_of(content);
    let lines = text::line_list(chars.as_slice());
    let found = definition_chunks(file_path, lines.as_slice());
    if chars.len() == 0 || found.len() > 0 {
        return found;
    }
    if cuts.len() > 0 && cuts.len() <= 200 {
        return cut_chunks(file_path, content, cuts);
    }
    let total: usize = lines.len();
    let shown: usize = if total < 50 {
        total
    } else {
        50
    };
    let head = vstd::slice::slice_subrange(lines.as_slice(), 0, shown);
    proof {
        assert(text::views(head@) =~= text::views(lines@).take(shown as int));
    }
    let snippet = text::text_of(text::joined(head, "\n").as_slice());
    let token_count = tokens::tokenize(content).len();
    let chunk = CodeChunk {
        file_path: file_path.to_string(),
        symbol_name: file_path.to_string(),
        kind: ChunkKind::Module,
        start_line: 1,
        end_line: total,
        content: snippet,
        tokens: Vec::new(),
        token_count,
    };
    let mut out: Vec<CodeChunk> = Vec::new();
    out.push(chunk);
    proof {
        assert(text::views(chunk.tokens@) =~= Seq::<Seq<char>>::empty());
        assert(text::views(out@) =~= piece_chunks(file_path@, content@, cuts@));
    }
    out
}

// ---------------------------------------------------------------- what is indexed
pub open spec fn or_empty(s: Option<Seq<char>>) -> Seq<char> {
    match s {
        Some(t) => t,
        None => seq![],
    }
}

/// The text that is indexed for a chunk: its content, twice the stem of its
/// file's name and once the name of its directory.
pub open spec fn enriched(path: Seq<char>, content: Seq<char>) -> Seq<char> {
    let stem = or_empty(paths::file_stem(path));
    if stem.len() == 0 {
        content
    } else {
        content + " "@ + stem + " "@ + stem + " "@ + or_empty(paths::parent_name(path))
    }
}

/// The text that is indexed for a chunk.
pub fn enrich_for_bm25(chunk: &CodeChunk) -> (r: String)
    ensures
        r@ == enriched(chunk.file_path@, chunk.content@),
{
    let path = text::chars_of(chunk.file_path.as_str());
    match paths::file_stem_of(path.as_slice()) {
        Some(stem) => {
            if stem.len() == 0 {
                return chunk.content.clone();
            }
            let name = text::text_of(stem);
            let mut out = chunk.content.clone();
            out.push_str(" ");
            out.push_str(name.as_str());
            out.push_str(" ");
            out.push_str(name.as_str());
            out.push_str(" ");
            match paths::parent_name_of(path.as_slice()) {
                Some(dir) => {
                    let parent = text::text_of(dir);
                    out.push_str(parent.as_str());
                },
                None => {
                    proof {
                        assert(out@ + Seq::<char>::empty() =~= out@);
                    }
                },
            }
            out
        },
        None => chunk.content.clone(),
    }
}

// ---------------------------------------------------------------- laws of blocks
/// What a line does to the number of open brackets: `{` and `(` open one, `}` and `)`
/// close one where one is open and end the block where it is the last, anything else
/// changes nothing; and the parts of a line count one after the other.
pub proof fn law_brackets(a: Seq<char>, b: Seq<char>, c: char, depth: int)
    requires
        depth >= 0,
    ensures
        depth_after(Seq::<char>::empty(), depth) == Some(depth),
        depth_after(a + b, depth) == (match depth_after(a, depth) {
            Some(d) => depth_after(b, d),
            None => None,
        }),
        c == '{' || c == '(' ==> depth_after(seq![c], depth) == Some(depth + 1),
        (c == '}' || c == ')') && depth > 1 ==> depth_after(seq![c], depth) == Some(depth - 1),
        (c == '}' || c == ')') && depth == 1 ==> depth_after(seq![c], depth) is None,
        (c == '}' || c == ')') && depth == 0 ==> depth_after(seq![c], depth) == Some(0int),
        c != '{' && c != '(' && c != '}' && c != ')' ==> depth_after(seq![c], depth) == Some(depth),
{
    lemma_depth_sum(a, b, depth);
    assert(seq![c].skip(1) =~= Seq::<char>::empty());
    reveal_with_fuel(depth_after, 2);
}

proof fn lemma_depth_sum(a: Seq<char>, b: Seq<char>, depth: int)
    ensures
        depth_after(a + b, depth) == (match depth_after(a, depth) {
            Some(d) => depth_after(b, d),
            None => None,
        }),
    decreases a.len(),
{
    if a.len() == 0 {
        assert(a + b =~= b);
    } else {
        assert((a + b).skip(1) =~= a.skip(1) + b);
        assert((a + b)[0] == a[0]);
        lemma_depth_sum(a.skip(1), b, depth + 1);
        lemma_depth_sum(a.skip(1), b, depth);
        lemma_depth_sum(a.skip(1), b, depth - 1);
    }
}

/// Whether the first lines of a block leave the given numbers of brackets open, and
/// the block goes on behind them: none of them closes the last bracket, and from the
/// fourth on a bracket is open.
pub open spec fn leaves_open(lines: Seq<Seq<char>>, start: int, depths: Seq<int>) -> bool {
    &&& depths.len() > 0
    &&& depths[0] == 0
    &&& start + depths.len() - 1 <= lines.len()
    &&& forall|k: int|
        #![trigger depths[k]]
        0 <= k < depths.len() - 1 ==> depth_after(lines[start + k], depths[k]) == Some(
            depths[k + 1],
        )
    &&& forall|k: int| #![trigger depths[k]] 4 <= k < depths.len() ==> depths[k] > 0
}

/// Where a block ends: at the line that closes its last bracket; where no bracket is
/// open behind its fourth line or a later one, ahead of that line; and where the text
/// ends first, with the text or fifty lines behind its start.
pub proof fn law_block_ends(lines: Seq<Seq<char>>, start: int, depths: Seq<int>)
    requires
        0 <= start,
        leaves_open(lines, start, depths),
    ensures
        ({
            let n = depths.len() - 1;
            let i = start + n;
            &&& i < lines.len() && depth_after(lines[i], depths[n]) is None ==> block_end(
                lines,
                start,
            ) == i
            &&& i < lines.len() && n >= 3 && depth_after(lines[i], depths[n]) == Some(0int)
                ==> block_end(lines, start) == i - 1
            &&& i == lines.len() && start + 50 < lines.len() - 1 ==> block_end(lines, start)
                == start + 50
            &&& i == lines.len() && 0 < lines.len() <= start + 51 ==> block_end(lines, start)
                == lines.len() - 1
        }),
{
    lemma_block_goes_on(lines, start, depths, depths.len() - 1);
}

proof fn lemma_block_goes_on(lines: Seq<Seq<char>>, start: int, depths: Seq<int>, n: int)
    requires
        0 <= start,
        leaves_open(lines, start, depths),
        0 <= n < depths.len(),
    ensures
        block_end(lines, start) == block_end_from(lines, start, start + n, depths[n]),
    decreases n,
{
    if n > 0 {
        lemma_block_goes_on(lines, start, depths, n - 1);
        assert(depth_after(lines[start + n - 1], depths[n - 1]) == Some(depths[n - 1 + 1]));
    }
}

// ---------------------------------------------------------------- laws of chunks
proof fn lemma_trim_twice(s: Seq<char>)
    ensures
        text::trim(text::trim(s)) == text::trim(s),
{
    text::lemma_trim_ends(s);
    let none = Seq::<char>::empty();
    text::law_trim(none, text::trim(s), none);
    assert(none + text::trim(s) + none =~= text::trim(s));
}

/// Whether a line lies within a chunk; lines count from one.
pub open spec fn covers(c: ChunkModel, line: int) -> bool {
    c.start_line <= line <= c.end_line
}

/// Every line of a text with a definition lies within a chunk. Where it lies within
/// none that starts earlier, a chunk starts there, with the name and kind of the
/// definition.
pub proof fn law_definitions_have_chunks(
    path: Seq<char>,
    content: Seq<char>,
    cuts: Seq<ContentCut>,
    k: int,
)
    requires
        0 <= k < text::lines(content).len(),
        symbol_of(text::lines(content)[k]) is Some,
    ensures
        exists|m: int|
            0 <= m < chunks_of(path, content, cuts).len() && covers(
                #[trigger] chunks_of(path, content, cuts)[m],
                k + 1,
            ),
        (forall|m: int|
            0 <= m < chunks_of(path, content, cuts).len() && (#[trigger] chunks_of(
                path,
                content,
                cuts,
            )[m]).start_line < k + 1 ==> chunks_of(path, content, cuts)[m].end_line < k + 1) ==> (
        exists|m: int|
            0 <= m < chunks_of(path, content, cuts).len() && {
                let c = #[trigger] chunks_of(path, content, cuts)[m];
                c.start_line == k + 1 && symbol_of(text::lines(content)[k]) == Some(
                    (c.symbol_name, c.kind),
                )
            }),
{
    let lines = text::lines(content);
    lemma_definition_covered(path, lines, 0, k);
    let found = symbol_chunks(path, lines, 0);
    let m = choose|m: int| 0 <= m < found.len() && covers(#[trigger] found[m], k + 1);
    assert(content.len() > 0) by {
        if content.len() == 0 {
            assert(lines.len() == 0);
        }
    }
    assert(chunks_of(path, content, cuts) == found);
    assert(covers(chunks_of(path, content, cuts)[m], k + 1));
    if forall|m: int|
        0 <= m < chunks_of(path, content, cuts).len() && (#[trigger] chunks_of(
            path,
            content,
            cuts,
        )[m]).start_line < k + 1 ==> chunks_of(path, content, cuts)[m].end_line < k + 1 {
        assert(found[m].start_line == k + 1);
        lemma_chunk_starts(path, lines, 0, m);
        assert(chunks_of(path, content, cuts)[m].start_line == k + 1);
    }
}

proof fn lemma_definition_covered(path: Seq<char>, lines: Seq<Seq<char>>, i: int, k: int)
    requires
        0 <= i <= k < lines.len(),
        symbol_of(lines[k]) is Some,
    ensures
        exists|m: int|
            0 <= m < symbol_chunks(path, lines, i).len() && covers(
                #[trigger] symbol_chunks(path, lines, i)[m],
                k + 1,
            ),
    decreases lines.len() - i,
{
    lemma_trim_twice(lines[i]);
    let all = symbol_chunks(path, lines, i);
    match symbol_of(text::trim(lines[i])) {
        Some(symbol) => {
            law_block_end(lines, i);
            let end = block_end(lines, i);
            if k <= end {
                assert(covers(all[0], k + 1));
            } else {
                lemma_definition_covered(path, lines, end + 1, k);
                let rest = symbol_chunks(path, lines, end + 1);
                let m = choose|m: int| 0 <= m < rest.len() && covers(#[trigger] rest[m], k + 1);
                assert(all[m + 1] == rest[m]);
            }
        },
        None => {
            lemma_definition_covered(path, lines, i + 1, k);
        },
    }
}

proof fn lemma_chunk_starts(path: Seq<char>, lines: Seq<Seq<char>>, i: int, m: int)
    requires
        0 <= i,
        0 <= m < symbol_chunks(path, lines, i).len(),
    ensures
        ({
            let c = symbol_chunks(path, lines, i)[m];
            &&& i <= c.start_line - 1 < lines.len()
            &&& symbol_of(lines[c.start_line - 1]) == Some((c.symbol_name, c.kind))
            &&& c.end_line == block_end(lines, c.start_line - 1) + 1
            &&& c.file_path == path
            &&& c.tokens.len() == 0
            &&& c.content == text::join(lines.subrange(c.start_line - 1, c.end_line), "\n"@)
            &&& c.token_count == tokens::tokens_of(c.content).len()
        }),
    decreases lines.len() - i,
{
    if i < lines.len() {
        lemma_trim_twice(lines[i]);
        let all = symbol_chunks(path, lines, i);
        match symbol_of(text::trim(lines[i])) {
            Some(symbol) => {
                law_block_end(lines, i);
                let end = block_end(lines, i);
                if m > 0 {
                    lemma_chunk_starts(path, lines, end + 1, m - 1);
                    assert(all[m] == symbol_chunks(path, lines, end + 1)[m - 1]);
                }
            },
            None => {
                lemma_chunk_starts(path, lines, i + 1, m);
            },
        }
    }
}

/// In a text with a definition each chunk starts at one, with its name and kind, goes
/// to the end of its block, and holds the lines of the block and no others; the chunks
/// go up and do not overlap.
pub proof fn law_chunks_are_definitions(
    path: Seq<char>,
    content: Seq<char>,
    cuts: Seq<ContentCut>,
    k: int,
    m: int,
)
    requires
        0 <= k < text::lines(content).len(),
        symbol_of(text::lines(content)[k]) is Some,
        0 <= m < chunks_of(path, content, cuts).len(),
    ensures
        ({
            let lines = text::lines(content);
            let c = chunks_of(path, content, cuts)[m];
            &&& 1 <= c.start_line <= c.end_line <= lines.len()
            &&& symbol_of(lines[c.start_line - 1]) == Some((c.symbol_name, c.kind))
            &&& c.end_line == block_end(lines, c.start_line - 1) + 1
            &&& c.file_path == path
            &&& c.content == text::join(lines.subrange(c.start_line - 1, c.end_line), "\n"@)
            &&& c.token_count == tokens::tokens_of(c.content).len()
        }),
        forall|n: int|
            #![trigger chunks_of(path, content, cuts)[n]]
            m < n < chunks_of(path, content, cuts).len() ==> chunks_of(
                path,
                content,
                cuts,
            )[m].end_line < chunks_of(path, content, cuts)[n].start_line,
{
    let lines = text::lines(content);
    law_definitions_have_chunks(path, content, cuts, k);
    lemma_definition_covered(path, lines, 0, k);
    let found = symbol_chunks(path, lines, 0);
    assert(found.len() > 0);
    assert(chunks_of(path, content, cuts) == found);
    lemma_chunk_starts(path, lines, 0, m);
    law_symbol_chunks(path, lines, 0);
    assert(found[m].end_line <= lines.len());
}

/// How often a byte occurs.
pub proof fn law_byte_count(s: Seq<u8>, b: u8)
    ensures
        byte_count(s, b) == s.filter(|x: u8| x == b).len(),
    decreases s.len(),
{
    reveal(Seq::filter);
    if s.len() > 0 {
        law_byte_count(s.drop_last(), b);
    }
}

/// A text without a definition is cut at the given pieces, the first fifty of them:
/// each is a chunk with the text of its bytes, numbered from zero, whose lines are
/// counted by the line feeds ahead of it and within it. Without pieces, or with more
/// than two hundred, the chunk holds the first fifty lines, and counts the lines and
/// the tokens of the whole text.
pub proof fn law_text_without_definitions(
    path: Seq<char>,
    content: Seq<char>,
    cuts: Seq<ContentCut>,
    i: int,
)
    requires
        content.len() > 0,
        forall|k: int|
            #![trigger text::lines(content)[k]]
            0 <= k < text::lines(content).len() ==> symbol_of(text::lines(content)[k]) is None,
        cuts_within(content, cuts),
    ensures
        cuts.len() == 0 || cuts.len() > 200 ==> chunks_of(path, content, cuts).len() == 1,
        0 < cuts.len() <= 50 ==> chunks_of(path, content, cuts).len() == cuts.len(),
        50 < cuts.len() <= 200 ==> chunks_of(path, content, cuts).len() == 50,
        0 <= i < chunks_of(path, content, cuts).len() ==> ({
            let c = chunks_of(path, content, cuts)[i];
            let lines = text::lines(content);
            let bytes = encode_utf8(content);
            let feed = |x: u8| x == 10;
            &&& c.file_path == path
            &&& c.kind == ChunkKind::Module
            &&& cuts.len() == 0 || cuts.len() > 200 ==> {
                &&& c.symbol_name == path
                &&& c.start_line == 1
                &&& c.end_line == lines.len()
                &&& c.token_count == tokens::tokens_of(content).len()
                &&& lines.len() <= 50 ==> c.content == text::join(lines, "\n"@)
                &&& lines.len() > 50 ==> c.content == text::join(lines.take(50), "\n"@)
            }
            &&& 0 < cuts.len() <= 200 ==> {
                let start = cuts[i].offset as int;
                let given = start + cuts[i].length;
                let end = if given <= bytes.len() {
                    given
                } else {
                    bytes.len() as int
                };
                &&& c.symbol_name == path + "#chunk-"@ + text::decimal(i as nat)
                &&& c.start_line == 1 + bytes.subrange(0, start).filter(feed).len()
                &&& c.end_line == c.start_line + bytes.subrange(start, end).filter(feed).len()
                &&& c.content == utf8_lossy(bytes.subrange(start, end))
                &&& c.token_count == tokens::tokens_of(c.content).len()
            }
        }),
{
    let lines = text::lines(content);
    lemma_no_definition(path, lines, 0);
    assert(chunks_of(path, content, cuts) == piece_chunks(path, content, cuts));
    assert(lines.take(lines.len() as int) =~= lines);
    if 0 < cuts.len() <= 200 && 0 <= i < chunks_of(path, content, cuts).len() {
        let bytes = encode_utf8(content);
        let start = cuts[i].offset as int;
        assert(bytes.take(start) =~= bytes.subrange(0, start));
        law_byte_count(bytes.take(start), 10u8);
        law_byte_count(cut_bytes(bytes, cuts[i]), 10u8);
        let feed = |x: u8| x == 10;
        assert(feed =~= |x: u8| x == 10u8);
    }
}

proof fn lemma_no_definition(path: Seq<char>, lines: Seq<Seq<char>>, i: int)
    requires
        0 <= i,
        forall|k: int| #![trigger lines[k]] 0 <= k < lines.len() ==> symbol_of(lines[k]) is None,
    ensures
        symbol_chunks(path, lines, i).len() == 0,
    decreases lines.len() - i,
{
    if i < lines.len() {
        lemma_trim_twice(lines[i]);
        lemma_no_definition(path, lines, i + 1);
    }
}

// ---------------------------------------------------------------- laws of definitions
/// Whether a line gives a definition of a name: the keywords, behind blanks, then the
/// name, which ends where no letter, digit or underscore follows.
pub open spec fn is_definition(
    line: Seq<char>,
    keywords: Seq<char>,
    name: Seq<char>,
    ahead: Seq<char>,
    rest: Seq<char>,
) -> bool {
    &&& line == ahead + keywords + name + rest
    &&& text::is_blank(ahead)
    &&& text::is_word(name)
    &&& tokens::is_token(name)
    &&& rest.len() > 0 ==> !text::alphanumeric(rest[0]) && rest[0] != '_'
}

/// Two texts that differ in a character do not start alike.
proof fn lemma_apart(t: Seq<char>, d: int)
    ensures
        forall|p: Seq<char>|
            0 <= d < p.len() && d < t.len() && #[trigger] p[d] != t[d] ==> !text::starts_with(t, p),
{
    assert forall|p: Seq<char>|
        0 <= d < p.len() && d < t.len() && #[trigger] p[d] != t[d] implies !text::starts_with(
        t,
        p,
    ) by {
        if text::starts_with(t, p) {
            assert(t.take(p.len() as int)[d] == t[d]);
        }
    }
}

/// The definition that fits a line, where those before it in the table do not.
proof fn lemma_fits(t: Seq<char>, i: int, k: int)
    requires
        0 <= i <= k < definitions().len(),
        forall|j: int|
            i <= j < k ==> !text::starts_with(t, #[trigger] definitions()[j].0),
        defines(t, definitions()[k].0),
    ensures
        definition_from(t, i) == Some(
            (leading_name(t.skip(definitions()[k].0.len() as int)), definitions()[k].1),
        ),
    decreases k - i,
{
    if i < k {
        assert(!text::starts_with(t, definitions()[i].0));
        lemma_fits(t, i + 1, k);
    }
}

/// What trimming leaves of a line with a definition, and the name that starts behind
/// its keywords.
proof fn lemma_definition(
    line: Seq<char>,
    keywords: Seq<char>,
    name: Seq<char>,
    ahead: Seq<char>,
    rest: Seq<char>,
)
    requires
        is_definition(line, keywords, name, ahead, rest),
        keywords.len() > 0,
        !text::is_space(keywords[0]),
    ensures
        text::starts_with(text::trim(line), keywords),
        leading_name(text::trim(line).skip(keywords.len() as int)) == name,
        defines(text::trim(line), keywords),
{
    text::lemma_tail_len(rest, text::spaces());
    let n = rest.len() - text::tail_len(rest, text::spaces());
    let kept = rest.take(n);
    let behind = rest.skip(n);
    let body = keywords + name + kept;
    assert forall|i: int| 0 <= i < behind.len() implies text::is_space(#[trigger] behind[i]) by {
        assert(text::spaces()(rest[n + i]));
    }
    if n > 0 {
        assert(!text::spaces()(rest[n - 1]));
        assert(body.last() == rest[n - 1]);
    } else {
        assert(body.last() == name.last());
        assert(name[name.len() - 1] == name.last());
    }
    assert(body[0] == keywords[0]);
    text::law_trim(ahead, body, behind);
    assert(ahead + body + behind =~= line);
    assert(body.take(keywords.len() as int) =~= keywords);
    let t = body.skip(keywords.len() as int);
    assert(t =~= name + kept);
    assert forall|i: int| 0 <= i < name.len() implies tokens::token_chars()(#[trigger] t[i]) by {
        assert(t[i] == name[i]);
    }
    if name.len() < t.len() {
        assert(t[name.len() as int] == rest[0]);
    }
    text::lemma_run_len_is(t, tokens::token_chars(), name.len() as int);
    assert(t.take(name.len() as int) =~= name);
}

/// A line that starts with the keywords of a definition starts with those of no earlier
/// one in the table.
proof fn lemma_first_fit(t: Seq<char>, k: int)
    requires
        0 <= k < definitions().len(),
        k != 22,
        text::starts_with(t, definitions()[k].0),
    ensures
        forall|j: int| 0 <= j < k ==> !text::starts_with(t, #[trigger] definitions()[j].0),
{
    reveal_strlit("pub async fn ");
    reveal_strlit("async fn ");
    reveal_strlit("pub fn ");
    reveal_strlit("fn ");
    reveal_strlit("pub struct ");
    reveal_strlit("struct ");
    reveal_strlit("pub enum ");
    reveal_strlit("enum ");
    reveal_strlit("impl ");
    reveal_strlit("pub trait ");
    reveal_strlit("trait ");
    reveal_strlit("export function ");
    reveal_strlit("export async function ");
    reveal_strlit("export default function ");
    reveal_strlit("function ");
    reveal_strlit("async function ");
    reveal_strlit("export class ");
    reveal_strlit("class ");
    reveal_strlit("export interface ");
    reveal_strlit("interface ");
    reveal_strlit("def ");
    reveal_strlit("async def ");
    reveal_strlit("func ");
    assert(definitions()[0] == ("pub async fn "@, ChunkKind::Function));
    assert(definitions()[1] == ("async fn "@, ChunkKind::Function));
    assert(definitions()[2] == ("pub fn "@, ChunkKind::Function));
    assert(definitions()[3] == ("fn "@, ChunkKind::Function));
    assert(definitions()[4] == ("pub struct "@, ChunkKind::Struct));
    assert(definitions()[5] == ("struct "@, ChunkKind::Struct));
    assert(definitions()[6] == ("pub enum "@, ChunkKind::Struct));
    assert(definitions()[7] == ("enum "@, ChunkKind::Struct));
    assert(definitions()[8] == ("impl "@, ChunkKind::Impl));
    assert(definitions()[9] == ("pub trait "@, ChunkKind::Struct));
    assert(definitions()[10] == ("trait "@, ChunkKind::Struct));
    assert(definitions()[11] == ("export function "@, ChunkKind::Function));
    assert(definitions()[12] == ("export async function "@, ChunkKind::Function));
    assert(definitions()[13] == ("export default function "@, ChunkKind::Function));
    assert(definitions()[14] == ("function "@, ChunkKind::Function));
    assert(definitions()[15] == ("async function "@, ChunkKind::Function));
    assert(definitions()[16] == ("export class "@, ChunkKind::Class));
    assert(definitions()[17] == ("class "@, ChunkKind::Class));
    assert(definitions()[18] == ("export interface "@, ChunkKind::Struct));
    assert(definitions()[19] == ("interface "@, ChunkKind::Struct));
    assert(definitions()[20] == ("def "@, ChunkKind::Function));
    assert(definitions()[21] == ("async def "@, ChunkKind::Function));
    assert(definitions()[22] == ("class "@, ChunkKind::Class));
    assert(definitions()[23] == ("func "@, ChunkKind::Function));
    lemma_apart(t, 0);
    lemma_apart(t, 1);
    lemma_apart(t, 4);
    lemma_apart(t, 6);
    lemma_apart(t, 7);
    let p = definitions()[k].0;
    let u = t.take(p.len() as int);
    assert(u[0] == t[0] && u[1] == t[1] && u[2] == t[2]);
    if p.len() > 4 {
        assert(u[4] == t[4]);
    }
    if p.len() > 6 {
        assert(u[6] == t[6]);
    }
    if p.len() > 7 {
        assert(u[7] == t[7]);
    }
    assert forall|j: int| 0 <= j < k implies !text::starts_with(
        t,
        #[trigger] definitions()[j].0,
    ) by {
        let q = definitions()[j].0;
        assert(q[0] != t[0] || q[1] != t[1] || (q.len() > 4 && p.len() > 4 && q[4] != t[4]) || (
        q.len() > 6 && p.len() > 6 && q[6] != t[6]) || (q.len() > 7 && p.len() > 7 && q[7]
            != t[7]));
    }
}

/// What a line defines: behind `fn`, `function`, `def` or `func`, also with `pub`,
/// `async` or `export` ahead, a function; behind `struct`, `enum`, `trait` or
/// `interface`, a type; behind `impl`, an implementation; behind `class`, a class; with
/// the name that follows.
pub proof fn law_definition_is_detected(
    line: Seq<char>,
    keywords: Seq<char>,
    name: Seq<char>,
    ahead: Seq<char>,
    rest: Seq<char>,
)
    requires
        is_definition(line, keywords, name, ahead, rest),
    ensures
        keywords == "pub async fn "@ ==> symbol_of(line) == Some((name, ChunkKind::Function)),
        keywords == "async fn "@ ==> symbol_of(line) == Some((name, ChunkKind::Function)),
        keywords == "pub fn "@ ==> symbol_of(line) == Some((name, ChunkKind::Function)),
        keywords == "fn "@ ==> symbol_of(line) == Some((name, ChunkKind::Function)),
        keywords == "export function "@ ==> symbol_of(line) == Some((name, ChunkKind::Function)),
        keywords == "export async function "@ ==> symbol_of(line) == Some((name, ChunkKind::Function)),
        keywords == "export default function "@ ==> symbol_of(line) == Some((name, ChunkKind::Function)),
        keywords == "function "@ ==> symbol_of(line) == Some((name, ChunkKind::Function)),
        keywords == "async function "@ ==> symbol_of(line) == Some((name, ChunkKind::Function)),
        keywords == "def "@ ==> symbol_of(line) == Some((name, ChunkKind::Function)),
        keywords == "async def "@ ==> symbol_of(line) == Some((name, ChunkKind::Function)),
        keywords == "func "@ ==> symbol_of(line) == Some((name, ChunkKind::Function)),
        keywords == "pub struct "@ ==> symbol_of(line) == Some((name, ChunkKind::Struct)),
        keywords == "struct "@ ==> symbol_of(line) == Some((name, ChunkKind::Struct)),
        keywords == "pub enum "@ ==> symbol_of(line) == Some((name, ChunkKind::Struct)),
        keywords == "enum "@ ==> symbol_of(line) == Some((name, ChunkKind::Struct)),
        keywords == "pub trait "@ ==> symbol_of(line) == Some((name, ChunkKind::Struct)),
        keywords == "trait "@ ==> symbol_of(line) == Some((name, ChunkKind::Struct)),
        keywords == "export interface "@ ==> symbol_of(line) == Some((name, ChunkKind::Struct)),
        keywords == "interface "@ ==> symbol_of(line) == Some((name, ChunkKind::Struct)),
        keywords == "impl "@ ==> symbol_of(line) == Some((name, ChunkKind::Impl)),
        keywords == "export class "@ ==> symbol_of(line) == Some((name, ChunkKind::Class)),
        keywords == "class "@ ==> symbol_of(line) == Some((name, ChunkKind::Class)),
{
    reveal_strlit("pub async fn ");
    reveal_strlit("async fn ");
    reveal_strlit("pub fn ");
    reveal_strlit("fn ");
    reveal_strlit("pub struct ");
    reveal_strlit("struct ");
    reveal_strlit("pub enum ");
    reveal_strlit("enum ");
    reveal_strlit("impl ");
    reveal_strlit("pub trait ");
    reveal_strlit("trait ");
    reveal_strlit("export function ");
    reveal_strlit("export async function ");
    reveal_strlit("export default function ");
    reveal_strlit("function ");
    reveal_strlit("async function ");
    reveal_strlit("export class ");
    reveal_strlit("class ");
    reveal_strlit("export interface ");
    reveal_strlit("interface ");
    reveal_strlit("def ");
    reveal_strlit("async def ");
    reveal_strlit("func ");
    lemma_detected(0, line, name, ahead, rest);
    lemma_detected(1, line, name, ahead, rest);
    lemma_detected(2, line, name, ahead, rest);
    lemma_detected(3, line, name, ahead, rest);
    lemma_detected(4, line, name, ahead, rest);
    lemma_detected(5, line, name, ahead, rest);
    lemma_detected(6, line, name, ahead, rest);
    lemma_detected(7, line, name, ahead, rest);
    lemma_detected(8, line, name, ahead, rest);
    lemma_detected(9, line, name, ahead, rest);
    lemma_detected(10, line, name, ahead, rest);
    lemma_detected(11, line, name, ahead, rest);
    lemma_detected(12, line, name, ahead, rest);
    lemma_detected(13, line, name, ahead, rest);
    lemma_detected(14, line, name, ahead, rest);
    lemma_detected(15, line, name, ahead, rest);
    lemma_detected(16, line, name, ahead, rest);
    lemma_detected(17, line, name, ahead, rest);
    lemma_detected(18, line, name, ahead, rest);
    lemma_detected(19, line, name, ahead, rest);
    lemma_detected(20, line, name, ahead, rest);
    lemma_detected(21, line, name, ahead, rest);
    lemma_detected(23, line, name, ahead, rest);
}

proof fn lemma_detected(
    k: int,
    line: Seq<char>,
    name: Seq<char>,
    ahead: Seq<char>,
    rest: Seq<char>,
)
    requires
        0 <= k < definitions().len(),
        k != 22,
        definitions()[k].0.len() > 0,
        !text::is_space(definitions()[k].0[0]),
    ensures
        is_definition(line, definitions()[k].0, name, ahead, rest) ==> symbol_of(line) == Some(
            (name, definitions()[k].1),
        ),
{
    let keywords = definitions()[k].0;
    if is_definition(line, keywords, name, ahead, rest) {
        lemma_definition(line, keywords, name, ahead, rest);
        let t = text::trim(line);
        lemma_first_fit(t, k);
        lemma_fits(t, 0, k);
    }
}

proof fn lemma_defined(t: Seq<char>, i: int) -> (k: int)
    requires
        0 <= i,
        definition_from(t, i) is Some,
    ensures
        i <= k < definitions().len(),
        definition_from(t, i) == Some(
            (leading_name(t.skip(definitions()[k].0.len() as int)), definitions()[k].1),
        ),
        defines(t, definitions()[k].0),
    decreases definitions().len() - i,
{
    if defines(t, definitions()[i].0) {
        i
    } else {
        lemma_defined(t, i + 1)
    }
}

/// Nothing else is a definition: a line that defines something starts, behind blanks,
/// with the keywords and the name.
pub proof fn law_detected_is_definition(line: Seq<char>, name: Seq<char>, kind: ChunkKind)
    requires
        symbol_of(line) == Some((name, kind)),
    ensures
        ({
            let t = text::trim(line);
            &&& tokens::is_token(name)
            &&& match kind {
                ChunkKind::Function => {
                    ||| text::starts_with(t, "pub async fn "@ + name)
                    ||| text::starts_with(t, "async fn "@ + name)
                    ||| text::starts_with(t, "pub fn "@ + name)
                    ||| text::starts_with(t, "fn "@ + name)
                    ||| text::starts_with(t, "export function "@ + name)
                    ||| text::starts_with(t, "export async function "@ + name)
                    ||| text::starts_with(t, "export default function "@ + name)
                    ||| text::starts_with(t, "function "@ + name)
                    ||| text::starts_with(t, "async function "@ + name)
                    ||| text::starts_with(t, "def "@ + name)
                    ||| text::starts_with(t, "async def "@ + name)
                    ||| text::starts_with(t, "func "@ + name)
                },
                ChunkKind::Struct => {
                    ||| text::starts_with(t, "pub struct "@ + name)
                    ||| text::starts_with(t, "struct "@ + name)
                    ||| text::starts_with(t, "pub enum "@ + name)
                    ||| text::starts_with(t, "enum "@ + name)
                    ||| text::starts_with(t, "pub trait "@ + name)
                    ||| text::starts_with(t, "trait "@ + name)
                    ||| text::starts_with(t, "export interface "@ + name)
                    ||| text::starts_with(t, "interface "@ + name)
                },
                ChunkKind::Impl => {
                    ||| text::starts_with(t, "impl "@ + name)
                },
                ChunkKind::Class => {
                    ||| text::starts_with(t, "export class "@ + name)
                    ||| text::starts_with(t, "class "@ + name)
                },
                _ => false,
            }
        }),
{
    let t = text::trim(line);
    let k = lemma_defined(t, 0);
    let keywords = definitions()[k].0;
    let u = t.skip(keywords.len() as int);
    assert(name == leading_name(u));
    text::lemma_run_len(u, tokens::token_chars());
    assert forall|i: int| 0 <= i < name.len() implies text::alphanumeric(#[trigger] name[i])
        || name[i] == '_' by {
        assert(tokens::token_chars()(u[i]));
    }
    let n = keywords.len() as int;
    assert(t.take((keywords + name).len() as int) =~= t.take(n) + u.take(name.len() as int));
    assert(text::starts_with(t, keywords + name));
}

/// A chunk is found under the words of its content, the stem of its file's name, twice,
/// and the name of its directory.
pub proof fn law_enriched(
    root: Seq<char>,
    dir: Seq<char>,
    stem: Seq<char>,
    ext: Seq<char>,
    content: Seq<char>,
)
    requires
        !dir.contains('/'),
        dir.len() > 0,
        dir != "."@,
        dir != ".."@,
        !stem.contains('/'),
        stem.len() > 0,
        !ext.contains('/'),
        !ext.contains('.'),
        stem + seq!['.'] + ext != ".."@,
    ensures
        enriched(root + seq!['/'] + dir + seq!['/'] + stem + seq!['.'] + ext, content) == content
            + " "@ + stem + " "@ + stem + " "@ + dir,
        enriched(stem + seq!['.'] + ext, content) == content + " "@ + stem + " "@ + stem + " "@,
        enriched(Seq::<char>::empty(), content) == content,
{
    let name = stem + seq!['.'] + ext;
    let above = root + seq!['/'] + dir;
    let path = above + seq!['/'] + name;
    reveal_strlit(".");
    assert(!name.contains('/')) by {
        if name.contains('/') {
            let i = choose|i: int| 0 <= i < name.len() && name[i] == '/';
            if i < stem.len() {
                assert(stem[i] == '/');
            } else if i > stem.len() {
                assert(ext[i - stem.len() - 1] == '/');
            }
        }
    }
    assert(name.len() >= 2);
    assert(path =~= root + seq!['/'] + dir + seq!['/'] + stem + seq!['.'] + ext);
    paths::law_file_name(root, dir);
    paths::law_file_name(above, name);
    paths::law_extension(path, stem, ext);
    paths::law_extension(name, stem, ext);
    let short = content + " "@ + stem + " "@ + stem + " "@;
    assert(short + Seq::<char>::empty() =~= short);
}

/// A chunk of a file without a name is found under its content alone; any other is found
/// under the stem of the name too, twice, and that of its directory, where it has one.
pub proof fn law_enriched_text(path: Seq<char>, content: Seq<char>, stem: Seq<char>)
    ensures
        paths::file_name(path) is None ==> enriched(path, content) == content,
        paths::file_stem(path) == Some(stem) && stem.len() > 0 ==> enriched(path, content) == content
            + " "@ + stem + " "@ + stem + " "@ + (match paths::parent_name(path) {
            Some(dir) => dir,
            None => seq![],
        }),
{
}

} // verus!
