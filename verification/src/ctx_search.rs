//! Searching files for a regular expression, with a compact report.
//!
//! A search goes in steps: [`handle`] starts it, [`SearchRun::select`] says which
//! files to read, [`SearchRun::matching_lines`] finds what matches in one,
//! [`SearchRun::record`] keeps it, and [`SearchRun::report`] and
//! [`finished_report`] make the answer.
use vstd::prelude::*;

use crate::bm25_index;
use crate::chunks;
use crate::ordering;
use crate::paths;
use crate::text;

verus! {

/// How large a searched file is at most.
pub const MAX_FILE_SIZE: u64 = 512000;

/// How long a pattern is at most, in bytes.
pub const MAX_PATTERN_LEN: usize = 1024;

/// How large a compiled pattern is at most.
pub const MAX_REGEX_SIZE: usize = 1048576;

// ---------------------------------------------------------------- regular expressions
#[verifier::external_type_specification]
#[verifier::external_body]
pub struct ExRegex(regex::Regex);

/// The pattern that a regular expression was made of.
pub uninterp spec fn regex_source(re: regex::Regex) -> Seq<char>;

/// What is wrong with a pattern under a size limit, or nothing where it compiles.
pub uninterp spec fn regex_fault(pattern: Seq<char>, size_limit: nat) -> Option<Seq<char>>;

/// Whether a pattern that compiles matches somewhere in a text.
pub uninterp spec fn regex_match(pattern: Seq<char>, s: Seq<char>) -> bool;

/// `regex::RegexBuilder::build` with both size limits set to one value: whether it
/// succeeds, and the message of its error, are functions of the pattern and the
/// limit, with sizes as the platform has them; the regular expression is that of
/// the pattern.
#[verifier::external_body]
fn build_regex(pattern: &str, size_limit: usize) -> (r: Result<regex::Regex, String>)
    ensures
        match r {
            Ok(re) => regex_fault(pattern@, size_limit as nat) is None && regex_source(re)
                == pattern@,
            Err(e) => regex_fault(pattern@, size_limit as nat) == Some(e@),
        },
{
    regex::RegexBuilder::new(pattern)
        .size_limit(size_limit)
        .dfa_size_limit(size_limit)
        .build()
        .map_err(|e| e.to_string())
}

/// `regex::Regex::is_match`: a function of the pattern and the text.
#[verifier::external_body]
fn regex_matches(re: &regex::Regex, s: &str) -> (r: bool)
    ensures
        r == regex_match(regex_source(*re), s@),
{
    re.is_match(s)
}

// ---------------------------------------------------------------- files that are not searched
/// The extensions of files that hold no text to search.
pub open spec fn binary_extensions() -> Seq<Seq<char>> {
    seq![
        "png"@,
        "jpg"@,
        "jpeg"@,
        "gif"@,
        "webp"@,
        "ico"@,
        "svg"@,
        "woff"@,
        "woff2"@,
        "ttf"@,
        "eot"@,
        "pdf"@,
        "zip"@,
        "tar"@,
        "gz"@,
        "br"@,
        "zst"@,
        "bz2"@,
        "xz"@,
        "mp3"@,
        "mp4"@,
        "webm"@,
        "ogg"@,
        "wasm"@,
        "so"@,
        "dylib"@,
        "dll"@,
        "exe"@,
        "lock"@,
        "map"@,
        "snap"@,
        "patch"@,
        "db"@,
        "sqlite"@,
        "parquet"@,
        "arrow"@,
        "bin"@,
        "o"@,
        "a"@,
        "class"@,
        "pyc"@,
        "pyo"@,
    ]
}

/// Whether a path has the extension of a file that holds no text to search.
pub open spec fn has_binary_extension(path: Seq<char>) -> bool {
    binary_extensions().contains(chunks::or_empty(paths::extension(path)))
}

/// Whether a path is that of a generated file.
pub open spec fn is_generated(path: Seq<char>) -> bool {
    let name = chunks::or_empty(paths::file_name(path));
    ||| text::ends_with(name, ".min.js"@)
    ||| text::ends_with(name, ".min.css"@)
    ||| text::ends_with(name, ".bundle.js"@)
    ||| text::ends_with(name, ".chunk.js"@)
    ||| text::ends_with(name, ".d.ts"@)
    ||| text::ends_with(name, ".js.map"@)
    ||| text::ends_with(name, ".css.map"@)
}

fn extension_text(path: &str) -> (r: String)
    ensures
        r@ == chunks::or_empty(paths::extension(path@)),
{
    let chars = text::chars_of(path);
    match paths::extension_of(chars.as_slice()) {
        Some(e) => text::text_of(e),
        None => String::new(),
    }
}

/// Whether a path has the extension of a file that holds no text to search.
pub fn is_binary_ext(path: &str) -> (r: bool)
    ensures
        r == has_binary_extension(path@),
{
    let extension = extension_text(path);
    let list: Vec<&'static str> = vec![
        "png",
        "jpg",
        "jpeg",
        "gif",
        "webp",
        "ico",
        "svg",
        "woff",
        "woff2",
        "ttf",
        "eot",
        "pdf",
        "zip",
        "tar",
        "gz",
        "br",
        "zst",
        "bz2",
        "xz",
        "mp3",
        "mp4",
        "webm",
        "ogg",
        "wasm",
        "so",
        "dylib",
        "dll",
        "exe",
        "lock",
        "map",
        "snap",
        "patch",
        "db",
        "sqlite",
        "parquet",
        "arrow",
        "bin",
        "o",
        "a",
        "class",
        "pyc",
        "pyo",
    ];
    proof {
        assert(text::views(list@) =~= binary_extensions());
    }
    text::listed(list.as_slice(), extension.as_str())
}

/// Whether a path is that of a generated file.
pub fn is_generated_file(path: &str) -> (r: bool)
    ensures
        r == is_generated(path@),
{
    let chars = text::chars_of(path);
    let empty: Vec<char> = Vec::new();
    let name = match paths::file_name_of(chars.as_slice()) {
        Some(n) => n,
        None => empty.as_slice(),
    };
    proof {
        assert(name@ =~= chunks::or_empty(paths::file_name(path@)));
    }
    text::finishes(name, ".min.js") || text::finishes(name, ".min.css") || text::finishes(
        name,
        ".bundle.js",
    ) || text::finishes(name, ".chunk.js") || text::finishes(name, ".d.ts") || text::finishes(
        name,
        ".js.map",
    ) || text::finishes(name, ".css.map")
}

// ---------------------------------------------------------------- selecting files
/// What an entry of a walk is.
#[derive(Debug, Clone, Copy, PartialEq, Eq, Structural)]
pub enum EntryType {
    Unknown,
    Directory,
    Symlink,
    File,
}

/// What a walk came to: a path, what it is, whether it looks like a secret, and
/// its size where that is known.
pub struct FoundEntry {
    pub path: String,
    pub entry_type: EntryType,
    pub secret_like: bool,
    pub size: Option<u64>,
}

/// What becomes of an entry.
#[derive(Debug, Clone, Copy, PartialEq, Eq, Structural)]
pub enum Selection {
    /// It is read.
    Read,
    /// It is passed over.
    Pass,
    /// It is left out as a secret.
    Secret,
    /// It is left out as too large.
    TooLarge,
}

/// What becomes of an entry.
pub open spec fn selection(
    entry: FoundEntry,
    ext_filter: Option<Seq<char>>,
    allow_secret_paths: bool,
) -> Selection {
    if entry.entry_type != EntryType::File {
        Selection::Pass
    } else if has_binary_extension(entry.path@) || is_generated(entry.path@) {
        Selection::Pass
    } else if !allow_secret_paths && entry.secret_like {
        Selection::Secret
    } else if ext_filter is Some && chunks::or_empty(paths::extension(entry.path@))
        != ext_filter->0 {
        Selection::Pass
    } else if entry.size is Some && entry.size->0 > MAX_FILE_SIZE {
        Selection::TooLarge
    } else {
        Selection::Read
    }
}

/// The paths of the entries that are read, as they were found.
pub open spec fn read_paths(
    entries: Seq<FoundEntry>,
    ext_filter: Option<Seq<char>>,
    allow_secret_paths: bool,
) -> Seq<Seq<char>>
    decreases entries.len(),
{
    if entries.len() == 0 {
        seq![]
    } else {
        let before = read_paths(entries.drop_last(), ext_filter, allow_secret_paths);
        if selection(entries.last(), ext_filter, allow_secret_paths) == Selection::Read {
            before.push(entries.last().path@)
        } else {
            before
        }
    }
}

/// How many of the entries are left out for a reason.
pub open spec fn left_out(
    entries: Seq<FoundEntry>,
    ext_filter: Option<Seq<char>>,
    allow_secret_paths: bool,
    reason: Selection,
) -> nat
    decreases entries.len(),
{
    if entries.len() == 0 {
        0
    } else {
        left_out(entries.drop_last(), ext_filter, allow_secret_paths, reason) + (if selection(
            entries.last(),
            ext_filter,
            allow_secret_paths,
        ) == reason {
            1nat
        } else {
            0
        })
    }
}

/// The paths that are read, in their order.
pub open spec fn selected_paths(
    entries: Seq<FoundEntry>,
    ext_filter: Option<Seq<char>>,
    allow_secret_paths: bool,
) -> Seq<Seq<char>> {
    ordering::sorted(read_paths(entries, ext_filter, allow_secret_paths), ordering::text_order())
}

proof fn lemma_read_paths(
    entries: Seq<FoundEntry>,
    ext_filter: Option<Seq<char>>,
    allow_secret_paths: bool,
    p: Seq<char>,
)
    ensures
        read_paths(entries, ext_filter, allow_secret_paths).contains(p) <==> exists|i: int|
            0 <= i < entries.len() && (#[trigger] entries[i]).path@ == p && selection(
                entries[i],
                ext_filter,
                allow_secret_paths,
            ) == Selection::Read,
    decreases entries.len(),
{
    let all = read_paths(entries, ext_filter, allow_secret_paths);
    if entries.len() > 0 {
        let rest = entries.drop_last();
        let before = read_paths(rest, ext_filter, allow_secret_paths);
        lemma_read_paths(rest, ext_filter, allow_secret_paths, p);
        if all.contains(p) {
            let k = choose|k: int| 0 <= k < all.len() && all[k] == p;
            if k < before.len() {
                assert(before[k] == p);
                assert(before.contains(p));
                let i = choose|i: int|
                    0 <= i < rest.len() && (#[trigger] rest[i]).path@ == p && selection(
                        rest[i],
                        ext_filter,
                        allow_secret_paths,
                    ) == Selection::Read;
                assert(entries[i] == rest[i]);
            } else {
                assert(entries[entries.len() - 1].path@ == p);
            }
        }
        if exists|i: int|
            0 <= i < entries.len() && (#[trigger] entries[i]).path@ == p && selection(
                entries[i],
                ext_filter,
                allow_secret_paths,
            ) == Selection::Read {
            let i = choose|i: int|
                0 <= i < entries.len() && (#[trigger] entries[i]).path@ == p && selection(
                    entries[i],
                    ext_filter,
                    allow_secret_paths,
                ) == Selection::Read;
            if i < rest.len() {
                assert(rest[i] == entries[i]);
                assert(before.contains(p));
                let k = choose|k: int| 0 <= k < before.len() && before[k] == p;
                assert(all[k] == p);
            } else {
                assert(all[all.len() - 1] == p);
            }
        }
    }
}

/// The files are read in the order of their paths, whatever the order of the
/// walk, and they are those of the entries that qualify.
pub proof fn law_selection(
    entries: Seq<FoundEntry>,
    ext_filter: Option<Seq<char>>,
    allow_secret_paths: bool,
    p: Seq<char>,
)
    ensures
        ordering::is_sorted(
            selected_paths(entries, ext_filter, allow_secret_paths),
            ordering::text_order(),
        ),
        selected_paths(entries, ext_filter, allow_secret_paths).contains(p) <==> exists|i: int|
            0 <= i < entries.len() && (#[trigger] entries[i]).path@ == p && selection(
                entries[i],
                ext_filter,
                allow_secret_paths,
            ) == Selection::Read,
{
    let found = read_paths(entries, ext_filter, allow_secret_paths);
    let s = selected_paths(entries, ext_filter, allow_secret_paths);
    ordering::lemma_text_order_is_order();
    ordering::law_sorted(found, ordering::text_order());
    lemma_read_paths(entries, ext_filter, allow_secret_paths, p);
    found.to_multiset_ensures();
    s.to_multiset_ensures();
    assert(s.contains(p) <==> s.to_multiset().count(p) > 0);
    assert(found.contains(p) <==> found.to_multiset().count(p) > 0);
}

/// The order in which a walk finds the files makes no difference: the same files
/// are read in the same order.
pub proof fn law_walk_order_is_irrelevant(
    one: Seq<FoundEntry>,
    other: Seq<FoundEntry>,
    ext_filter: Option<Seq<char>>,
    allow_secret_paths: bool,
)
    requires
        read_paths(one, ext_filter, allow_secret_paths).to_multiset() == read_paths(
            other,
            ext_filter,
            allow_secret_paths,
        ).to_multiset(),
    ensures
        selected_paths(one, ext_filter, allow_secret_paths) == selected_paths(
            other,
            ext_filter,
            allow_secret_paths,
        ),
{
    ordering::law_texts_sort_alike(
        read_paths(one, ext_filter, allow_secret_paths),
        read_paths(other, ext_filter, allow_secret_paths),
    );
}

/// A path that looks like a secret is not read unless that is allowed.
pub proof fn law_secrets_are_not_read(
    entries: Seq<FoundEntry>,
    ext_filter: Option<Seq<char>>,
    p: Seq<char>,
)
    requires
        forall|i: int|
            0 <= i < entries.len() && (#[trigger] entries[i]).path@ == p
                ==> entries[i].secret_like,
    ensures
        !selected_paths(entries, ext_filter, false).contains(p),
{
    law_selection(entries, ext_filter, false, p);
}

fn decide(entry: &FoundEntry, ext_filter: &Option<String>, allow_secret_paths: bool) -> (r:
    Selection)
    ensures
        r == selection(*entry, text::opt_owned(*ext_filter), allow_secret_paths),
{
    if entry.entry_type != EntryType::File {
        return Selection::Pass;
    }
    if is_binary_ext(entry.path.as_str()) || is_generated_file(entry.path.as_str()) {
        return Selection::Pass;
    }
    if !allow_secret_paths && entry.secret_like {
        return Selection::Secret;
    }
    match ext_filter {
        Some(ext) => {
            let extension = extension_text(entry.path.as_str());
            if !text::same_text(extension.as_str(), ext.as_str()) {
                return Selection::Pass;
            }
        },
        None => {},
    }
    match entry.size {
        Some(n) => {
            if n > MAX_FILE_SIZE {
                return Selection::TooLarge;
            }
        },
        None => {},
    }
    Selection::Read
}

// ---------------------------------------------------------------- matches
/// A line that matches: its number, from one, and its text without space around
/// it.
#[derive(Debug)]
pub struct LineMatch {
    pub line: usize,
    pub text: String,
}

/// The meaning of a [`LineMatch`].
pub struct LineModel {
    pub line: int,
    pub text: Seq<char>,
}

impl View for LineMatch {
    type V = LineModel;

    open spec fn view(&self) -> LineModel {
        LineModel { line: self.line as int, text: self.text@ }
    }
}

/// The lines that a pattern matches.
pub open spec fn line_matches(pattern: Seq<char>, lines: Seq<Seq<char>>) -> Seq<LineModel>
    decreases lines.len(),
{
    if lines.len() == 0 {
        seq![]
    } else {
        let before = line_matches(pattern, lines.drop_last());
        if regex_match(pattern, lines.last()) {
            before.push(LineModel { line: lines.len() as int, text: text::trim(lines.last()) })
        } else {
            before
        }
    }
}

proof fn lemma_matches_grow(pattern: Seq<char>, lines: Seq<Seq<char>>, i: int)
    requires
        0 <= i <= lines.len(),
    ensures
        line_matches(pattern, lines.take(i)).len() <= line_matches(pattern, lines).len(),
        line_matches(pattern, lines).take(line_matches(pattern, lines.take(i)).len() as int)
            == line_matches(pattern, lines.take(i)),
    decreases lines.len(),
{
    if i < lines.len() {
        let rest = lines.drop_last();
        lemma_matches_grow(pattern, rest, i);
        assert(rest.take(i) =~= lines.take(i));
        let n = line_matches(pattern, lines.take(i)).len() as int;
        assert(line_matches(pattern, lines).take(n) =~= line_matches(pattern, rest).take(n));
    } else {
        assert(lines.take(i) =~= lines);
        assert(line_matches(pattern, lines).take(line_matches(pattern, lines).len() as int)
            =~= line_matches(pattern, lines));
    }
}

/// A matching line as it is shown: its redacted text where it was redacted. The
/// tokens are those of the text.
pub struct ShownLine {
    pub line: usize,
    pub text: String,
    pub redacted: Option<String>,
    pub tokens: usize,
}

/// A match as it is reported.
pub open spec fn shown_match(short_path: Seq<char>, l: ShownLine) -> Seq<char> {
    short_path + ":"@ + text::decimal(l.line as nat) + " "@ + (match l.redacted {
        Some(t) => t@,
        None => l.text@,
    })
}

pub open spec fn shown_matches(short_path: Seq<char>, lines: Seq<ShownLine>) -> Seq<Seq<char>> {
    Seq::new(lines.len(), |i: int| shown_match(short_path, lines[i]))
}

/// The tokens of the lines, and two more for each.
pub open spec fn raw_cost(lines: Seq<ShownLine>) -> nat
    decreases lines.len(),
{
    if lines.len() == 0 {
        0
    } else {
        raw_cost(lines.drop_last()) + lines.last().tokens as nat + 2
    }
}

fn match_text(short_path: &str, l: &ShownLine) -> (r: String)
    ensures
        r@ == shown_match(short_path@, *l),
{
    let mut out = short_path.to_string();
    out.push_str(":");
    text::push_number(&mut out, l.line);
    out.push_str(" ");
    match &l.redacted {
        Some(t) => {
            out.push_str(t.as_str());
        },
        None => {
            out.push_str(l.text.as_str());
        },
    }
    out
}

// ---------------------------------------------------------------- the search
/// A search under way.
pub struct SearchRun {
    regex: regex::Regex,
    pattern: String,
    dir: String,
    ext_filter: Option<String>,
    max_results: usize,
    allow_secret_paths: bool,
    matches: Vec<String>,
    raw_tokens: u128,
    files_searched: usize,
    skipped_size: usize,
    skipped_encoding: usize,
    skipped_boundary: usize,
}

/// The meaning of a [`SearchRun`].
pub struct RunModel {
    pub pattern: Seq<char>,
    pub dir: Seq<char>,
    pub ext_filter: Option<Seq<char>>,
    pub max_results: nat,
    pub allow_secret_paths: bool,
    pub matches: Seq<Seq<char>>,
    pub raw_tokens: nat,
    pub files_searched: nat,
    pub skipped_size: nat,
    pub skipped_encoding: nat,
    pub skipped_boundary: nat,
}

impl View for SearchRun {
    type V = RunModel;

    closed spec fn view(&self) -> RunModel {
        RunModel {
            pattern: self.pattern@,
            dir: self.dir@,
            ext_filter: text::opt_owned(self.ext_filter),
            max_results: self.max_results as nat,
            allow_secret_paths: self.allow_secret_paths,
            matches: text::views(self.matches@),
            raw_tokens: self.raw_tokens as nat,
            files_searched: self.files_searched as nat,
            skipped_size: self.skipped_size as nat,
            skipped_encoding: self.skipped_encoding as nat,
            skipped_boundary: self.skipped_boundary as nat,
        }
    }
}

/// Why a search does not start: its pattern is too long, is none, or its
/// directory does not exist.
pub open spec fn search_error(pattern: Seq<char>, dir: Seq<char>, dir_exists: bool) -> Option<
    Seq<char>,
> {
    if text::byte_len(pattern) > MAX_PATTERN_LEN {
        Some(
            "ERROR: pattern too long ("@ + text::decimal(text::byte_len(pattern)) + " > "@
                + text::decimal(MAX_PATTERN_LEN as nat) + " chars)"@,
        )
    } else {
        match regex_fault(pattern, MAX_REGEX_SIZE as nat) {
            Some(e) => Some("ERROR: invalid regex: "@ + e),
            None => if !dir_exists {
                Some("ERROR: "@ + dir + " does not exist"@)
            } else {
                None
            },
        }
    }
}

/// A search that has found nothing yet.
pub open spec fn started(
    pattern: Seq<char>,
    dir: Seq<char>,
    ext_filter: Option<Seq<char>>,
    max_results: nat,
    allow_secret_paths: bool,
) -> RunModel {
    RunModel {
        pattern,
        dir,
        ext_filter,
        max_results,
        allow_secret_paths,
        matches: seq![],
        raw_tokens: 0,
        files_searched: 0,
        skipped_size: 0,
        skipped_encoding: 0,
        skipped_boundary: 0,
    }
}

/// Starts a search, or says why it does not start.
pub fn handle(
    pattern: &str,
    dir: &str,
    ext_filter: Option<&str>,
    max_results: usize,
    allow_secret_paths: bool,
    dir_exists: bool,
) -> (r: Result<SearchRun, String>)
    ensures
        match r {
            Ok(run) => search_error(pattern@, dir@, dir_exists) is None && run.wf() && run@
                == started(
                pattern@,
                dir@,
                text::opt_view(ext_filter),
                max_results as nat,
                allow_secret_paths,
            ),
            Err(m) => search_error(pattern@, dir@, dir_exists) == Some(m@),
        },
{
    let length = text::byte_length(pattern);
    if length > MAX_PATTERN_LEN {
        let mut m = "ERROR: pattern too long (".to_string();
        text::push_number(&mut m, length);
        m.push_str(" > ");
        text::push_number(&mut m, MAX_PATTERN_LEN);
        m.push_str(" chars)");
        return Err(m);
    }
    let regex = match build_regex(pattern, MAX_REGEX_SIZE) {
        Ok(re) => re,
        Err(e) => {
            let mut m = "ERROR: invalid regex: ".to_string();
            m.push_str(e.as_str());
            return Err(m);
        },
    };
    if !dir_exists {
        let mut m = "ERROR: ".to_string();
        m.push_str(dir);
        m.push_str(" does not exist");
        return Err(m);
    }
    let filter = match ext_filter {
        Some(e) => Some(e.to_string()),
        None => None,
    };
    let run = SearchRun {
        regex,
        pattern: pattern.to_string(),
        dir: dir.to_string(),
        ext_filter: filter,
        max_results,
        allow_secret_paths,
        matches: Vec::new(),
        raw_tokens: 0,
        files_searched: 0,
        skipped_size: 0,
        skipped_encoding: 0,
        skipped_boundary: 0,
    };
    proof {
        assert(text::views(run.matches@) =~= Seq::<Seq<char>>::empty());
    }
    Ok(run)
}

/// How many more matches a search takes.
pub open spec fn room(run: RunModel) -> nat {
    if run.matches.len() < run.max_results {
        (run.max_results - run.matches.len()) as nat
    } else {
        0
    }
}

impl SearchRun {
    /// Whether the parts of the search agree: the regular expression is that of
    /// the pattern, and the tokens are those of the matches.
    pub closed spec fn wf(&self) -> bool {
        &&& regex_source(self.regex) == self.pattern@
        &&& self.raw_tokens <= self.matches@.len() * 0x1_0000_0000_0000_0001
    }

    /// The files to read, in their order; counts those that are left out.
    pub fn select(&mut self, entries: &[FoundEntry]) -> (r: Vec<String>)
        requires
            old(self).wf(),
        ensures
            final(self).wf(),
            text::views(r@) == selected_paths(
                entries@,
                old(self)@.ext_filter,
                old(self)@.allow_secret_paths,
            ),
            final(self)@ == (RunModel {
                skipped_size: left_out(
                    entries@,
                    old(self)@.ext_filter,
                    old(self)@.allow_secret_paths,
                    Selection::TooLarge,
                ),
                skipped_boundary: left_out(
                    entries@,
                    old(self)@.ext_filter,
                    old(self)@.allow_secret_paths,
                    Selection::Secret,
                ),
                ..old(self)@
            }),
    {
        let mut files: Vec<String> = Vec::new();
        let mut large: usize = 0;
        let mut secret: usize = 0;
        let ghost filter = text::opt_owned(self.ext_filter);
        let ghost allow = self.allow_secret_paths;
        let mut i: usize = 0;
        proof {
            assert(text::views(files@) =~= read_paths(entries@.take(0), filter, allow));
        }
        while i < entries.len()
            invariant
                i <= entries@.len(),
                filter == text::opt_owned(self.ext_filter),
                allow == self.allow_secret_paths,
                *self == *old(self),
                text::views(files@) == read_paths(entries@.take(i as int), filter, allow),
                large == left_out(entries@.take(i as int), filter, allow, Selection::TooLarge),
                secret == left_out(entries@.take(i as int), filter, allow, Selection::Secret),
                large <= i,
                secret <= i,
            decreases entries@.len() - i,
        {
            let entry = &entries[i];
            proof {
                assert(entries@.take(i + 1).drop_last() =~= entries@.take(i as int));
                assert(entries@.take(i + 1).last() == *entry);
            }
            match decide(entry, &self.ext_filter, self.allow_secret_paths) {
                Selection::Read => {
                    let path = entry.path.clone();
                    proof {
                        text::lemma_views_push(files@, path);
                    }
                    files.push(path);
                },
                Selection::Pass => {},
                Selection::Secret => {
                    secret += 1;
                },
                Selection::TooLarge => {
                    large += 1;
                },
            }
            i += 1;
        }
        proof {
            assert(entries@.take(i as int) =~= entries@);
        }
        self.skipped_size = large;
        self.skipped_boundary = secret;
        ordering::sort(files)
    }

    /// Whether the search takes more matches.
    pub fn wants_more(&self) -> (r: bool)
        ensures
            r == (room(self@) > 0),
    {
        self.matches.len() < self.max_results
    }

    /// The lines of a text that match, as many as the search still takes.
    pub fn matching_lines(&self, content: &str) -> (r: Vec<LineMatch>)
        requires
            self.wf(),
        ensures
            text::views(r@) == bm25_index::first_of(
                line_matches(self@.pattern, text::lines(content@)),
                room(self@),
            ),
            r@.len() <= room(self@),
    {
        let limit: usize = if self.matches.len() < self.max_results {
            self.max_results - self.matches.len()
        } else {
            0
        };
        let chars = text::chars_of(content);
        let lines = text::line_list(chars.as_slice());
        let ghost all = text::views(lines@);
        let ghost pattern = self@.pattern;
        let mut out: Vec<LineMatch> = Vec::new();
        let mut i: usize = 0;
        proof {
            assert(text::views(out@) =~= line_matches(pattern, all.take(0)));
        }
        while i < lines.len() && out.len() < limit
            invariant
                i <= lines@.len(),
                all == text::views(lines@),
                pattern == regex_source(self.regex),
                out@.len() <= limit,
                text::views(out@) == line_matches(pattern, all.take(i as int)),
            decreases lines@.len() - i,
        {
            let line = text::text_of(lines[i]);
            proof {
                assert(all.take(i + 1).drop_last() =~= all.take(i as int));
                assert(all.take(i + 1).last() == lines@[i as int]@);
            }
            if regex_matches(&self.regex, line.as_str()) {
                let found = LineMatch {
                    line: i + 1,
                    text: text::text_of(text::trimmed(lines[i])),
                };
                proof {
                    text::lemma_views_push(out@, found);
                }
                out.push(found);
            }
            i += 1;
        }
        proof {
            let found = line_matches(pattern, all);
            assert(text::views(out@).len() == out@.len());
            lemma_matches_grow(pattern, all, i as int);
            if i == lines@.len() {
                assert(all.take(i as int) =~= all);
                assert(bm25_index::first_of(found, limit as nat) =~= found);
            } else {
                assert(out@.len() == limit);
                assert(bm25_index::first_of(found, limit as nat) =~= found.take(limit as int));
            }
        }
        out
    }

    /// Keeps the matches in a file that was read, by the path that is shown.
    pub fn record(&mut self, short_path: &str, lines: &[ShownLine])
        requires
            old(self).wf(),
            old(self)@.files_searched < usize::MAX,
        ensures
            final(self).wf(),
            final(self)@ == (RunModel {
                matches: old(self)@.matches + shown_matches(short_path@, lines@),
                raw_tokens: old(self)@.raw_tokens + raw_cost(lines@),
                files_searched: old(self)@.files_searched + 1,
                ..old(self)@
            }),
    {
        let ghost before = self@;
        let ghost all = shown_matches(short_path@, lines@);
        self.files_searched += 1;
        let ghost counted = RunModel { files_searched: before.files_searched + 1, ..before };
        let mut i: usize = 0;
        proof {
            assert(before.matches + all.take(0) =~= before.matches);
            assert(lines@.take(0) =~= Seq::<ShownLine>::empty());
        }
        while i < lines.len()
            invariant
                i <= lines@.len(),
                self.wf(),
                all == shown_matches(short_path@, lines@),
                self@ == (RunModel {
                    matches: counted.matches + all.take(i as int),
                    raw_tokens: counted.raw_tokens + raw_cost(lines@.take(i as int)),
                    ..counted
                }),
            decreases lines@.len() - i,
        {
            let shown = match_text(short_path, &lines[i]);
            proof {
                text::lemma_views_push(self.matches@, shown);
                assert(all[i as int] == shown@);
                assert(counted.matches + all.take(i + 1) =~= (counted.matches + all.take(
                    i as int,
                )).push(shown@));
                assert(lines@.take(i + 1).drop_last() =~= lines@.take(i as int));
            }
            self.matches.push(shown);
            let count: usize = self.matches.len();
            proof {
                assert(count <= 0xffff_ffff_ffff_ffff);
            }
            self.raw_tokens = self.raw_tokens + (lines[i].tokens as u128 + 2);
            i += 1;
        }
        proof {
            assert(lines@.take(i as int) =~= lines@);
            assert(all.take(i as int) =~= all);
        }
    }

    /// Counts a file that could not be read as text.
    pub fn skip_unreadable(&mut self)
        requires
            old(self).wf(),
            old(self)@.skipped_encoding < usize::MAX,
        ensures
            final(self).wf(),
            final(self)@ == (RunModel {
                skipped_encoding: old(self)@.skipped_encoding + 1,
                ..old(self)@
            }),
    {
        self.skipped_encoding += 1;
    }
}

// ---------------------------------------------------------------- scope
/// A text up to a character.
pub open spec fn up_to(s: Seq<char>, c: char) -> Seq<char> {
    s.take(text::run_len(s, text::other_than(c)) as int)
}

/// A text without a prefix that it starts with.
pub open spec fn without_prefix(s: Seq<char>, prefix: Seq<char>) -> Seq<char> {
    if text::starts_with(s, prefix) {
        s.skip(prefix.len() as int)
    } else {
        s
    }
}

/// The first part of a match's path below the directory that is searched.
pub open spec fn top_dir(m: Seq<char>, search_dir: Seq<char>) -> Seq<char> {
    let path = without_prefix(up_to(m, ':'), "./"@);
    up_to(without_prefix(without_prefix(path, search_dir), "/"@), '/')
}

pub open spec fn top_dirs(matches: Seq<Seq<char>>, search_dir: Seq<char>) -> Seq<Seq<char>> {
    Seq::new(matches.len(), |i: int| top_dir(matches[i], search_dir))
}

/// The directories that the matches lie in, in order and each once.
pub open spec fn scope_dirs(matches: Seq<Seq<char>>, search_dir: Seq<char>) -> Seq<Seq<char>> {
    ordering::deduplicated(
        ordering::sorted(top_dirs(matches, search_dir), ordering::text_order()),
    )
}

pub open spec fn quoted(s: Seq<char>) -> Seq<char> {
    "'"@ + s + "'"@
}

pub open spec fn all_quoted(s: Seq<Seq<char>>) -> Seq<Seq<char>> {
    Seq::new(s.len(), |i: int| quoted(s[i]))
}

/// A hint to search less where the matches lie in more than three directories; it
/// names the first six.
pub open spec fn scope_hint(matches: Seq<Seq<char>>, search_dir: Seq<char>) -> Option<Seq<char>> {
    let dirs = scope_dirs(matches, search_dir);
    if dirs.len() > 3 {
        let extra = if dirs.len() > 6 {
            ", +"@ + text::decimal((dirs.len() - 6) as nat) + " more"@
        } else {
            seq![]
        };
        Some(
            "\n\nResults span "@ + text::decimal(dirs.len()) + " directories ("@ + text::join(
                all_quoted(bm25_index::first_of(dirs, 6)),
                ", "@,
            ) + extra
                + "). Use the 'path' parameter to scope to a specific service, e.g. path=\""@
                + dirs[0] + "/\"."@,
        )
    } else {
        None
    }
}

fn head_until<'a>(s: &'a [char], c: char) -> (r: &'a [char])
    ensures
        r@ == up_to(s@, c),
{
    let n = text::until(s, c);
    proof {
        text::lemma_run_len(s@, text::other_than(c));
    }
    let r = vstd::slice::slice_subrange(s, 0, n);
    proof {
        assert(r@ =~= up_to(s@, c));
    }
    r
}

fn stripped<'a>(s: &'a [char], prefix: &str) -> (r: &'a [char])
    ensures
        r@ == without_prefix(s@, prefix@),
{
    if text::begins(s, prefix) {
        let p = text::chars_of(prefix);
        let total: usize = s.len();
        let r = vstd::slice::slice_subrange(s, p.len(), total);
        proof {
            assert(r@ =~= s@.skip(prefix@.len() as int));
        }
        r
    } else {
        s
    }
}

fn top_directories(matches: &[String], search_dir: &str) -> (r: Vec<String>)
    ensures
        text::views(r@) == top_dirs(text::views(matches@), search_dir@),
{
    let ghost all = top_dirs(text::views(matches@), search_dir@);
    let mut out: Vec<String> = Vec::new();
    let mut i: usize = 0;
    while i < matches.len()
        invariant
            i <= matches@.len(),
            all == top_dirs(text::views(matches@), search_dir@),
            text::views(out@) == all.take(i as int),
        decreases matches@.len() - i,
    {
        let chars = text::chars_of(matches[i].as_str());
        let path = stripped(head_until(chars.as_slice(), ':'), "./");
        let below = stripped(stripped(path, search_dir), "/");
        let top = text::text_of(head_until(below, '/'));
        proof {
            assert(all[i as int] == top@);
            text::lemma_views_push(out@, top);
            assert(all.take(i + 1) =~= all.take(i as int).push(top@));
        }
        out.push(top);
        i += 1;
    }
    proof {
        assert(all.take(i as int) =~= all);
    }
    out
}

/// A hint to search less where the matches lie in many directories.
pub fn monorepo_scope_hint(matches: &[String], search_dir: &str) -> (r: Option<String>)
    ensures
        text::opt_owned(r) == scope_hint(text::views(matches@), search_dir@),
{
    let dirs = ordering::dedup(ordering::sort(top_directories(matches, search_dir)));
    let ghost all = text::views(dirs@);
    proof {
        assert(all == scope_dirs(text::views(matches@), search_dir@));
        assert(all.len() == dirs@.len());
    }
    let count: usize = dirs.len();
    if count <= 3 {
        return None;
    }
    let shown: usize = if count < 6 {
        count
    } else {
        6
    };
    let ghost first = all_quoted(bm25_index::first_of(all, 6));
    let mut names: Vec<String> = Vec::new();
    let mut i: usize = 0;
    while i < shown
        invariant
            i <= shown,
            shown <= dirs@.len(),
            shown == (if dirs@.len() < 6 {
                dirs@.len()
            } else {
                6
            }),
            all == text::views(dirs@),
            first == all_quoted(bm25_index::first_of(all, 6)),
            text::views(names@) == first.take(i as int),
        decreases shown - i,
    {
        let mut name = "'".to_string();
        name.push_str(dirs[i].as_str());
        name.push_str("'");
        proof {
            assert(first[i as int] == name@);
            text::lemma_views_push(names@, name);
            assert(first.take(i + 1) =~= first.take(i as int).push(name@));
        }
        names.push(name);
        i += 1;
    }
    proof {
        assert(first.take(i as int) =~= first);
    }
    let mut out = "\n\nResults span ".to_string();
    text::push_number(&mut out, count);
    out.push_str(" directories (");
    let list = text::joined_text(names.as_slice(), ", ");
    out.push_str(list.as_str());
    if count > 6 {
        let ghost so_far = out@;
        out.push_str(", +");
        text::push_number(&mut out, count - 6);
        out.push_str(" more");
        proof {
            assert(out@ =~= so_far + (", +"@ + text::decimal((all.len() - 6) as nat) + " more"@));
        }
    } else {
        proof {
            assert(out@ =~= out@ + Seq::<char>::empty());
        }
    }
    out.push_str("). Use the 'path' parameter to scope to a specific service, e.g. path=\"");
    out.push_str(dirs[0].as_str());
    out.push_str("/\".");
    Some(out)
}

/// The hint names the directories in ascending order.
pub proof fn law_scope_dirs(matches: Seq<Seq<char>>, search_dir: Seq<char>)
    ensures
        ordering::is_ascending(scope_dirs(matches, search_dir)),
        forall|d: Seq<char>|
            scope_dirs(matches, search_dir).contains(d) <==> top_dirs(
                matches,
                search_dir,
            ).contains(d),
{
    let tops = top_dirs(matches, search_dir);
    let s = ordering::sorted(tops, ordering::text_order());
    ordering::lemma_text_order_is_order();
    ordering::law_sorted(tops, ordering::text_order());
    ordering::lemma_deduplicated(s);
    tops.to_multiset_ensures();
    s.to_multiset_ensures();
    assert forall|d: Seq<char>| s.contains(d) <==> tops.contains(d) by {
        assert(s.contains(d) <==> s.to_multiset().count(d) > 0);
        assert(tops.contains(d) <==> tops.to_multiset().count(d) > 0);
    }
}

// ---------------------------------------------------------------- reports
/// The texts, each once, in the order in which they come first.
pub open spec fn distinct(s: Seq<Seq<char>>) -> Seq<Seq<char>>
    decreases s.len(),
{
    if s.len() == 0 {
        seq![]
    } else {
        let before = distinct(s.drop_last());
        if before.contains(s.last()) {
            before
        } else {
            before.push(s.last())
        }
    }
}

/// The files of the matches, as they are shown.
pub open spec fn matched_files(matches: Seq<Seq<char>>) -> Seq<Seq<char>> {
    distinct(Seq::new(matches.len(), |i: int| up_to(matches[i], ':')))
}

/// A note on a number of files, or nothing where there is none.
pub open spec fn note(ahead: Seq<char>, n: nat, behind: Seq<char>) -> Seq<char> {
    if n > 0 {
        ahead + text::decimal(n) + behind
    } else {
        seq![]
    }
}

/// The report of a search that found nothing.
pub open spec fn empty_report(run: RunModel) -> Seq<char> {
    "0 matches for '"@ + run.pattern + "' in "@ + text::decimal(run.files_searched) + " files"@
        + note(" ("@, run.skipped_size, " large files skipped)"@) + note(
        " ("@,
        run.skipped_encoding,
        " files skipped: binary/encoding)"@,
    ) + note(
        " ("@,
        run.skipped_boundary,
        " secret-like files skipped by boundary policy)"@,
    )
}

/// The report of a search that found something: the files before the matches.
pub open spec fn match_report(run: RunModel) -> Seq<char> {
    let files = matched_files(run.matches);
    text::decimal(run.matches.len()) + " matches in "@ + text::decimal(run.files_searched)
        + " files"@ + (if files.len() > 1 {
        " ["@ + text::join(files, ", "@) + "]"@
    } else {
        seq![]
    }) + ":\n"@ + text::join(run.matches, "\n"@) + note(
        "\n("@,
        run.skipped_size,
        " files >512KB skipped)"@,
    ) + note("\n("@, run.skipped_encoding, " files skipped: binary/encoding)"@) + note(
        "\n("@,
        run.skipped_boundary,
        " secret-like files skipped by boundary policy)"@,
    )
}

/// The report of a search.
#[derive(Debug)]
pub enum SearchReport {
    /// Nothing matched.
    Empty(String),
    /// These are the matches.
    Matches(String),
}

fn push_note(out: &mut String, ahead: &str, n: usize, behind: &str)
    ensures
        final(out)@ == old(out)@ + note(ahead@, n as nat, behind@),
{
    let ghost before = out@;
    if n > 0 {
        out.push_str(ahead);
        text::push_number(out, n);
        out.push_str(behind);
        proof {
            assert(out@ =~= before + note(ahead@, n as nat, behind@));
        }
    } else {
        proof {
            assert(before + note(ahead@, n as nat, behind@) =~= before);
        }
    }
}

fn files_of(matches: &[String]) -> (r: Vec<String>)
    ensures
        text::views(r@) == matched_files(text::views(matches@)),
{
    let ghost all = text::views(matches@);
    let ghost heads = Seq::new(all.len(), |i: int| up_to(all[i], ':'));
    let mut seen: vstd::hash_map::StringHashMap<bool> = vstd::hash_map::StringHashMap::new();
    let mut out: Vec<String> = Vec::new();
    let mut i: usize = 0;
    proof {
        assert(text::views(out@) =~= distinct(heads.take(0)));
    }
    while i < matches.len()
        invariant
            i <= matches@.len(),
            all == text::views(matches@),
            heads == Seq::new(all.len(), |i: int| up_to(all[i], ':')),
            text::views(out@) == distinct(heads.take(i as int)),
            forall|k: Seq<char>| #[trigger]
                seen@.contains_key(k) <==> text::views(out@).contains(k),
        decreases matches@.len() - i,
    {
        let chars = text::chars_of(matches[i].as_str());
        let head = text::text_of(head_until(chars.as_slice(), ':'));
        let ghost before = text::views(out@);
        proof {
            assert(heads[i as int] == head@);
            assert(heads.take(i + 1).drop_last() =~= heads.take(i as int));
            assert(heads.take(i + 1).last() == head@);
        }
        if !seen.contains_key(head.as_str()) {
            seen.insert(head.clone(), true);
            proof {
                text::lemma_views_push(out@, head);
            }
            out.push(head);
            proof {
                assert forall|k: Seq<char>| #[trigger]
                    seen@.contains_key(k) <==> text::views(out@).contains(k) by {
                    if before.contains(k) {
                        let j = choose|j: int| 0 <= j < before.len() && before[j] == k;
                        assert(before.push(head@)[j] == k);
                    }
                    if k == head@ {
                        assert(before.push(head@)[before.len() as int] == k);
                    }
                }
            }
        }
        i += 1;
    }
    proof {
        assert(heads.take(i as int) =~= heads);
    }
    out
}

impl SearchRun {
    /// The report of the search so far.
    pub fn report(&self) -> (r: SearchReport)
        ensures
            match r {
                SearchReport::Empty(m) => self@.matches.len() == 0 && m@ == empty_report(self@),
                SearchReport::Matches(m) => self@.matches.len() > 0 && m@ == match_report(self@),
            },
    {
        if self.matches.len() == 0 {
            let mut out = "0 matches for '".to_string();
            out.push_str(self.pattern.as_str());
            out.push_str("' in ");
            text::push_number(&mut out, self.files_searched);
            out.push_str(" files");
            push_note(&mut out, " (", self.skipped_size, " large files skipped)");
            push_note(&mut out, " (", self.skipped_encoding, " files skipped: binary/encoding)");
            push_note(
                &mut out,
                " (",
                self.skipped_boundary,
                " secret-like files skipped by boundary policy)",
            );
            return SearchReport::Empty(out);
        }
        let files = files_of(self.matches.as_slice());
        proof {
            assert(text::views(files@).len() == files@.len());
        }
        let mut out = String::new();
        text::push_number(&mut out, self.matches.len());
        out.push_str(" matches in ");
        text::push_number(&mut out, self.files_searched);
        out.push_str(" files");
        let ghost before = out@;
        proof {
            assert(before =~= text::decimal(self@.matches.len()) + " matches in "@
                + text::decimal(self@.files_searched) + " files"@);
        }
        if files.len() > 1 {
            out.push_str(" [");
            let list = text::joined_text(files.as_slice(), ", ");
            out.push_str(list.as_str());
            out.push_str("]");
            proof {
                assert(out@ =~= before + (" ["@ + text::join(matched_files(self@.matches), ", "@)
                    + "]"@));
            }
        } else {
            proof {
                assert(before + Seq::<char>::empty() =~= before);
            }
        }
        out.push_str(":\n");
        let list = text::joined_text(self.matches.as_slice(), "\n");
        out.push_str(list.as_str());
        push_note(&mut out, "\n(", self.skipped_size, " files >512KB skipped)");
        push_note(&mut out, "\n(", self.skipped_encoding, " files skipped: binary/encoding)");
        push_note(
            &mut out,
            "\n(",
            self.skipped_boundary,
            " secret-like files skipped by boundary policy)",
        );
        SearchReport::Matches(out)
    }

    /// What a plain search would cost, in tokens: two and a half times the cost of
    /// the matches, rounded up, as far as a double holds the product exactly.
    pub fn native_cost(&self) -> (r: usize)
        requires
            self@.raw_tokens <= 1801439850948198,
            (5 * self@.raw_tokens + 1) / 2 <= usize::MAX,
        ensures
            r == (5 * self@.raw_tokens + 1) / 2,
            r >= self@.raw_tokens,
    {
        ((5 * self.raw_tokens + 1) / 2) as usize
    }

    /// The matches so far.
    pub fn matches(&self) -> (r: &Vec<String>)
        ensures
            text::views(r@) == self@.matches,
    {
        &self.matches
    }

    /// The cost of the matches so far, in tokens.
    pub fn raw_tokens(&self) -> (r: u128)
        ensures
            r == self@.raw_tokens,
    {
        self.raw_tokens
    }
}

/// A report with symbols in place of identifiers: how many symbols there are, the
/// report in them, their table, and the tokens of the report before and after and
/// of the table.
pub struct SymbolReport {
    pub symbols: usize,
    pub compressed: String,
    pub table: String,
    pub original_tokens: usize,
    pub compressed_tokens: usize,
    pub table_tokens: usize,
}

/// How many tokens symbols save.
pub open spec fn saving(s: SymbolReport) -> int {
    let after = s.compressed_tokens + s.table_tokens;
    if s.original_tokens > after {
        s.original_tokens - after
    } else {
        0
    }
}

/// Whether symbols are worth it: there are at least three, and they save at least
/// five percent.
pub open spec fn symbols_pay(s: SymbolReport) -> bool {
    s.symbols >= 3 && s.original_tokens > 0 && saving(s) * 100 / s.original_tokens as int >= 5
}

/// The body of an answer: the report, in symbols where they pay, and the hint.
pub open spec fn answer_body(report: Seq<char>, s: SymbolReport, hint: Option<Seq<char>>) -> Seq<
    char,
> {
    (if symbols_pay(s) {
        s.compressed@ + s.table@
    } else {
        report
    }) + chunks::or_empty(hint)
}

fn worth_symbols(s: &SymbolReport) -> (r: bool)
    ensures
        r == symbols_pay(*s),
{
    if s.symbols < 3 || s.original_tokens == 0 {
        return false;
    }
    let after: u128 = s.compressed_tokens as u128 + s.table_tokens as u128;
    let original: u128 = s.original_tokens as u128;
    let saved: u128 = if original > after {
        original - after
    } else {
        0
    };
    saved * 100 / original >= 5
}

/// The body of an answer.
pub fn report_body(report: String, symbols: &SymbolReport, hint: Option<String>) -> (r: String)
    ensures
        r@ == answer_body(report@, *symbols, text::opt_owned(hint)),
{
    let mut out = if worth_symbols(symbols) {
        let mut t = symbols.compressed.clone();
        t.push_str(symbols.table.as_str());
        t
    } else {
        report
    };
    match hint {
        Some(h) => {
            out.push_str(h.as_str());
        },
        None => {
            proof {
                assert(out@ + Seq::<char>::empty() =~= out@);
            }
        },
    }
    out
}

/// An answer: its body and a line on what was saved.
pub fn finished_report(body: String, savings: &str) -> (r: String)
    ensures
        r@ == body@ + "\n"@ + savings@,
{
    let mut out = body;
    out.push_str("\n");
    out.push_str(savings);
    out
}

/// A search that keeps the lines that it found in a text keeps no more matches
/// than it was asked for.
pub proof fn law_matches_stay_within_limit(
    run: RunModel,
    content: Seq<char>,
    short_path: Seq<char>,
    lines: Seq<ShownLine>,
)
    requires
        run.matches.len() <= run.max_results,
        lines.len() == bm25_index::first_of(
            line_matches(run.pattern, text::lines(content)),
            room(run),
        ).len(),
    ensures
        (run.matches + shown_matches(short_path, lines)).len() <= run.max_results,
{
}

// ---------------------------------------------------------------- whole searches
/// A file as a search comes to it: the path that is shown, and its text where it
/// can be read.
pub struct ReadFile {
    pub short_path: Seq<char>,
    pub content: Option<Seq<char>>,
}

/// The matches in a file, where `show` gives a line as it is shown.
pub open spec fn found_in(
    pattern: Seq<char>,
    f: ReadFile,
    show: spec_fn(Seq<char>) -> Seq<char>,
) -> Seq<Seq<char>> {
    match f.content {
        Some(content) => {
            let found = line_matches(pattern, text::lines(content));
            Seq::new(found.len(), |i: int| shown_line(f.short_path, found[i], show))
        },
        None => seq![],
    }
}

/// A line that matches, as it is shown.
pub open spec fn shown_line(
    short_path: Seq<char>,
    l: LineModel,
    show: spec_fn(Seq<char>) -> Seq<char>,
) -> Seq<char> {
    short_path + ":"@ + text::decimal(l.line as nat) + " "@ + show(l.text)
}

/// The matches in the files, one file after the other.
pub open spec fn all_found(
    pattern: Seq<char>,
    files: Seq<ReadFile>,
    show: spec_fn(Seq<char>) -> Seq<char>,
) -> Seq<Seq<char>>
    decreases files.len(),
{
    if files.len() == 0 {
        seq![]
    } else {
        all_found(pattern, files.drop_last(), show) + found_in(pattern, files.last(), show)
    }
}

/// Whether the lines are those found, as they are shown.
pub open spec fn shows(
    lines: Seq<ShownLine>,
    found: Seq<LineModel>,
    show: spec_fn(Seq<char>) -> Seq<char>,
) -> bool {
    &&& lines.len() == found.len()
    &&& forall|i: int|
        #![trigger lines[i]]
        0 <= i < lines.len() ==> lines[i].line == found[i].line && (match lines[i].redacted {
            Some(t) => t@,
            None => lines[i].text@,
        }) == show(found[i].text)
}

/// Whether a search goes from one state to the next at a file: it records the lines
/// that it finds there, as many as it still takes, or leaves its matches where it
/// takes no more or cannot read the file.
pub open spec fn is_step(
    before: RunModel,
    after: RunModel,
    f: ReadFile,
    show: spec_fn(Seq<char>) -> Seq<char>,
) -> bool {
    &&& after.pattern == before.pattern
    &&& after.max_results == before.max_results
    &&& if room(before) == 0 || f.content is None {
        after.matches == before.matches
    } else {
        exists|lines: Seq<ShownLine>| #[trigger]
            shows(
                lines,
                bm25_index::first_of(
                    line_matches(before.pattern, text::lines(f.content->0)),
                    room(before),
                ),
                show,
            ) && after.matches == before.matches + shown_matches(f.short_path, lines)
    }
}

proof fn lemma_step(
    before: RunModel,
    after: RunModel,
    f: ReadFile,
    show: spec_fn(Seq<char>) -> Seq<char>,
)
    requires
        is_step(before, after, f, show),
    ensures
        after.matches == before.matches + bm25_index::first_of(
            found_in(before.pattern, f, show),
            room(before),
        ),
{
    let all = found_in(before.pattern, f, show);
    let some = bm25_index::first_of(all, room(before));
    if room(before) == 0 || f.content is None {
        assert(some =~= Seq::<Seq<char>>::empty());
        assert(before.matches + some =~= before.matches);
    } else {
        let found = bm25_index::first_of(
            line_matches(before.pattern, text::lines(f.content->0)),
            room(before),
        );
        let lines = choose|lines: Seq<ShownLine>| #[trigger]
            shows(lines, found, show) && after.matches == before.matches + shown_matches(
                f.short_path,
                lines,
            );
        let shown = shown_matches(f.short_path, lines);
        assert(shown.len() == some.len());
        assert forall|i: int| 0 <= i < shown.len() implies shown[i] == some[i] by {
            assert(lines[i].line == found[i].line);
        }
        assert(shown =~= some);
    }
}

/// The matches of a whole search are the first of all matches in the files, in the
/// order of the files, as many as were asked for. `runs` holds the states of the
/// search, one ahead of each file and one at the end.
pub proof fn law_search_keeps_the_first_matches(
    runs: Seq<RunModel>,
    files: Seq<ReadFile>,
    show: spec_fn(Seq<char>) -> Seq<char>,
)
    requires
        runs.len() == files.len() + 1,
        runs[0].matches.len() == 0,
        forall|i: int|
            #![trigger files[i]]
            0 <= i < files.len() ==> is_step(runs[i], runs[i + 1], files[i], show),
    ensures
        runs.last().matches == bm25_index::first_of(
            all_found(runs[0].pattern, files, show),
            runs[0].max_results,
        ),
        runs.last().pattern == runs[0].pattern,
        runs.last().max_results == runs[0].max_results,
    decreases files.len(),
{
    let max = runs[0].max_results;
    if files.len() == 0 {
        assert(runs[0].matches =~= bm25_index::first_of(
            all_found(runs[0].pattern, files, show),
            max,
        ));
    } else {
        let fewer = files.drop_last();
        let ahead = runs.drop_last();
        let n = fewer.len() as int;
        assert forall|i: int|
            #![trigger fewer[i]]
            0 <= i < fewer.len() implies is_step(ahead[i], ahead[i + 1], fewer[i], show) by {
            assert(fewer[i] == files[i]);
        }
        law_search_keeps_the_first_matches(ahead, fewer, show);
        assert(is_step(runs[n], runs[n + 1], files[n], show));
        lemma_step(runs[n], runs[n + 1], files[n], show);
        let a = all_found(runs[0].pattern, fewer, show);
        let b = found_in(runs[0].pattern, files[n], show);
        assert(ahead.last() == runs[n]);
        assert(bm25_index::first_of(a + b, max) =~= bm25_index::first_of(a, max)
            + bm25_index::first_of(b, room(runs[n])));
    }
}

// ---------------------------------------------------------------- laws of single files
/// The lines that a search reports of a text, where it takes `n` more: a line is
/// reported only where the pattern matches it exactly as it stands in the text, with
/// the blanks around it; the report has its number and what trimming leaves of it, and
/// goes from the first line to the last. A matching line is missing only where `n`
/// lines ahead of it are reported.
pub proof fn law_matching_lines(pattern: Seq<char>, content: Seq<char>, n: nat, k: int)
    requires
        0 <= k < text::lines(content).len(),
    ensures
        ({
            let lines = text::lines(content);
            let r = bm25_index::first_of(line_matches(pattern, lines), n);
            &&& r.len() <= n
            &&& forall|i: int|
                #![trigger r[i]]
                0 <= i < r.len() ==> 1 <= r[i].line <= lines.len() && regex_match(
                    pattern,
                    lines[r[i].line - 1],
                ) && r[i].text == text::trim(lines[r[i].line - 1])
            &&& forall|i: int, j: int|
                #![trigger r[i], r[j]]
                0 <= i < j < r.len() ==> r[i].line < r[j].line
            &&& regex_match(pattern, lines[k]) ==> (exists|i: int|
                0 <= i < r.len() && (#[trigger] r[i]).line == k + 1) || (r.len() == n && forall|
                i: int,
            |
                #![trigger r[i]]
                0 <= i < r.len() ==> r[i].line < k + 1)
            &&& !regex_match(pattern, lines[k]) ==> forall|i: int|
                #![trigger r[i]]
                0 <= i < r.len() ==> r[i].line != k + 1
        }),
{
    let lines = text::lines(content);
    let all = line_matches(pattern, lines);
    let r = bm25_index::first_of(all, n);
    lemma_line_matches(pattern, lines, k);
    assert forall|i: int| #![trigger r[i]] 0 <= i < r.len() implies r[i] == all[i] by {}
    if regex_match(pattern, lines[k]) {
        let p = choose|p: int| 0 <= p < all.len() && (#[trigger] all[p]).line == k + 1;
        if p < r.len() {
            assert(r[p].line == k + 1);
        } else {
            assert forall|i: int| #![trigger r[i]] 0 <= i < r.len() implies r[i].line < k + 1 by {
                assert(all[i].line < all[p].line);
            }
        }
    }
    assert forall|i: int| #![trigger r[i]] 0 <= i < r.len() implies 1 <= r[i].line <= lines.len()
        && regex_match(pattern, lines[r[i].line - 1]) && r[i].text == text::trim(
        lines[r[i].line - 1],
    ) by {
        assert(all[i] == r[i]);
    }
    assert forall|i: int, j: int|
        #![trigger r[i], r[j]]
        0 <= i < j < r.len() implies r[i].line < r[j].line by {
        assert(all[i].line < all[j].line);
    }
}

proof fn lemma_line_matches(pattern: Seq<char>, lines: Seq<Seq<char>>, k: int)
    ensures
        ({
            let r = line_matches(pattern, lines);
            &&& forall|i: int|
                #![trigger r[i]]
                0 <= i < r.len() ==> 1 <= r[i].line <= lines.len() && regex_match(
                    pattern,
                    lines[r[i].line - 1],
                ) && r[i].text == text::trim(lines[r[i].line - 1])
            &&& forall|i: int, j: int|
                #![trigger r[i], r[j]]
                0 <= i < j < r.len() ==> r[i].line < r[j].line
            &&& 0 <= k < lines.len() && regex_match(pattern, lines[k]) ==> exists|i: int|
                0 <= i < r.len() && (#[trigger] r[i]).line == k + 1
        }),
    decreases lines.len(),
{
    if lines.len() > 0 {
        let rest = lines.drop_last();
        lemma_line_matches(pattern, rest, k);
        let a = line_matches(pattern, rest);
        let r = line_matches(pattern, lines);
        assert forall|i: int| #![trigger r[i]] 0 <= i < a.len() implies r[i] == a[i] by {}
        assert forall|i: int|
            #![trigger r[i]]
            0 <= i < r.len() implies 1 <= r[i].line <= lines.len() && regex_match(
            pattern,
            lines[r[i].line - 1],
        ) && r[i].text == text::trim(lines[r[i].line - 1]) by {
            if i < a.len() {
                assert(r[i] == a[i]);
                assert(rest[a[i].line - 1] == lines[a[i].line - 1]);
            }
        }
        assert forall|i: int, j: int|
            #![trigger r[i], r[j]]
            0 <= i < j < r.len() implies r[i].line < r[j].line by {
            assert(r[i] == a[i]);
            if j < a.len() {
                assert(r[j] == a[j]);
            }
        }
        if 0 <= k < lines.len() && regex_match(pattern, lines[k]) {
            if k < rest.len() {
                assert(rest[k] == lines[k]);
                let i = choose|i: int| 0 <= i < a.len() && (#[trigger] a[i]).line == k + 1;
                assert(r[i].line == k + 1);
            } else {
                assert(r[a.len() as int].line == k + 1);
            }
        }
    }
}

/// The files with these extensions, and no others, hold no text to search.
pub proof fn law_binary_extensions(path: Seq<char>, e: Seq<char>)
    requires
        paths::extension(path) == Some(e),
    ensures
        has_binary_extension(path) <==> {
            ||| e == "png"@
            ||| e == "jpg"@
            ||| e == "jpeg"@
            ||| e == "gif"@
            ||| e == "webp"@
            ||| e == "ico"@
            ||| e == "svg"@
            ||| e == "woff"@
            ||| e == "woff2"@
            ||| e == "ttf"@
            ||| e == "eot"@
            ||| e == "pdf"@
            ||| e == "zip"@
            ||| e == "tar"@
            ||| e == "gz"@
            ||| e == "br"@
            ||| e == "zst"@
            ||| e == "bz2"@
            ||| e == "xz"@
            ||| e == "mp3"@
            ||| e == "mp4"@
            ||| e == "webm"@
            ||| e == "ogg"@
            ||| e == "wasm"@
            ||| e == "so"@
            ||| e == "dylib"@
            ||| e == "dll"@
            ||| e == "exe"@
            ||| e == "lock"@
            ||| e == "map"@
            ||| e == "snap"@
            ||| e == "patch"@
            ||| e == "db"@
            ||| e == "sqlite"@
            ||| e == "parquet"@
            ||| e == "arrow"@
            ||| e == "bin"@
            ||| e == "o"@
            ||| e == "a"@
            ||| e == "class"@
            ||| e == "pyc"@
            ||| e == "pyo"@
        },
{
    let all = binary_extensions();
    assert(all[0] == "png"@);
    assert(all[1] == "jpg"@);
    assert(all[2] == "jpeg"@);
    assert(all[3] == "gif"@);
    assert(all[4] == "webp"@);
    assert(all[5] == "ico"@);
    assert(all[6] == "svg"@);
    assert(all[7] == "woff"@);
    assert(all[8] == "woff2"@);
    assert(all[9] == "ttf"@);
    assert(all[10] == "eot"@);
    assert(all[11] == "pdf"@);
    assert(all[12] == "zip"@);
    assert(all[13] == "tar"@);
    assert(all[14] == "gz"@);
    assert(all[15] == "br"@);
    assert(all[16] == "zst"@);
    assert(all[17] == "bz2"@);
    assert(all[18] == "xz"@);
    assert(all[19] == "mp3"@);
    assert(all[20] == "mp4"@);
    assert(all[21] == "webm"@);
    assert(all[22] == "ogg"@);
    assert(all[23] == "wasm"@);
    assert(all[24] == "so"@);
    assert(all[25] == "dylib"@);
    assert(all[26] == "dll"@);
    assert(all[27] == "exe"@);
    assert(all[28] == "lock"@);
    assert(all[29] == "map"@);
    assert(all[30] == "snap"@);
    assert(all[31] == "patch"@);
    assert(all[32] == "db"@);
    assert(all[33] == "sqlite"@);
    assert(all[34] == "parquet"@);
    assert(all[35] == "arrow"@);
    assert(all[36] == "bin"@);
    assert(all[37] == "o"@);
    assert(all[38] == "a"@);
    assert(all[39] == "class"@);
    assert(all[40] == "pyc"@);
    assert(all[41] == "pyo"@);
    assert(all.len() == 42);
}

/// A file without an extension may be searched.
pub proof fn law_no_extension(path: Seq<char>)
    requires
        paths::extension(path) is None,
    ensures
        !has_binary_extension(path),
{
    reveal_strlit("png");
    reveal_strlit("jpg");
    reveal_strlit("jpeg");
    reveal_strlit("gif");
    reveal_strlit("webp");
    reveal_strlit("ico");
    reveal_strlit("svg");
    reveal_strlit("woff");
    reveal_strlit("woff2");
    reveal_strlit("ttf");
    reveal_strlit("eot");
    reveal_strlit("pdf");
    reveal_strlit("zip");
    reveal_strlit("tar");
    reveal_strlit("gz");
    reveal_strlit("br");
    reveal_strlit("zst");
    reveal_strlit("bz2");
    reveal_strlit("xz");
    reveal_strlit("mp3");
    reveal_strlit("mp4");
    reveal_strlit("webm");
    reveal_strlit("ogg");
    reveal_strlit("wasm");
    reveal_strlit("so");
    reveal_strlit("dylib");
    reveal_strlit("dll");
    reveal_strlit("exe");
    reveal_strlit("lock");
    reveal_strlit("map");
    reveal_strlit("snap");
    reveal_strlit("patch");
    reveal_strlit("db");
    reveal_strlit("sqlite");
    reveal_strlit("parquet");
    reveal_strlit("arrow");
    reveal_strlit("bin");
    reveal_strlit("o");
    reveal_strlit("a");
    reveal_strlit("class");
    reveal_strlit("pyc");
    reveal_strlit("pyo");
    let all = binary_extensions();
    assert forall|i: int| 0 <= i < all.len() implies #[trigger] all[i].len() > 0 by {}
    if all.contains(Seq::<char>::empty()) {
        let i = choose|i: int| 0 <= i < all.len() && all[i] == Seq::<char>::empty();
        assert(all[i].len() > 0);
    }
}

/// The files whose names have these ends, and no others, are generated.
pub proof fn law_generated_files(path: Seq<char>, name: Seq<char>)
    requires
        paths::file_name(path) == Some(name),
    ensures
        is_generated(path) <==> {
            ||| text::ends_with(name, ".min.js"@)
            ||| text::ends_with(name, ".min.css"@)
            ||| text::ends_with(name, ".bundle.js"@)
            ||| text::ends_with(name, ".chunk.js"@)
            ||| text::ends_with(name, ".d.ts"@)
            ||| text::ends_with(name, ".js.map"@)
            ||| text::ends_with(name, ".css.map"@)
        },
{
}

/// What becomes of an entry. A file is read where its name lets it be searched, it looks
/// like no secret or secrets are allowed, it has the extension that is asked for, if
/// one is, and it takes at most 512000 bytes or an unknown number. It counts as a
/// secret where it could be searched but for that, and as too large where it would be
/// read but for that.
pub proof fn law_selection_rules(
    entry: FoundEntry,
    ext_filter: Option<Seq<char>>,
    allow_secret_paths: bool,
)
    ensures
        ({
            let s = selection(entry, ext_filter, allow_secret_paths);
            let searchable = entry.entry_type == EntryType::File && !has_binary_extension(
                entry.path@,
            ) && !is_generated(entry.path@);
            let secret = entry.secret_like && !allow_secret_paths;
            let asked = match ext_filter {
                Some(e) => match paths::extension(entry.path@) {
                    Some(x) => x == e,
                    None => e.len() == 0,
                },
                None => true,
            };
            let large = match entry.size {
                Some(n) => n > 512000,
                None => false,
            };
            &&& s == Selection::Read <==> searchable && !secret && asked && !large
            &&& s == Selection::Secret <==> searchable && secret
            &&& s == Selection::TooLarge <==> searchable && !secret && asked && large
        }),
{
    match ext_filter {
        Some(e) => {
            if e.len() == 0 {
                assert(e =~= Seq::<char>::empty());
            }
        },
        None => {},
    }
}

/// The entries that are left out for a reason are counted, each once; and as many paths
/// are read as entries are.
pub proof fn law_selection_counts(
    entries: Seq<FoundEntry>,
    ext_filter: Option<Seq<char>>,
    allow_secret_paths: bool,
    reason: Selection,
)
    ensures
        left_out(entries, ext_filter, allow_secret_paths, reason) == entries.filter(
            |e: FoundEntry| selection(e, ext_filter, allow_secret_paths) == reason,
        ).len(),
        selected_paths(entries, ext_filter, allow_secret_paths).len() == entries.filter(
            |e: FoundEntry| selection(e, ext_filter, allow_secret_paths) == Selection::Read,
        ).len(),
{
    lemma_selection_counts(entries, ext_filter, allow_secret_paths, reason);
    ordering::lemma_text_order_is_order();
    ordering::law_sorted(
        read_paths(entries, ext_filter, allow_secret_paths),
        ordering::text_order(),
    );
}

proof fn lemma_selection_counts(
    entries: Seq<FoundEntry>,
    ext_filter: Option<Seq<char>>,
    allow_secret_paths: bool,
    reason: Selection,
)
    ensures
        left_out(entries, ext_filter, allow_secret_paths, reason) == entries.filter(
            |e: FoundEntry| selection(e, ext_filter, allow_secret_paths) == reason,
        ).len(),
        read_paths(entries, ext_filter, allow_secret_paths).len() == entries.filter(
            |e: FoundEntry| selection(e, ext_filter, allow_secret_paths) == Selection::Read,
        ).len(),
    decreases entries.len(),
{
    reveal(Seq::filter);
    if entries.len() > 0 {
        lemma_selection_counts(entries.drop_last(), ext_filter, allow_secret_paths, reason);
    }
}

// ---------------------------------------------------------------- laws of reports
/// A search does not start where its pattern takes more than 1024 bytes, does not
/// compile within a mebibyte, or its directory does not exist, and says so, the first
/// of these that holds; else it starts.
pub proof fn law_search_starts(pattern: Seq<char>, dir: Seq<char>, dir_exists: bool)
    ensures
        text::byte_len(pattern) > 1024 ==> search_error(pattern, dir, dir_exists) == Some(
            "ERROR: pattern too long ("@ + text::decimal(text::byte_len(pattern)) + " > "@
                + text::decimal(1024) + " chars)"@,
        ),
        text::byte_len(pattern) <= 1024 ==> (match regex_fault(pattern, 1048576) {
            Some(e) => search_error(pattern, dir, dir_exists) == Some("ERROR: invalid regex: "@ + e),
            None => search_error(pattern, dir, dir_exists) == (if dir_exists {
                None
            } else {
                Some("ERROR: "@ + dir + " does not exist"@)
            }),
        }),
{
}

/// A search takes as many more matches as are missing to what it was asked for.
pub proof fn law_room(run: RunModel)
    ensures
        run.matches.len() <= run.max_results ==> run.matches.len() + room(run) == run.max_results,
        run.matches.len() > run.max_results ==> room(run) == 0,
{
}

/// A match is shown with the path, the number of its line and its text, redacted where
/// it was; it costs the tokens of the line and two more.
pub proof fn law_shown_match(short_path: Seq<char>, lines: Seq<ShownLine>, l: ShownLine)
    ensures
        shown_matches(short_path, lines.push(l)) == shown_matches(short_path, lines).push(
            short_path + ":"@ + text::decimal(l.line as nat) + " "@ + (match l.redacted {
                Some(t) => t@,
                None => l.text@,
            }),
        ),
        shown_matches(short_path, Seq::<ShownLine>::empty()).len() == 0,
        raw_cost(lines.push(l)) == raw_cost(lines) + l.tokens + 2,
        raw_cost(Seq::<ShownLine>::empty()) == 0,
{
    assert(lines.push(l).drop_last() =~= lines);
    assert(shown_matches(short_path, lines.push(l)) =~= shown_matches(short_path, lines).push(
        shown_match(short_path, l),
    ));
}

/// The report of a search that found nothing names the pattern, the number of files
/// searched and, where there are any, those skipped.
pub proof fn law_empty_report(run: RunModel)
    ensures
        ({
            let head = "0 matches for '"@ + run.pattern + "' in "@ + text::decimal(
                run.files_searched,
            ) + " files"@;
            let large = if run.skipped_size > 0 {
                " ("@ + text::decimal(run.skipped_size) + " large files skipped)"@
            } else {
                seq![]
            };
            let binary = if run.skipped_encoding > 0 {
                " ("@ + text::decimal(run.skipped_encoding) + " files skipped: binary/encoding)"@
            } else {
                seq![]
            };
            let secret = if run.skipped_boundary > 0 {
                " ("@ + text::decimal(run.skipped_boundary)
                    + " secret-like files skipped by boundary policy)"@
            } else {
                seq![]
            };
            empty_report(run) == head + large + binary + secret
        }),
{
}

/// The report of a search that found something names the number of matches and of files
/// searched, the files of the matches where there are two or more, then the matches,
/// one on a line, and, where there are any, the files skipped.
pub proof fn law_match_report(run: RunModel)
    ensures
        ({
            let files = matched_files(run.matches);
            let head = text::decimal(run.matches.len()) + " matches in "@ + text::decimal(
                run.files_searched,
            ) + " files"@;
            let named = if files.len() >= 2 {
                " ["@ + text::join(files, ", "@) + "]"@
            } else {
                seq![]
            };
            let large = if run.skipped_size > 0 {
                "\n("@ + text::decimal(run.skipped_size) + " files >512KB skipped)"@
            } else {
                seq![]
            };
            let binary = if run.skipped_encoding > 0 {
                "\n("@ + text::decimal(run.skipped_encoding) + " files skipped: binary/encoding)"@
            } else {
                seq![]
            };
            let secret = if run.skipped_boundary > 0 {
                "\n("@ + text::decimal(run.skipped_boundary)
                    + " secret-like files skipped by boundary policy)"@
            } else {
                seq![]
            };
            match_report(run) == head + named + ":\n"@ + text::join(run.matches, "\n"@) + large
                + binary + secret
        }),
{
}

/// The files of the matches: what stands ahead of the first colon of each, each file
/// once, in the order in which they come first.
pub proof fn law_matched_files(matches: Seq<Seq<char>>, file: Seq<char>, behind: Seq<char>)
    requires
        !file.contains(':'),
    ensures
        matched_files(Seq::<Seq<char>>::empty()).len() == 0,
        matched_files(matches.push(file + seq![':'] + behind)) == (if matched_files(
            matches,
        ).contains(file) {
            matched_files(matches)
        } else {
            matched_files(matches).push(file)
        }),
{
    let m = file + seq![':'] + behind;
    lemma_up_to(file, ':', behind);
    let heads = Seq::new(matches.len(), |i: int| up_to(matches[i], ':'));
    let more = matches.push(m);
    let all = Seq::new(more.len(), |i: int| up_to(more[i], ':'));
    assert(all =~= heads.push(file));
    assert(heads.push(file).drop_last() =~= heads);
}

proof fn lemma_up_to(a: Seq<char>, c: char, b: Seq<char>)
    requires
        !a.contains(c),
    ensures
        up_to(a + seq![c] + b, c) == a,
        up_to(a, c) == a,
{
    let f = text::other_than(c);
    let s = a + seq![c] + b;
    let n = a.len() as int;
    assert forall|i: int| 0 <= i < n implies f(#[trigger] a[i]) by {
        assert(a.contains(a[i]));
    }
    assert forall|i: int| 0 <= i < n implies f(#[trigger] s[i]) by {
        assert(s[i] == a[i]);
    }
    assert(s[n] == c);
    text::lemma_run_len_is(s, f, n);
    text::lemma_run_len_is(a, f, n);
    assert(s.take(n) =~= a);
    assert(a.take(n) =~= a);
}

/// The directory of a match below the directory that is searched is the first part of
/// its path there; a leading `./` makes no difference.
pub proof fn law_top_dir(dir: Seq<char>, top: Seq<char>, below: Seq<char>, behind: Seq<char>)
    requires
        dir.len() > 0,
        !dir.contains(':'),
        !text::starts_with(dir, "./"@),
        !text::starts_with(dir + seq!['/'], "./"@),
        !top.contains('/'),
        !top.contains(':'),
        !below.contains(':'),
    ensures
        top_dir(dir + seq!['/'] + top + seq!['/'] + below + seq![':'] + behind, dir) == top,
        top_dir("./"@ + dir + seq!['/'] + top + seq!['/'] + below + seq![':'] + behind, dir) == top,
{
    reveal_strlit("./");
    reveal_strlit("/");
    let inner = seq!['/'] + top + seq!['/'] + below;
    let path = dir + inner;
    assert(!inner.contains(':')) by {
        if inner.contains(':') {
            let i = choose|i: int| 0 <= i < inner.len() && inner[i] == ':';
            let n = top.len() as int;
            if 0 < i <= n {
                assert(top[i - 1] == ':');
            } else if i > n + 1 {
                assert(below[i - n - 2] == ':');
            }
        }
    }
    assert(!path.contains(':')) by {
        if path.contains(':') {
            let i = choose|i: int| 0 <= i < path.len() && path[i] == ':';
            if i < dir.len() {
                assert(dir[i] == ':');
            } else {
                assert(inner[i - dir.len()] == ':');
            }
        }
    }
    let dotted = "./"@ + path;
    assert(!dotted.contains(':')) by {
        if dotted.contains(':') {
            let i = choose|i: int| 0 <= i < dotted.len() && dotted[i] == ':';
            if i >= 2 {
                assert(path[i - 2] == ':');
            }
        }
    }
    lemma_up_to(path, ':', behind);
    lemma_up_to(dotted, ':', behind);
    assert(path + seq![':'] + behind =~= dir + seq!['/'] + top + seq!['/'] + below + seq![':']
        + behind);
    assert(dotted + seq![':'] + behind =~= "./"@ + dir + seq!['/'] + top + seq!['/'] + below
        + seq![':'] + behind);
    assert(dotted.take(2) =~= "./"@);
    assert(dotted.skip(2) =~= path);
    if text::starts_with(path, "./"@) {
        assert(path.take(2)[0] == path[0] && path.take(2)[1] == path[1]);
        if dir.len() >= 2 {
            assert(dir.take(2) =~= path.take(2));
        } else {
            assert((dir + seq!['/']).take(2) =~= path.take(2));
        }
    }
    assert(path.take(dir.len() as int) =~= dir);
    assert(path.skip(dir.len() as int) =~= inner);
    assert(inner.take(1) =~= "/"@);
    let rest = top + seq!['/'] + below;
    assert(inner.skip(1) =~= rest);
    lemma_up_to(top, '/', below);
}

/// The hint to search less comes where the matches lie in four directories or more; it
/// says how many, names the first six and the number of the others, and proposes the
/// first.
pub proof fn law_scope_hint(matches: Seq<Seq<char>>, search_dir: Seq<char>)
    ensures
        ({
            let dirs = scope_dirs(matches, search_dir);
            let n = dirs.len();
            let shown = Seq::new(
                if n <= 6 {
                    n
                } else {
                    6
                },
                |i: int| "'"@ + dirs[i] + "'"@,
            );
            let more = if n <= 6 {
                seq![]
            } else {
                ", +"@ + text::decimal((n - 6) as nat) + " more"@
            };
            &&& n <= 3 ==> scope_hint(matches, search_dir) is None
            &&& n >= 4 ==> scope_hint(matches, search_dir) == Some(
                "\n\nResults span "@ + text::decimal(n) + " directories ("@ + text::join(
                    shown,
                    ", "@,
                ) + more
                    + "). Use the 'path' parameter to scope to a specific service, e.g. path=\""@
                    + dirs[0] + "/\"."@,
            )
        }),
{
    let dirs = scope_dirs(matches, search_dir);
    let n = dirs.len();
    let shown = Seq::new(
        if n <= 6 {
            n
        } else {
            6
        },
        |i: int| "'"@ + dirs[i] + "'"@,
    );
    assert(all_quoted(bm25_index::first_of(dirs, 6)) =~= shown);
}

/// Symbols pay where there are three or more and the report in them and their table take
/// at most 95 percent of the tokens of the report.
pub proof fn law_symbols_pay(s: SymbolReport, report: Seq<char>, hint: Option<Seq<char>>)
    ensures
        symbols_pay(s) <==> s.symbols >= 3 && s.original_tokens > 0 && 100 * (s.compressed_tokens
            + s.table_tokens) <= 95 * s.original_tokens,
        hint is None ==> answer_body(report, s, hint) == (if symbols_pay(s) {
            s.compressed@ + s.table@
        } else {
            report
        }),
        hint is Some ==> answer_body(report, s, hint) == answer_body(report, s, None) + hint->0,
{
    let n = s.original_tokens as int;
    let saved = saving(s) * 100;
    if n > 0 {
        assert(saved / n >= 5 <==> saved >= 5 * n) by (nonlinear_arith)
            requires
                n > 0,
        ;
    }
    let body = if symbols_pay(s) {
        s.compressed@ + s.table@
    } else {
        report
    };
    assert(body + Seq::<char>::empty() =~= body);
}

/// A search starts with what it was asked, and with nothing found or skipped.
pub proof fn law_started(
    pattern: Seq<char>,
    dir: Seq<char>,
    ext_filter: Option<Seq<char>>,
    max_results: nat,
    allow_secret_paths: bool,
)
    ensures
        ({
            let run = started(pattern, dir, ext_filter, max_results, allow_secret_paths);
            &&& run.pattern == pattern
            &&& run.dir == dir
            &&& run.ext_filter == ext_filter
            &&& run.max_results == max_results
            &&& run.allow_secret_paths == allow_secret_paths
            &&& run.matches.len() == 0
            &&& run.raw_tokens == 0
            &&& run.files_searched == 0
            &&& run.skipped_size == 0
            &&& run.skipped_encoding == 0
            &&& run.skipped_boundary == 0
            &&& room(run) == max_results
        }),
{
}

/// The directory of a match whose path does not start with the directory that is searched
/// is the first part of its path.
pub proof fn law_top_dir_elsewhere(
    dir: Seq<char>,
    top: Seq<char>,
    below: Seq<char>,
    behind: Seq<char>,
)
    requires
        top.len() > 0,
        !top.contains('/'),
        !top.contains(':'),
        !below.contains(':'),
        !text::starts_with(top + seq!['/'] + below, dir),
        !text::starts_with(top + seq!['/'] + below, "./"@),
        !text::starts_with(top, dir),
    ensures
        top_dir(top + seq!['/'] + below + seq![':'] + behind, dir) == top,
        top_dir(top + seq![':'] + behind, dir) == top,
{
    reveal_strlit("./");
    reveal_strlit("/");
    let path = top + seq!['/'] + below;
    assert(!path.contains(':')) by {
        if path.contains(':') {
            let i = choose|i: int| 0 <= i < path.len() && path[i] == ':';
            if i < top.len() {
                assert(top[i] == ':');
            } else if i > top.len() {
                assert(below[i - top.len() - 1] == ':');
            }
        }
    }
    lemma_up_to(path, ':', behind);
    lemma_up_to(top, ':', behind);
    lemma_up_to(top, '/', below);
    assert(path.take(1)[0] == top[0]);
    assert(top.take(1)[0] == top[0]);
    assert(top.contains(top[0]));
    assert("/"@[0] == '/');
    if text::starts_with(top, "./"@) {
        assert(top.take(2)[1] == top[1]);
        assert(top.contains(top[1]));
    }
}

} // verus!
