//! How an index is kept on disk: packed with zstd, up to a limit, beside two
//! older forms that can still be read.
use vstd::prelude::*;

use crate::bm25_index::BM25Index;
use crate::bm25_index::IndexedFileState;
use crate::text;

verus! {

/// How hard an index is packed.
pub const ZSTD_LEVEL: i32 = 9;

// ---------------------------------------------------------------- limit
/// The number that a variable gives.
pub open spec fn env_number(value: Option<Seq<char>>) -> Option<nat> {
    match value {
        Some(s) => text::parse_number(s, u64::MAX as nat),
        None => None,
    }
}

/// How many megabytes an index may take: what the environment says, else what
/// the configuration says where it differs from the default, else what the
/// memory profile says.
pub open spec fn cache_mb(
    env: Option<Seq<char>>,
    profile_mb: u64,
    config_mb: u64,
    default_mb: u64,
) -> nat {
    match env_number(env) {
        Some(n) => n,
        None => if config_mb == default_mb {
            profile_mb as nat
        } else {
            config_mb as nat
        },
    }
}

/// How many megabytes an index may take.
pub fn max_bm25_cache_mb(
    env: Option<&str>,
    profile_mb: u64,
    config_mb: u64,
    default_mb: u64,
) -> (r: u64)
    ensures
        r == cache_mb(text::opt_view(env), profile_mb, config_mb, default_mb),
{
    let given: Option<u64> = match env {
        Some(s) => {
            let chars = text::chars_of(s);
            text::number(chars.as_slice(), u64::MAX)
        },
        None => None,
    };
    match given {
        Some(n) => n,
        None => if config_mb == default_mb {
            profile_mb
        } else {
            config_mb
        },
    }
}

/// How many bytes an index may take on disk.
pub fn max_bm25_cache_bytes(
    env: Option<&str>,
    profile_mb: u64,
    config_mb: u64,
    default_mb: u64,
) -> (r: u64)
    requires
        cache_mb(text::opt_view(env), profile_mb, config_mb, default_mb) * 1048576 <= u64::MAX,
    ensures
        r == cache_mb(text::opt_view(env), profile_mb, config_mb, default_mb) * 1048576,
{
    let mb = max_bm25_cache_mb(env, profile_mb, config_mb, default_mb);
    mb * 1024 * 1024
}

// ---------------------------------------------------------------- packing
/// What `zstd::encode_all` makes of data at a level.
pub uninterp spec fn zstd_frame(data: Seq<u8>, level: int) -> Seq<u8>;

/// What `zstd::decode_all` reads in bytes, or nothing where they hold no data.
pub uninterp spec fn zstd_content(bytes: Seq<u8>) -> Option<Seq<u8>>;

/// `zstd::encode_all`: where it succeeds, its result is a function of the data
/// and the level, and unpacks to the data. When it fails is left unsaid.
#[verifier::external_body]
fn zstd_encode(data: &[u8], level: i32) -> (r: Result<Vec<u8>, String>)
    ensures
        match r {
            Ok(c) => c@ == zstd_frame(data@, level as int) && zstd_content(c@) == Some(data@),
            Err(_) => true,
        },
{
    zstd::encode_all(data, level).map_err(|e| e.to_string())
}

/// `zstd::decode_all`: a function of the bytes.
#[verifier::external_body]
fn zstd_decode(bytes: &[u8]) -> (r: Option<Vec<u8>>)
    ensures
        text::opt_owned(r) == zstd_content(bytes@),
{
    zstd::decode_all(bytes).ok()
}

// ---------------------------------------------------------------- files
/// The forms in which an index is kept.
#[derive(Debug, Clone, Copy, PartialEq, Eq, Structural)]
pub enum IndexFile {
    Compressed,
    Plain,
    Json,
}

/// The name of the file of a form.
pub open spec fn file_of(form: IndexFile) -> Seq<char> {
    match form {
        IndexFile::Compressed => "bm25_index.bin.zst"@,
        IndexFile::Plain => "bm25_index.bin"@,
        IndexFile::Json => "bm25_index.json"@,
    }
}

/// The name under which the file of a form is put aside.
pub open spec fn quarantine_of(form: IndexFile) -> Seq<char> {
    file_of(form) + ".quarantined"@
}

impl IndexFile {
    /// The name of the file.
    pub fn file_name(self) -> (r: &'static str)
        ensures
            r@ == file_of(self),
    {
        match self {
            IndexFile::Compressed => "bm25_index.bin.zst",
            IndexFile::Plain => "bm25_index.bin",
            IndexFile::Json => "bm25_index.json",
        }
    }

    /// The name under which the file is put aside.
    pub fn quarantine_name(self) -> (r: String)
        ensures
            r@ == quarantine_of(self),
    {
        let mut out = self.file_name().to_string();
        out.push_str(".quarantined");
        out
    }

    /// The name under which a packed index is written before it takes its place.
    pub fn temporary_name() -> (r: &'static str)
        ensures
            r@ == file_of(IndexFile::Compressed) + ".tmp"@,
    {
        proof {
            reveal_strlit("bm25_index.bin.zst.tmp");
            reveal_strlit("bm25_index.bin.zst");
            reveal_strlit(".tmp");
            assert("bm25_index.bin.zst.tmp"@ =~= "bm25_index.bin.zst"@ + ".tmp"@);
        }
        "bm25_index.bin.zst.tmp"
    }
}

/// What is known of a file: whether it exists, and its size where that is known.
#[derive(Debug, Clone, Copy, PartialEq, Eq, Structural)]
pub struct FileProbe {
    pub exists: bool,
    pub size: Option<u64>,
}

/// What to do to load an index.
#[derive(Debug, Clone, Copy, PartialEq, Eq, Structural)]
pub enum LoadPlan {
    /// There is none to load.
    Nothing,
    /// The file is too large: put it aside, and load nothing.
    Quarantine(IndexFile),
    /// Read the file.
    Read(IndexFile),
}

/// What to do with a file that exists.
pub open spec fn plan_for(form: IndexFile, size: Option<u64>, max_bytes: u64) -> LoadPlan {
    match size {
        Some(n) => if n > max_bytes {
            LoadPlan::Quarantine(form)
        } else {
            LoadPlan::Read(form)
        },
        None => LoadPlan::Nothing,
    }
}

/// What to do to load an index: the packed file counts before the plain one, and
/// that before the JSON file.
pub open spec fn load_plan(
    compressed: FileProbe,
    plain: FileProbe,
    json: FileProbe,
    max_bytes: u64,
) -> LoadPlan {
    if compressed.exists {
        plan_for(IndexFile::Compressed, compressed.size, max_bytes)
    } else if plain.exists {
        plan_for(IndexFile::Plain, plain.size, max_bytes)
    } else if json.exists {
        plan_for(IndexFile::Json, json.size, max_bytes)
    } else {
        LoadPlan::Nothing
    }
}

/// What to do to save an index.
#[derive(Debug)]
pub enum SavePlan {
    /// The packed index is too large to keep.
    Refuse,
    /// Write these bytes to the packed file, by way of the temporary one, and
    /// remove the files of the other forms.
    Write(Vec<u8>),
}

/// What to do to have an index.
#[derive(Debug, Clone, Copy, PartialEq, Eq, Structural)]
pub enum IndexPlan {
    /// Take an empty one.
    Empty,
    /// Take the one that was loaded.
    Keep,
    /// Build one, and save it.
    Build,
    /// Rebuild the one that was loaded, and save it.
    Rebuild,
}

/// What to do to have an index.
pub open spec fn index_plan(
    root_is_safe: bool,
    loaded: Option<BM25Index>,
    stale: bool,
) -> IndexPlan {
    if !root_is_safe {
        IndexPlan::Empty
    } else {
        match loaded {
            None => IndexPlan::Build,
            Some(index) => if !stale {
                IndexPlan::Keep
            } else if index.files@ == Map::<Seq<char>, IndexedFileState>::empty() {
                IndexPlan::Build
            } else {
                IndexPlan::Rebuild
            },
        }
    }
}

fn planned(form: IndexFile, size: Option<u64>, max_bytes: u64) -> (r: LoadPlan)
    ensures
        r == plan_for(form, size, max_bytes),
{
    match size {
        Some(n) => if n > max_bytes {
            LoadPlan::Quarantine(form)
        } else {
            LoadPlan::Read(form)
        },
        None => LoadPlan::Nothing,
    }
}

/// What a file of a form holds: the packed one the data, the others themselves.
pub open spec fn data_in(form: IndexFile, bytes: Seq<u8>) -> Option<Seq<u8>> {
    match form {
        IndexFile::Compressed => zstd_content(bytes),
        _ => Some(bytes),
    }
}

impl BM25Index {
    /// What to do to save an index, from its encoded data.
    pub fn save(data: &[u8], max_bytes: u64) -> (r: Result<SavePlan, String>)
        ensures
            match r {
                Ok(SavePlan::Write(bytes)) => bytes@ == zstd_frame(data@, ZSTD_LEVEL as int)
                    && bytes@.len() <= max_bytes && zstd_content(bytes@) == Some(data@),
                Ok(SavePlan::Refuse) => zstd_frame(data@, ZSTD_LEVEL as int).len() > max_bytes,
                Err(m) => text::starts_with(m@, "zstd compress: "@),
            },
    {
        match zstd_encode(data, ZSTD_LEVEL) {
            Ok(packed) => save_packed(packed, max_bytes),
            Err(e) => {
                let mut m = String::new();
                m.push_str("zstd compress: ");
                m.push_str(e.as_str());
                proof {
                    assert(m@.take("zstd compress: "@.len() as int) =~= "zstd compress: "@);
                }
                Err(m)
            },
        }
    }

    /// What to do to load an index.
    pub fn load(compressed: FileProbe, plain: FileProbe, json: FileProbe, max_bytes: u64) -> (r:
        LoadPlan)
        ensures
            r == load_plan(compressed, plain, json, max_bytes),
    {
        if compressed.exists {
            planned(IndexFile::Compressed, compressed.size, max_bytes)
        } else if plain.exists {
            planned(IndexFile::Plain, plain.size, max_bytes)
        } else if json.exists {
            planned(IndexFile::Json, json.size, max_bytes)
        } else {
            LoadPlan::Nothing
        }
    }

    /// What to do to have an index, once it was tried to load one.
    pub fn load_or_build(root_is_safe: bool, loaded: Option<&BM25Index>, stale: bool) -> (r:
        IndexPlan)
        requires
            loaded is Some ==> loaded->0.tables_wf(),
        ensures
            r == index_plan(root_is_safe, crate::bm25_scan::owned_index(loaded), stale),
    {
        if !root_is_safe {
            return IndexPlan::Empty;
        }
        match loaded {
            None => IndexPlan::Build,
            Some(index) => if !stale {
                IndexPlan::Keep
            } else if index.files.is_empty() {
                IndexPlan::Build
            } else {
                IndexPlan::Rebuild
            },
        }
    }

    /// The form in which an index is on disk: the first that exists, else JSON.
    pub fn index_file_path(compressed_exists: bool, plain_exists: bool) -> (r: IndexFile)
        ensures
            r == (if compressed_exists {
                IndexFile::Compressed
            } else if plain_exists {
                IndexFile::Plain
            } else {
                IndexFile::Json
            }),
    {
        if compressed_exists {
            IndexFile::Compressed
        } else if plain_exists {
            IndexFile::Plain
        } else {
            IndexFile::Json
        }
    }
}

/// What to do with a packed index: keep it unless it is over the limit.
pub fn save_packed(packed: Vec<u8>, max_bytes: u64) -> (r: Result<SavePlan, String>)
    ensures
        match r {
            Ok(SavePlan::Write(bytes)) => packed@.len() <= max_bytes && bytes@ == packed@,
            Ok(SavePlan::Refuse) => packed@.len() > max_bytes,
            Err(_) => false,
        },
{
    if packed.len() as u64 > max_bytes {
        Ok(SavePlan::Refuse)
    } else {
        Ok(SavePlan::Write(packed))
    }
}

/// The data that a file of a form holds.
pub fn unpack(form: IndexFile, bytes: Vec<u8>) -> (r: Option<Vec<u8>>)
    ensures
        text::opt_owned(r) == data_in(form, bytes@),
{
    match form {
        IndexFile::Compressed => zstd_decode(bytes.as_slice()),
        _ => Some(bytes),
    }
}

/// The packed form of a plain file's data, to take the place of the file, where
/// packing succeeds; [`replacement`] says what becomes of either outcome.
pub fn migrated(data: &[u8]) -> (r: Option<Vec<u8>>)
    ensures
        match r {
            Some(bytes) => bytes@ == zstd_frame(data@, ZSTD_LEVEL as int) && data_in(
                IndexFile::Compressed,
                bytes@,
            ) == Some(data@),
            None => true,
        },
{
    replacement(zstd_encode(data, ZSTD_LEVEL))
}

/// What takes the place of a plain file, from what packing its data gave: the
/// packed data, and nothing just where packing failed.
pub fn replacement(packed: Result<Vec<u8>, String>) -> (r: Option<Vec<u8>>)
    ensures
        r == (match packed {
            Ok(bytes) => Some(bytes),
            Err(_) => None,
        }),
{
    match packed {
        Ok(bytes) => Some(bytes),
        Err(_) => None,
    }
}

/// What was written is what is read: a file within the limit is read, and holds
/// the data that was saved.
pub proof fn law_saved_index_is_loaded(
    data: Seq<u8>,
    bytes: Seq<u8>,
    plain: FileProbe,
    json: FileProbe,
    max_bytes: u64,
)
    requires
        bytes.len() <= max_bytes,
        zstd_content(bytes) == Some(data),
    ensures
        load_plan(
            (FileProbe { exists: true, size: Some(bytes.len() as u64) }),
            plain,
            json,
            max_bytes,
        ) == LoadPlan::Read(IndexFile::Compressed),
        data_in(IndexFile::Compressed, bytes) == Some(data),
{
}

/// A file over the limit is never read.
pub proof fn law_oversized_is_never_read(
    compressed: FileProbe,
    plain: FileProbe,
    json: FileProbe,
    max_bytes: u64,
)
    ensures
        match load_plan(compressed, plain, json, max_bytes) {
            LoadPlan::Read(form) => {
                let probe = match form {
                    IndexFile::Compressed => compressed,
                    IndexFile::Plain => plain,
                    IndexFile::Json => json,
                };
                probe.exists && probe.size is Some && probe.size->0 <= max_bytes
            },
            _ => true,
        },
{
}

/// The limit: a number in the environment counts before all else; without one the
/// configuration counts where it is not the default, and else the memory profile.
pub proof fn law_cache_limit(
    n: nat,
    s: Seq<char>,
    profile_mb: u64,
    config_mb: u64,
    default_mb: u64,
)
    ensures
        n <= u64::MAX ==> cache_mb(Some(text::decimal(n)), profile_mb, config_mb, default_mb) == n,
        config_mb != default_mb ==> cache_mb(None, profile_mb, config_mb, default_mb) == config_mb,
        cache_mb(None, profile_mb, default_mb, default_mb) == profile_mb,
        s.len() == 0 || n > u64::MAX && s == text::decimal(n) || s.len() > 0 && s[0]
            != '+' && !('0' <= s[0] <= '9') ==> cache_mb(
            Some(s),
            profile_mb,
            config_mb,
            default_mb,
        ) == cache_mb(None, profile_mb, config_mb, default_mb),
{
    text::law_parse_number(n, s, u64::MAX as nat);
    if s.len() == 0 {
        assert(s =~= Seq::<char>::empty());
    }
}

/// The files in which an index is kept, each form in one of its own, and the names under
/// which they are put aside.
pub proof fn law_index_files()
    ensures
        file_of(IndexFile::Compressed) == "bm25_index.bin.zst"@,
        file_of(IndexFile::Plain) == "bm25_index.bin"@,
        file_of(IndexFile::Json) == "bm25_index.json"@,
        quarantine_of(IndexFile::Compressed) == "bm25_index.bin.zst.quarantined"@,
        quarantine_of(IndexFile::Plain) == "bm25_index.bin.quarantined"@,
        quarantine_of(IndexFile::Json) == "bm25_index.json.quarantined"@,
        ZSTD_LEVEL == 9,
{
    reveal_strlit("bm25_index.bin.zst");
    reveal_strlit("bm25_index.bin");
    reveal_strlit("bm25_index.json");
    reveal_strlit(".quarantined");
    reveal_strlit("bm25_index.bin.zst.quarantined");
    reveal_strlit("bm25_index.bin.quarantined");
    reveal_strlit("bm25_index.json.quarantined");
    assert("bm25_index.bin.zst.quarantined"@ =~= "bm25_index.bin.zst"@ + ".quarantined"@);
    assert("bm25_index.bin.quarantined"@ =~= "bm25_index.bin"@ + ".quarantined"@);
    assert("bm25_index.json.quarantined"@ =~= "bm25_index.json"@ + ".quarantined"@);
}

/// Which file decides, and what: the packed one where it exists, else the plain one, else
/// the JSON file. The one that decides is put aside exactly where it is over the limit,
/// read exactly where it is within, and otherwise, where its size is not known, nothing is
/// loaded.
pub proof fn law_load_plan(
    compressed: FileProbe,
    plain: FileProbe,
    json: FileProbe,
    max_bytes: u64,
)
    ensures
        ({
            let plan = load_plan(compressed, plain, json, max_bytes);
            let (form, probe) = if compressed.exists {
                (IndexFile::Compressed, compressed)
            } else if plain.exists {
                (IndexFile::Plain, plain)
            } else {
                (IndexFile::Json, json)
            };
            &&& plan == LoadPlan::Read(form) <==> probe.exists && probe.size is Some
                && probe.size->0 <= max_bytes
            &&& plan == LoadPlan::Quarantine(form) <==> probe.exists && probe.size is Some
                && probe.size->0 > max_bytes
            &&& plan == LoadPlan::Nothing <==> !probe.exists || probe.size is None
        }),
{
}

/// What a packed file holds is what was packed; the others hold their bytes.
pub proof fn law_data_in(bytes: Seq<u8>)
    ensures
        data_in(IndexFile::Compressed, bytes) == zstd_content(bytes),
        data_in(IndexFile::Plain, bytes) == Some(bytes),
        data_in(IndexFile::Json, bytes) == Some(bytes),
{
}

/// An index that was loaded is kept unless it is stale; a stale one is rebuilt where it
/// tracks files, and built anew where it tracks none, as where none was loaded. Below a
/// root that is not safe the index is empty, whatever was loaded.
pub proof fn law_index_plan(index: BM25Index, stale: bool, loaded: Option<BM25Index>)
    ensures
        index_plan(false, loaded, stale) == IndexPlan::Empty,
        index_plan(true, None, stale) == IndexPlan::Build,
        index_plan(true, Some(index), false) == IndexPlan::Keep,
        (exists|k: Seq<char>| #[trigger] index.files@.contains_key(k)) ==> index_plan(
            true,
            Some(index),
            true,
        ) == IndexPlan::Rebuild,
        (forall|k: Seq<char>| !#[trigger] index.files@.contains_key(k)) ==> index_plan(
            true,
            Some(index),
            true,
        ) == IndexPlan::Build,
{
    if exists|k: Seq<char>| #[trigger] index.files@.contains_key(k) {
        assert(index.files@ != Map::<Seq<char>, IndexedFileState>::empty());
    } else {
        assert(index.files@ =~= Map::<Seq<char>, IndexedFileState>::empty());
    }
}

} // verus!
